use ethereum_types::U256;
use merkle_partial::node::Node;
use merkle_partial::tree_arithmetic::{
    expand_tree_index, left_most_leaf, log_base_two, next_power_of_two, sibling_index,
    subtree_index_to_general,
};
use merkle_partial::types::{FixedVector, VariableList};
use merkle_partial::{Error, MerkleTreeOverlay, PathElement};

#[test]
fn variable_list_overlay() {
    // Merkle structure for `VariableList<U256, 8>`
    //
    //                 +---------- 0 ----------+
    //                /                         \
    //          +--- 1 ---+                +--- 2 ---+          <= length
    //         /           \
    //        3             4
    //      /   \         /   \
    //     7     8       9    10
    //    / \   / \     / \   / \
    //   15 16 17 18   19 20 21 22   <= leaves
    type T = VariableList<U256, 8>;

    // TESTING LENGTH NODE
    assert_eq!(
        T::get_node(vec![PathElement::from_ident_str("len")]),
        Ok(Node {
            ident: PathElement::from_ident_str("len"),
            index: 2,
            size: 32,
            offset: 0,
            height: 0,
            is_list: false,
        })
    );

    // TESTING LEAF NODES
    assert_eq!(
        T::get_node(vec![PathElement::Index(0)]),
        Ok(Node {
            ident: PathElement::Index(0),
            index: 15,
            size: 32,
            offset: 0,
            height: 0,
            is_list: false,
        })
    );

    assert_eq!(
        T::get_node(vec![PathElement::Index(3)]),
        Ok(Node {
            ident: PathElement::Index(3),
            index: 18,
            size: 32,
            offset: 0,
            height: 0,
            is_list: false,
        })
    );

    assert_eq!(
        T::get_node(vec![PathElement::Index(7)]),
        Ok(Node {
            ident: PathElement::Index(7),
            index: 22,
            size: 32,
            offset: 0,
            height: 0,
            is_list: false,
        })
    );

    // TESTING OUT-OF-BOUNDS INDEX
    assert_eq!(
        T::get_node(vec![PathElement::Index(9)]),
        Err(Error::IndexOutOfBounds(9))
    );
}

#[test]
fn nested_variable_list_overlay() {
    type T = VariableList<VariableList<VariableList<U256, 2>, 2>, 4>;

    // TESTING LENGTH NODE
    // root list length
    assert_eq!(
        T::get_node(vec![PathElement::from_ident_str("len")]),
        Ok(Node {
            ident: PathElement::from_ident_str("len"),
            index: 2,
            size: 32,
            offset: 0,
            height: 0,
            is_list: false,
        })
    );

    // position 0 list length
    assert_eq!(
        T::get_node(vec![
            PathElement::Index(0),
            PathElement::from_ident_str("len")
        ]),
        Ok(Node {
            ident: PathElement::from_ident_str("len"),
            index: 16,
            size: 32,
            offset: 0,
            height: 0,
            is_list: false,
        })
    );

    // position 3 list length
    assert_eq!(
        T::get_node(vec![
            PathElement::Index(3),
            PathElement::from_ident_str("len")
        ]),
        Ok(Node {
            ident: PathElement::from_ident_str("len"),
            index: 22,
            size: 32,
            offset: 0,
            height: 0,
            is_list: false,
        })
    );

    // TESTING LEAF NODES
    assert_eq!(
        T::get_node(vec![
            PathElement::Index(0),
            PathElement::Index(1),
            PathElement::Index(0)
        ]),
        Ok(Node {
            ident: PathElement::Index(0),
            index: 131,
            size: 32,
            offset: 0,
            height: 0,
            is_list: false,
        })
    );
    assert_eq!(
        T::get_node(vec![
            PathElement::Index(2),
            PathElement::Index(1),
            PathElement::Index(0)
        ]),
        Ok(Node {
            ident: PathElement::Index(0),
            index: 163,
            size: 32,
            offset: 0,
            height: 0,
            is_list: false,
        })
    );

    assert_eq!(
        T::get_node(vec![
            PathElement::Index(3),
            PathElement::Index(0),
            PathElement::Index(1)
        ]),
        Ok(Node {
            ident: PathElement::Index(1),
            index: 176,
            size: 32,
            offset: 0,
            height: 0,
            is_list: false,
        })
    );

    // TESTING OUT-OF-BOUNDS
    assert_eq!(
        T::get_node(vec![PathElement::Index(4)]),
        Err(Error::IndexOutOfBounds(4))
    );
    assert_eq!(
        T::get_node(vec![PathElement::Index(3), PathElement::Index(2)]),
        Err(Error::IndexOutOfBounds(2))
    );
    assert_eq!(
        T::get_node(vec![
            PathElement::Index(3),
            PathElement::Index(1),
            PathElement::Index(2)
        ]),
        Err(Error::IndexOutOfBounds(2))
    );
}

#[test]
fn impls_simple_fixed_vector() {
    type T = FixedVector<U256, 8>;

    // Merkle structure for `FixedVector<U256, 8>`
    //
    //            ___ 0 ___
    //           /         \
    //          1           2
    //        /   \       /   \
    //       3     4     5     6
    //      / \   / \   / \   / \
    //     7   8 9  10 11 12 13 14      <= leaves
    assert_eq!(T::height(), 3);

    for i in 7..=14 {
        assert_eq!(
            T::get_node(vec![PathElement::Index(i - 7)]),
            Ok(Node {
                ident: PathElement::Index(i - 7),
                index: i,
                size: 32,
                offset: 0,
                height: 0,
                is_list: false,
            })
        );
    }

    // TESTING OUT-OF-BOUNDS
    assert_eq!(
        T::get_node(vec![PathElement::Index(8)]),
        Err(Error::IndexOutOfBounds(8))
    );

    // TESTING LENGTH
    assert_eq!(
        T::get_node(vec![PathElement::from_ident_str("len")]),
        Err(Error::InvalidPath(PathElement::from_ident_str("len")))
    );
}

#[test]
fn another_simple_fixed_vector() {
    type T = FixedVector<u8, 32>;

    assert_eq!(T::height(), 0);

    // TESTING ALL PATHS
    for i in 0..32 {
        assert_eq!(
            T::get_node(vec![PathElement::Index(i)]),
            Ok(Node {
                ident: PathElement::Index(i),
                index: 0,
                size: 1,
                offset: i as u8,
                height: 0,
                is_list: false,
            })
        );
    }
}

#[test]
fn nested_fixed_vector() {
    type T = FixedVector<FixedVector<FixedVector<U256, 16>, 2>, 1>;

    assert_eq!(T::height(), 0);

    assert_eq!(
        T::get_node(vec![PathElement::Index(0)]),
        Ok(Node {
            ident: PathElement::Index(0),
            index: 0,
            size: 32,
            offset: 0,
            height: 1,
            is_list: false,
        })
    );

    // TEST ALL PATHS
    for i in 0..2 {
        assert_eq!(
            T::get_node(vec![PathElement::Index(0), PathElement::Index(i)]),
            Ok(Node {
                ident: PathElement::Index(i),
                index: i + 1,
                size: 32,
                offset: 0,
                height: 4,
                is_list: false,
            })
        );

        for j in 0..16 {
            assert_eq!(
                T::get_node(vec![
                    PathElement::Index(0),
                    PathElement::Index(i),
                    PathElement::Index(j)
                ]),
                Ok(Node {
                    ident: PathElement::Index(j),
                    index: j + 31 + (i * 16),
                    size: 32,
                    offset: 0,
                    height: 0,
                    is_list: false,
                })
            );
        }
    }

    // TEST OUT-OF-BOUNDS
    assert_eq!(
        T::get_node(vec![PathElement::Index(1)]),
        Err(Error::IndexOutOfBounds(1))
    );
    assert_eq!(
        T::get_node(vec![PathElement::Index(0), PathElement::Index(2)]),
        Err(Error::IndexOutOfBounds(2))
    );
    assert_eq!(
        T::get_node(vec![
            PathElement::Index(0),
            PathElement::Index(0),
            PathElement::Index(16)
        ]),
        Err(Error::IndexOutOfBounds(16))
    );
    assert_eq!(
        T::get_node(vec![
            PathElement::Index(0),
            PathElement::Index(1),
            PathElement::Index(16)
        ]),
        Err(Error::IndexOutOfBounds(16))
    );
}

#[test]
fn packed_list_offsets() {
    // two `u128` values share each chunk of a `VariableList<u128, 8>`, at
    // offsets 0 and 16
    type T = VariableList<u128, 8>;
    let even = T::get_node(vec![PathElement::Index(2)]).unwrap();
    let odd = T::get_node(vec![PathElement::Index(3)]).unwrap();
    assert_eq!(even.index, odd.index);
    assert_eq!((even.offset, even.size), (0, 16));
    assert_eq!((odd.offset, odd.size), (16, 16));
}

#[test]
fn primitive_overlay() {
    assert_eq!(u8::height(), 0);
    assert_eq!(u8::min_repr_size(), 1);
    assert_eq!(u64::min_repr_size(), 8);
    assert_eq!(u128::min_repr_size(), 16);
    assert_eq!(U256::min_repr_size(), 32);
    assert_eq!(bool::is_list(), false);
    assert_eq!(
        u64::get_node(vec![]),
        Ok(Node {
            ident: PathElement::from_ident_str(""),
            index: 0,
            size: 8,
            offset: 0,
            height: 0,
            is_list: false,
        })
    );
    assert_eq!(
        u64::get_node(vec![PathElement::Index(0)]),
        Err(Error::InvalidPath(PathElement::Index(0)))
    );
}

#[test]
fn path_element_from_string() {
    assert_eq!(PathElement::from_element_str("42"), PathElement::Index(42));
    assert_eq!(PathElement::from_element_str("0"), PathElement::Index(0));
    assert_eq!(
        PathElement::from_element_str("18446744073709551615"),
        PathElement::Index(u64::MAX)
    );
    assert_eq!(
        PathElement::from_element_str("18446744073709551616"),
        PathElement::Ident("18446744073709551616".to_string())
    );
    assert_eq!(
        PathElement::from_element_str(""),
        PathElement::Ident("".to_string())
    );
    assert_eq!(
        PathElement::from_element_str("len"),
        PathElement::Ident("len".to_string())
    );
    assert_eq!(
        PathElement::from_element_str("4a"),
        PathElement::Ident("4a".to_string())
    );
}

#[test]
fn tree_indices() {
    assert_eq!(expand_tree_index(0), (1, 2, 0));
    assert_eq!(expand_tree_index(5), (5, 6, 2));
    assert_eq!(expand_tree_index(6), (5, 6, 2));
    assert_eq!(sibling_index(5), 6);
    assert_eq!(sibling_index(6), 5);
    assert_eq!(left_most_leaf(0, 3), 7);
    assert_eq!(left_most_leaf(2, 2), 11);
    assert_eq!(subtree_index_to_general(0, 5), 5);
    assert_eq!(subtree_index_to_general(2, 8), 24);
    assert_eq!(subtree_index_to_general(1, 0), 1);
    assert_eq!(next_power_of_two(0), 1);
    assert_eq!(next_power_of_two(1), 1);
    assert_eq!(next_power_of_two(5), 8);
    assert_eq!(next_power_of_two(8), 8);
    assert_eq!(log_base_two(1), 0);
    assert_eq!(log_base_two(8), 3);
}

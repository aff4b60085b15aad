use ethereum_types::U256;
use merkle_partial::containers::{
    ListStruct, MixedStruct, PackedStruct, SimpleStruct, State, VectorStruct,
};
use merkle_partial::{
    hash_children, Error, MerkleTreeOverlay, PathElement, Proof, SerializedProof,
};

fn zero_hash(depth: u8) -> Vec<u8> {
    if depth == 0 {
        vec![0; 32]
    } else if depth == 1 {
        hash_children(&[0; 32], &[0; 32])
    } else {
        let last = zero_hash(depth - 1);
        hash_children(&last, &last)
    }
}

#[test]
fn basic_partial() {
    let one = U256::from(1);
    let two = U256::from(2);

    let mut arr = [0_u8; 128];

    one.to_little_endian(&mut arr[0..32]);
    two.to_little_endian(&mut arr[32..64]);
    arr[64] = 3;
    arr[80] = 4;

    let partial = SerializedProof {
        indices: vec![3, 4, 5, 6],
        chunks: arr.to_vec(),
    };

    let mut p = Proof::<SimpleStruct>::default();

    assert_eq!(p.load(partial.clone()), Ok(()));

    assert_eq!(
        p.get_bytes(vec![PathElement::Ident("a".to_string())]),
        Ok(arr[0..32].to_vec())
    );

    assert_eq!(
        p.get_bytes(vec![PathElement::Ident("b".to_string())]),
        Ok(arr[32..64].to_vec())
    );

    assert_eq!(
        p.get_bytes(vec![PathElement::Ident("c".to_string())]),
        Ok(arr[64..80].to_vec())
    );

    assert_eq!(
        p.get_bytes(vec![PathElement::Ident("d".to_string())]),
        Ok(arr[80..96].to_vec())
    );

    assert_eq!(
        p.get_bytes(vec![PathElement::Ident("e".to_string())]),
        Err(Error::InvalidPath(PathElement::Ident("e".to_string())))
    );
}

#[test]
fn simple_struct_roundtrip_partial() {
    let mut arr = [0_u8; 96];

    let three = U256::from(1);
    let four = U256::from(2);
    four.to_little_endian(&mut arr[0..32]);
    three.to_little_endian(&mut arr[32..64]);

    let two: &[u8] = &hash_children(&arr[64..96], &arr[64..96]);
    arr[64..96].copy_from_slice(two);

    let sp = SerializedProof {
        indices: vec![4, 3, 2],
        chunks: arr.to_vec(),
    };

    let mut p = Proof::<SimpleStruct>::new(sp.clone());
    assert_eq!(p.fill(), Ok(()));
    assert_eq!(Ok(sp), p.extract(vec![PathElement::from_ident_str("a")]));
}

#[test]
fn nested_structure_roundtrip_partial() {
    let mut arr = [0_u8; 160];
    arr[15] = 0;
    arr[31] = 1;
    arr[47] = 2;
    arr[63] = 3;
    arr[127] = 3; // length

    let twelve: &[u8] = &hash_children(&arr[64..96], &arr[64..96]);

    arr[64..96].copy_from_slice(twelve);

    let sp = SerializedProof {
        indices: vec![23, 24, 12, 6, 1],
        chunks: arr.to_vec(),
    };

    let mut p = Proof::<MixedStruct>::default();

    assert_eq!(p.load(sp.clone()), Ok(()));
    assert_eq!(p.fill(), Ok(()));
    assert_eq!(
        p.extract(vec![
            PathElement::Ident("b".to_string()),
            PathElement::Index(2)
        ]),
        Ok(sp)
    );

    // Check for `Error::ChunkNotLoaded(_)`
    let generate_path = || vec![PathElement::Ident("b".to_string()), PathElement::Index(5)];

    assert_eq!(p.get_bytes(generate_path()), Err(Error::ChunkNotLoaded(25)));
    assert_eq!(
        p.set_bytes(generate_path(), vec![]),
        Err(Error::ChunkNotLoaded(25))
    );
}

#[test]
fn get_and_set_by_path() {
    let mut arr = [0_u8; 160];

    arr[31] = 1;
    arr[47] = 0;
    arr[63] = 1;
    arr[79] = 2;
    arr[95] = 3;
    arr[111] = 4;
    arr[127] = 5;
    arr[143] = 6;
    arr[159] = 7;

    let sp = SerializedProof {
        indices: vec![1, 23, 24, 25, 26],
        chunks: arr.to_vec(),
    };

    let mut p = Proof::<MixedStruct>::new(sp.clone());

    // Check MixedStruct.a
    assert_eq!(
        p.get_bytes(vec![PathElement::from_ident_str("a")]),
        Ok(arr[0..32].to_vec())
    );

    // Check MixedStruct.b[0..8] and set each to MixedStruct.b[7]
    for i in 0_usize..8_usize {
        assert_eq!(
            p.get_bytes(vec![
                PathElement::from_ident_str("b"),
                PathElement::Index(i as u64)
            ]),
            Ok(arr[(32 + i * 16)..(32 + ((i + 1) * 16))].to_vec())
        );

        assert_eq!(
            p.set_bytes(
                vec![
                    PathElement::from_ident_str("b"),
                    PathElement::Index(i as u64)
                ],
                arr[144..160].to_vec()
            ),
            Ok(()),
        );
    }

    // Verify that each index was set to MixedStruct.b[7]
    for i in 0_usize..8_usize {
        assert_eq!(
            p.get_bytes(vec![
                PathElement::from_ident_str("b"),
                PathElement::Index(i as u64)
            ]),
            Ok(arr[144..160].to_vec())
        );
    }

    // Check for `Error::EmptyPath()`
    assert_eq!(p.get_bytes(vec![]), Err(Error::EmptyPath()),);
    assert_eq!(p.set_bytes(vec![], vec![]), Err(Error::EmptyPath()));

    // Check for `Error::IndexOutOfBounds(_)`
    let generate_path = || vec![PathElement::from_ident_str("b"), PathElement::Index(8)];

    assert_eq!(
        p.get_bytes(generate_path()),
        Err(Error::IndexOutOfBounds(8))
    );
    assert_eq!(
        p.set_bytes(generate_path(), vec![]),
        Err(Error::IndexOutOfBounds(8))
    );

    // Check for `Error::InvalidPath(Path::Ident(_))`
    let generate_path = || vec![PathElement::from_ident_str("c")];

    assert_eq!(
        p.get_bytes(generate_path()),
        Err(Error::InvalidPath(generate_path()[0].clone()))
    );
    assert_eq!(
        p.set_bytes(generate_path(), vec![]),
        Err(Error::InvalidPath(generate_path()[0].clone()))
    );
}

#[test]
fn readme_test() {
    let one = vec![0u8; 32];
    let six = vec![0u8; 32];
    let twelve = hash_children(&[0u8; 32], &[0u8; 32]);
    let twenty_three = vec![1u8; 32];
    let twenty_four = vec![2u8; 32];

    let serialized_proof = SerializedProof {
        indices: vec![1, 6, 12, 23, 24],
        chunks: vec![one, six, twelve, twenty_three, twenty_four]
            .into_iter()
            .flatten()
            .collect(),
    };
    let mut proof = Proof::<MixedStruct>::new(serialized_proof.clone());

    assert_eq!(proof.fill(), Ok(()));
    assert_eq!(
        proof.extract(vec![
            PathElement::from_ident_str("b"),
            PathElement::Index(2)
        ]),
        Ok(serialized_proof)
    );
}

#[test]
fn get_partial_vector() {
    let mut chunk = [0_u8; 96];
    chunk[31] = 1;
    chunk[64..96].copy_from_slice(&hash_children(&[0; 32], &[0; 32]));

    let proof = SerializedProof {
        indices: vec![5, 6, 1],
        chunks: chunk.to_vec(),
    };

    let mut p = Proof::<VectorStruct>::new(proof.clone());
    assert_eq!(p.fill(), Ok(()));
    assert_eq!(
        Ok(proof),
        p.extract(vec![
            PathElement::from_ident_str("a"),
            PathElement::Index(2)
        ])
    );
}

#[test]
fn simple_variable_list_roundtrip_partial() {
    let mut chunk = [0_u8; 96];
    chunk[15] = 1;
    chunk[31] = 2;
    chunk[47] = 3;
    chunk[63] = 4;
    chunk[64..96].copy_from_slice(&hash_children(&[0; 32], &[0; 32]));

    let proof = SerializedProof {
        indices: vec![3, 4, 2],
        chunks: chunk.to_vec(),
    };

    let mut p = Proof::<ListStruct>::new(proof.clone());
    assert_eq!(p.fill(), Ok(()));

    assert_eq!(
        Ok(proof),
        p.extract(vec![
            PathElement::from_ident_str("a"),
            PathElement::Index(0)
        ])
    );
}

#[test]
fn practical_structure_roundtrip_partial() {
    let mut arr = vec![0; 224];

    // 31 `message[0].timestamp`
    arr[0] = 1;

    // 32 `message[0].message`
    arr[32..64].copy_from_slice(&vec![1_u8; 32]);

    // 33 `message[1].timestamp`
    arr[64] = 2;

    // 34 `message[1].message`
    arr[96..128].copy_from_slice(&vec![42_u8; 32]);

    // 8 `hash of message[2] and message[3]`
    arr[128..160].copy_from_slice(&zero_hash(2));

    // 4 `hash of message[4..7]`
    arr[160..192].copy_from_slice(&zero_hash(3));

    // 2 length mixin
    arr[223] = 2;

    let sp = SerializedProof {
        indices: vec![31, 32, 33, 34, 8, 4, 2],
        chunks: arr.clone(),
    };

    let mut proof = Proof::<State>::new(sp);
    assert_eq!(proof.fill(), Ok(()));

    // TESTING TIMESTAMPS
    assert_eq!(
        proof.get_bytes(vec![
            PathElement::from_ident_str("messages"),
            PathElement::Index(0),
            PathElement::from_ident_str("timestamp"),
        ]),
        Ok(vec![1, 0, 0, 0, 0, 0, 0, 0])
    );

    assert_eq!(
        proof.get_bytes(vec![
            PathElement::from_ident_str("messages"),
            PathElement::Index(1),
            PathElement::from_ident_str("timestamp"),
        ]),
        Ok(vec![2, 0, 0, 0, 0, 0, 0, 0])
    );

    // TESTING MESSAGES
    assert_eq!(
        proof.get_bytes(vec![
            PathElement::from_ident_str("messages"),
            PathElement::Index(0),
            PathElement::from_ident_str("message"),
            PathElement::Index(1),
        ]),
        Ok(vec![1])
    );

    assert_eq!(
        proof.get_bytes(vec![
            PathElement::from_ident_str("messages"),
            PathElement::Index(1),
            PathElement::from_ident_str("message"),
            PathElement::Index(31),
        ]),
        Ok(vec![42])
    );
}

#[test]
fn var_list() {
    let mut arr = vec![0; 224];
    arr[128..160].copy_from_slice(&zero_hash(2));
    arr[160..192].copy_from_slice(&zero_hash(3));

    arr[0] = 1;
    arr[32..64].copy_from_slice(&vec![1_u8; 32]);
    arr[64] = 2;
    arr[96..128].copy_from_slice(&vec![42_u8; 32]);
    arr[223] = 2; // len

    let sp = SerializedProof {
        indices: vec![31, 32, 33, 34, 8, 4, 2],
        chunks: arr,
    };

    let mut partial = Proof::<State>::default();

    assert_eq!(partial.load(sp), Ok(()));
    assert_eq!(partial.fill(), Ok(()));
    println!("{:?}", partial);
}

#[test]
fn set_and_refresh() {
    // build a valid tree over MixedStruct and remember its root
    let mut arr = [0_u8; 192];
    arr[0] = 11; // chunk 1 (field a)
    for i in 0..8 {
        arr[32 + i * 16] = i as u8; // chunks 23..=26 (list items)
    }
    arr[191] = 8; // chunk 6 (list length)
    let sp = SerializedProof {
        indices: vec![1, 23, 24, 25, 26, 6],
        chunks: arr.to_vec(),
    };
    let mut p = Proof::<MixedStruct>::new(sp);
    assert_eq!(p.fill(), Ok(()));
    let root = p.root().unwrap().clone();
    assert!(p.is_valid(root.clone()));

    // an unaffected leaf, before the write
    let untouched = p
        .get_bytes(vec![
            PathElement::from_ident_str("b"),
            PathElement::Index(7),
        ])
        .unwrap();

    // overwrite b[0]: the tree is stale until refreshed
    let new_bytes = vec![0xaa; 16];
    assert_eq!(
        p.set_bytes(
            vec![
                PathElement::from_ident_str("b"),
                PathElement::Index(0)
            ],
            new_bytes.clone()
        ),
        Ok(())
    );
    assert!(!p.is_valid(root.clone()));

    assert_eq!(p.refresh(), Ok(()));
    let new_root = p.root().unwrap().clone();
    assert!(p.is_valid(new_root.clone()));
    // the written bytes differ from the originals, so the root moved
    assert_ne!(root, new_root);
    // the written leaf reads back exactly, the untouched leaf is unchanged
    assert_eq!(
        p.get_bytes(vec![
            PathElement::from_ident_str("b"),
            PathElement::Index(0)
        ]),
        Ok(new_bytes.clone())
    );
    assert_eq!(
        p.get_bytes(vec![
            PathElement::from_ident_str("b"),
            PathElement::Index(7)
        ]),
        Ok(untouched)
    );

    // writing the same bytes back and refreshing restores the old root
    let mut q = p;
    assert_eq!(
        q.set_bytes(
            vec![
                PathElement::from_ident_str("b"),
                PathElement::Index(0)
            ],
            new_bytes
        ),
        Ok(())
    );
    assert_eq!(q.refresh(), Ok(()));
    assert_eq!(q.root().unwrap(), &new_root);
}

#[test]
fn malformed_proof_errors() {
    let mut p = Proof::<MixedStruct>::default();
    // a chunk buffer that is not 32 bytes per index is rejected
    let bad = SerializedProof {
        indices: vec![1, 2],
        chunks: vec![0; 33],
    };
    assert_eq!(p.load(bad), Err(Error::MalformedProof));

    // a write whose bytes do not match the addressed width is rejected
    let good = SerializedProof {
        indices: vec![23],
        chunks: vec![0; 32],
    };
    assert_eq!(p.load(good), Ok(()));
    assert_eq!(
        p.set_bytes(
            vec![
                PathElement::from_ident_str("b"),
                PathElement::Index(0)
            ],
            vec![1, 2, 3]
        ),
        Err(Error::MalformedProof)
    );
}

#[test]
fn load_duplicate_index_overwrites() {
    let mut p = Proof::<MixedStruct>::default();
    let mut chunks = vec![0u8; 64];
    chunks[0] = 1;
    chunks[32] = 2;
    let sp = SerializedProof {
        indices: vec![1, 1],
        chunks,
    };
    assert_eq!(p.load(sp), Ok(()));
    let mut expected = vec![0u8; 32];
    expected[0] = 2;
    assert_eq!(
        p.get_bytes(vec![PathElement::from_ident_str("a")]),
        Ok(expected)
    );
}

#[test]
fn extract_missing_sibling() {
    // a proof that omits the sibling of the requested leaf cannot be
    // extracted; the missing chunk is named
    let mut arr = [0_u8; 160];
    arr[127] = 3;
    let sp = SerializedProof {
        indices: vec![23, 24, 12, 6, 1],
        chunks: arr.to_vec(),
    };
    let mut p = Proof::<MixedStruct>::default();
    assert_eq!(p.load(sp), Ok(()));
    assert_eq!(p.fill(), Ok(()));
    assert_eq!(
        p.extract(vec![
            PathElement::from_ident_str("b"),
            PathElement::Index(5)
        ]),
        Err(Error::ChunkNotLoaded(25))
    );
    assert_eq!(p.extract(vec![]), Err(Error::EmptyPath()));
    assert_eq!(
        p.extract(vec![PathElement::from_ident_str("nope")]),
        Err(Error::InvalidPath(PathElement::from_ident_str("nope")))
    );
}

#[test]
fn extract_single_chunk() {
    // a type that lives in one chunk proves itself: the walk stops at the
    // root immediately
    let sp = SerializedProof {
        indices: vec![0],
        chunks: vec![7; 32],
    };
    let mut p = Proof::<PackedStruct>::default();
    assert_eq!(p.load(sp.clone()), Ok(()));
    assert_eq!(
        p.extract(vec![PathElement::from_ident_str("a")]),
        Ok(sp)
    );
}

#[test]
fn packing_offsets() {
    // SimpleStruct packs `c` and `d` into the two halves of chunk 5
    let c = SimpleStruct::get_node(vec![PathElement::from_ident_str("c")]).unwrap();
    let d = SimpleStruct::get_node(vec![PathElement::from_ident_str("d")]).unwrap();
    assert_eq!((c.index, c.offset, c.size), (5, 0, 16));
    assert_eq!((d.index, d.offset, d.size), (5, 16, 16));

    // PackedStruct packs its three fields into chunk 0 back to back
    let a = PackedStruct::get_node(vec![PathElement::from_ident_str("a")]).unwrap();
    let b = PackedStruct::get_node(vec![PathElement::from_ident_str("b")]).unwrap();
    let cc = PackedStruct::get_node(vec![PathElement::from_ident_str("c")]).unwrap();
    assert_eq!((a.index, a.offset, a.size), (0, 0, 1));
    assert_eq!((b.index, b.offset, b.size), (0, 1, 2));
    assert_eq!((cc.index, cc.offset, cc.size), (0, 3, 4));
}

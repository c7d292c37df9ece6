use true_canvas_core::{
    build_merkle_tree_from_pixels, deserialize_merkle_tree, process_canvas_changes,
    serialize_merkle_tree, CanvasError, Command, Elem, MerkleTree, Pixel, PoseidonCompressor,
    TestCompressor,
};

const M: u64 = 0x8000_0000;

fn h(a: u64, b: u64) -> u64 {
    2 * (a % M) + 3 * (b % M) + 5
}

fn elem(v: u64) -> Elem {
    Elem { l0: v, l1: 0, l2: 0, l3: 0 }
}

fn built(leaves: &[u32]) -> MerkleTree<TestCompressor> {
    let mut t = MerkleTree::new(TestCompressor);
    let data: Vec<Elem> = leaves.iter().map(|&v| Elem::embed(v)).collect();
    t.build_tree(data).unwrap();
    t
}

#[test]
fn build_level_count_and_leaves() {
    let t = built(&[1, 2, 3, 4]);
    assert_eq!(t.levels.len(), 3);
    assert_eq!(
        t.levels[0],
        vec![Elem::embed(1), Elem::embed(2), Elem::embed(3), Elem::embed(4)]
    );
    assert_eq!(built(&[7]).levels.len(), 1);
    assert_eq!(built(&[1, 2, 3, 4, 5]).levels.len(), 4);
}

#[test]
fn odd_level_duplicates_last() {
    let t = built(&[10, 20, 30]);
    assert_eq!(t.levels.len(), 3);
    assert_eq!(t.levels[1], vec![elem(h(10, 20)), elem(h(30, 30))]);
    assert_eq!(t.levels[2], vec![elem(h(h(10, 20), h(30, 30)))]);
}

#[test]
fn empty_input_is_rejected() {
    let mut t = MerkleTree::new(TestCompressor);
    assert_eq!(t.build_tree(Vec::new()), Err(CanvasError::EmptyInputError));
    assert!(t.levels.is_empty());
}

#[test]
fn unbuilt_tree_operations_fail() {
    let t: MerkleTree<TestCompressor> = MerkleTree::new(TestCompressor);
    assert_eq!(t.root(), Err(CanvasError::EmptyTreeError));
    assert_eq!(t.generate_proof(0), Err(CanvasError::EmptyTreeError));
    let mut t = MerkleTree::new(TestCompressor);
    assert_eq!(
        t.update_leaf(0, Elem::embed(1)),
        Err(CanvasError::EmptyTreeError)
    );
}

#[test]
fn update_out_of_bounds_leaves_tree_unchanged() {
    let mut t = built(&[1, 2, 3, 4]);
    let before = t.levels.clone();
    assert_eq!(
        t.update_leaf(4, Elem::embed(9)),
        Err(CanvasError::IndexOutOfBoundsError)
    );
    assert_eq!(t.levels, before);
}

#[test]
fn update_recomputes_only_the_path() {
    let mut t = built(&[1, 2, 3, 4]);
    let before = t.levels.clone();
    t.update_leaf(0, Elem::embed(8)).unwrap();
    assert_eq!(t.levels[0][0], Elem::embed(8));
    assert_eq!(t.levels[0][1], before[0][1]);
    assert_eq!(t.levels[0][2], before[0][2]);
    assert_eq!(t.levels[0][3], before[0][3]);
    assert_eq!(t.levels[1][1], before[1][1]);
    assert_ne!(t.levels[1][0], before[1][0]);
    assert_ne!(t.levels[2][0], before[2][0]);
    assert_eq!(t.levels[1][0], elem(h(8, 2)));
    assert_eq!(t.levels[2][0], elem(h(h(8, 2), h(3, 4))));
}

#[test]
fn update_uses_duplicate_rule_like_build() {
    let mut t = built(&[10, 20, 30]);
    t.update_leaf(2, Elem::embed(40)).unwrap();
    let rebuilt = built(&[10, 20, 40]);
    assert_eq!(t.levels, rebuilt.levels);
}

#[test]
fn proof_verifies_for_every_index() {
    let t = built(&[5, 6, 7, 8, 9]);
    let root = t.root().unwrap();
    for i in 0..5 {
        let proof = t.generate_proof(i).unwrap();
        assert!(MerkleTree::verify_proof(
            &TestCompressor,
            &root,
            &t.levels[0][i],
            &proof,
            i
        ));
    }
    assert_eq!(t.generate_proof(5), Err(CanvasError::IndexOutOfBoundsError));
}

#[test]
fn tampered_proof_or_leaf_fails() {
    let t = built(&[5, 6, 7, 8]);
    let root = t.root().unwrap();
    let proof = t.generate_proof(1).unwrap();
    assert!(MerkleTree::verify_proof(
        &TestCompressor,
        &root,
        &t.levels[0][1],
        &proof,
        1
    ));
    for k in 0..proof.len() {
        let mut bad = proof.clone();
        bad[k].l0 = bad[k].l0.wrapping_add(1);
        assert!(!MerkleTree::verify_proof(
            &TestCompressor,
            &root,
            &t.levels[0][1],
            &bad,
            1
        ));
    }
    assert!(!MerkleTree::verify_proof(
        &TestCompressor,
        &root,
        &Elem::embed(99),
        &proof,
        1
    ));
}

#[test]
fn add_leaf_matches_full_build() {
    let mut t = built(&[1, 2]);
    t.add_leaf(Elem::embed(3));
    assert_eq!(t.levels, built(&[1, 2, 3]).levels);
    let mut u: MerkleTree<TestCompressor> = MerkleTree::new(TestCompressor);
    u.add_leaf(Elem::embed(7));
    assert_eq!(u.levels, vec![vec![Elem::embed(7)]]);
}

#[test]
fn grid_flattens_row_major() {
    let t = build_merkle_tree_from_pixels(
        TestCompressor,
        vec![vec![1, 2], vec![3, 4]],
    )
    .unwrap();
    assert_eq!(
        t.levels[0],
        vec![Elem::embed(1), Elem::embed(2), Elem::embed(3), Elem::embed(4)]
    );
    assert_eq!(
        build_merkle_tree_from_pixels(TestCompressor, Vec::new()).err(),
        Some(CanvasError::EmptyInputError)
    );
}

#[test]
fn last_write_wins_within_one_pass() {
    let mut t = built(&[1, 2, 3, 4]);
    let commands = vec![Command {
        action_type: String::from("draw"),
        pixels: vec![
            Pixel { x: 1, y: 0, value: 50 },
            Pixel { x: 1, y: 0, value: 60 },
        ],
    }];
    process_canvas_changes(2, &mut t, commands).unwrap();
    assert_eq!(t.levels[0][1], Elem::embed(60));
    assert_eq!(t.levels, built(&[1, 60, 3, 4]).levels);
}

#[test]
fn out_of_grid_update_reports_and_keeps_earlier_updates() {
    let mut t = built(&[1, 2, 3, 4]);
    let commands = vec![Command {
        action_type: String::from("draw"),
        pixels: vec![
            Pixel { x: 0, y: 0, value: 9 },
            Pixel { x: 0, y: 2, value: 7 },
        ],
    }];
    assert_eq!(
        process_canvas_changes(2, &mut t, commands),
        Err(CanvasError::IndexOutOfBoundsError)
    );
    assert_eq!(t.levels[0][0], Elem::embed(9));
    assert_eq!(t.levels[0][2], Elem::embed(3));
}

#[test]
fn end_to_end_scenario() {
    let mut t = build_merkle_tree_from_pixels(
        TestCompressor,
        vec![vec![1, 2], vec![3, 4]],
    )
    .unwrap();
    let old_root = t.root().unwrap();

    let encoded = serialize_merkle_tree(t);
    let mut t = deserialize_merkle_tree(TestCompressor, &encoded).unwrap();

    let diff = vec![Command {
        action_type: String::from("draw"),
        pixels: vec![Pixel { x: 0, y: 1, value: 9 }],
    }];
    process_canvas_changes(2, &mut t, diff).unwrap();

    assert_eq!(t.levels[0][2], Elem::embed(9));
    assert_eq!(t.levels[0][0], Elem::embed(1));
    assert_eq!(t.levels[0][1], Elem::embed(2));
    assert_eq!(t.levels[0][3], Elem::embed(4));
    let new_root = t.root().unwrap();
    assert_ne!(new_root, old_root);

    let proof = t.generate_proof(2).unwrap();
    assert!(MerkleTree::verify_proof(
        &TestCompressor,
        &new_root,
        &Elem::embed(9),
        &proof,
        2
    ));
    assert!(!MerkleTree::verify_proof(
        &TestCompressor,
        &new_root,
        &Elem::embed(3),
        &proof,
        2
    ));
}

#[test]
fn poseidon_compressor_builds_and_updates() {
    let mut t = MerkleTree::new(PoseidonCompressor);
    t.build_tree(vec![Elem::embed(1), Elem::embed(2)]).unwrap();
    let root = t.root().unwrap();
    assert_ne!(root, Elem::embed(1));
    assert_ne!(root, Elem::embed(2));

    let mut u = MerkleTree::new(PoseidonCompressor);
    u.build_tree(vec![Elem::embed(1), Elem::embed(2)]).unwrap();
    assert_eq!(u.root().unwrap(), root);

    t.update_leaf(0, Elem::embed(3)).unwrap();
    assert_ne!(t.root().unwrap(), root);

    let proof = t.generate_proof(0).unwrap();
    let new_root = t.root().unwrap();
    assert!(MerkleTree::verify_proof(
        &PoseidonCompressor,
        &new_root,
        &Elem::embed(3),
        &proof,
        0
    ));
    assert!(!MerkleTree::verify_proof(
        &PoseidonCompressor,
        &new_root,
        &Elem::embed(1),
        &proof,
        0
    ));
}

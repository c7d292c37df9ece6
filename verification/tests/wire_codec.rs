use ark_ed_on_bls12_381::Fq;
use ark_serialize::CanonicalSerialize;
use true_canvas_core::elem::{
    MODULUS_LIMB_0, MODULUS_LIMB_1, MODULUS_LIMB_2, MODULUS_LIMB_3,
};
use true_canvas_core::{
    deserialize_merkle_tree, serialize_merkle_tree, CanvasError, Elem, MerkleTree,
    TestCompressor,
};

fn built(leaves: &[u32]) -> MerkleTree<TestCompressor> {
    let mut t = MerkleTree::new(TestCompressor);
    let data: Vec<Elem> = leaves.iter().map(|&v| Elem::embed(v)).collect();
    t.build_tree(data).unwrap();
    t
}

#[test]
fn round_trip_preserves_levels() {
    let t = built(&[1, 2, 3, 4, 5]);
    let levels = t.levels.clone();
    let encoded = serialize_merkle_tree(t);
    let decoded = deserialize_merkle_tree(TestCompressor, &encoded).unwrap();
    assert_eq!(decoded.levels, levels);
}

#[test]
fn empty_payload_decodes_to_unbuilt_tree() {
    let decoded = deserialize_merkle_tree(TestCompressor, &Vec::new()).unwrap();
    assert!(decoded.levels.is_empty());
}

#[test]
fn element_encoding_matches_field_serialization() {
    let t = built(&[5]);
    let encoded = serialize_merkle_tree(t);
    let mut expected: Vec<u8> = Vec::new();
    Fq::from(5u64).serialize(&mut expected).unwrap();
    assert_eq!(encoded[0][0], expected);
}

#[test]
fn wrong_byte_length_is_a_decode_error() {
    let t = built(&[1, 2]);
    let mut encoded = serialize_merkle_tree(t);
    encoded[0][1].pop();
    assert_eq!(
        deserialize_merkle_tree(TestCompressor, &encoded).err(),
        Some(CanvasError::DecodeError)
    );
}

#[test]
fn out_of_range_element_is_a_decode_error() {
    let t = built(&[1]);
    let mut encoded = serialize_merkle_tree(t);
    let mut modulus_bytes: Vec<u8> = Vec::new();
    for limb in [MODULUS_LIMB_0, MODULUS_LIMB_1, MODULUS_LIMB_2, MODULUS_LIMB_3] {
        modulus_bytes.extend_from_slice(&limb.to_le_bytes());
    }
    encoded[0][0] = modulus_bytes;
    assert_eq!(
        deserialize_merkle_tree(TestCompressor, &encoded).err(),
        Some(CanvasError::DecodeError)
    );
}

#[test]
fn broken_level_shape_is_a_decode_error() {
    let t = built(&[1, 2, 3, 4]);
    let mut encoded = serialize_merkle_tree(t);
    encoded[1].pop();
    assert_eq!(
        deserialize_merkle_tree(TestCompressor, &encoded).err(),
        Some(CanvasError::DecodeError)
    );

    let u = built(&[1, 2]);
    let mut enc2 = serialize_merkle_tree(u);
    enc2.pop();
    assert_eq!(
        deserialize_merkle_tree(TestCompressor, &enc2).err(),
        Some(CanvasError::DecodeError)
    );
}

use oof::hash::{hash, zero_hash, ZeroHashes};

const ZERO_1: [u8; 32] = [
    0xf5, 0xa5, 0xfd, 0x42, 0xd1, 0x6a, 0x20, 0x30, 0x27, 0x98, 0xef, 0x6e, 0xd3, 0x09, 0x97,
    0x9b, 0x43, 0x00, 0x3d, 0x23, 0x20, 0xd9, 0xf0, 0xe8, 0xea, 0x98, 0x31, 0xa9, 0x27, 0x59,
    0xfb, 0x4b,
];

const ZERO_2: [u8; 32] = [
    0xdb, 0x56, 0x11, 0x4e, 0x00, 0xfd, 0xd4, 0xc1, 0xf8, 0x5c, 0x89, 0x2b, 0xf3, 0x5a, 0xc9,
    0xa8, 0x92, 0x89, 0xaa, 0xec, 0xb1, 0xeb, 0xd0, 0xa9, 0x6c, 0xde, 0x60, 0x6a, 0x74, 0x8b,
    0x5d, 0x71,
];

const ZERO_3: [u8; 32] = [
    0xc7, 0x80, 0x09, 0xfd, 0xf0, 0x7f, 0xc5, 0x6a, 0x11, 0xf1, 0x22, 0x37, 0x06, 0x58, 0xa3,
    0x53, 0xaa, 0xa5, 0x42, 0xed, 0x63, 0xe4, 0x4c, 0x4b, 0xc1, 0x5f, 0xf4, 0xcd, 0x10, 0x5a,
    0xb3, 0x3c,
];

fn build_value(n: u8) -> [u8; 32] {
    let mut tmp = [0u8; 32];
    tmp[0] = n;
    tmp
}

#[test]
fn hash_of_two_zero_values() {
    assert_eq!(hash(&[0u8; 32], &[0u8; 32]), ZERO_1);
}

#[test]
fn hash_of_one_and_two() {
    let expected: [u8; 32] = [
        255, 85, 201, 121, 118, 168, 64, 180, 206, 217, 100, 237, 73, 227, 121, 69, 148, 186, 63,
        103, 82, 56, 181, 253, 37, 210, 130, 182, 15, 112, 161, 148,
    ];
    assert_eq!(hash(&build_value(1), &build_value(2)), expected);
}

#[test]
fn hash_depends_on_the_order() {
    assert_ne!(
        hash(&build_value(1), &build_value(2)),
        hash(&build_value(2), &build_value(1))
    );
}

#[test]
fn zero_hash_of_depth_zero_is_the_leaf() {
    assert_eq!(zero_hash(&build_value(7), 0), build_value(7));
}

#[test]
fn zero_hash_by_depth() {
    let leaf = [0u8; 32];
    assert_eq!(zero_hash(&leaf, 1), ZERO_1);
    assert_eq!(zero_hash(&leaf, 2), ZERO_2);
    assert_eq!(zero_hash(&leaf, 3), ZERO_3);
}

#[test]
fn zero_hash_is_the_compression_of_the_one_below() {
    let leaf = build_value(3);
    let mut expected = leaf;
    for depth in 0..10u128 {
        assert_eq!(zero_hash(&leaf, depth), expected);
        expected = hash(&expected, &expected);
    }
}

#[test]
fn zero_hashes_in_any_order() {
    let mut hashes = ZeroHashes::new(&[0u8; 32]);
    assert_eq!(hashes.at(3), ZERO_3);
    assert_eq!(hashes.at(1), ZERO_1);
    assert_eq!(hashes.at(0), [0u8; 32]);
    assert_eq!(hashes.at(2), ZERO_2);
    assert_eq!(hashes.at(127), zero_hash(&[0u8; 32], 127));
}

use sha2::Digest;
use smt::tree_hasher::digest;
use smt::tree_hasher::digest_leaf;
use smt::tree_hasher::parse_leaf;
use smt::tree_hasher::parse_node;
use smt::tree_hasher::path_of;
use smt::tree_hasher::placeholder;

#[test]
fn test_sha2() {
    let mut hasher = sha2::Sha256::new();
    hasher.update(vec![0; 0]);
    let hash = hasher.finalize_reset();
    println!("{:?}", hash);
    println!("{}", <sha2::Sha256 as Digest>::output_size());
}

// The digest helper computes real SHA-256: the well-known test vector for
// "abc".
#[test]
fn test_digest_known_vector() {
    let expected: Vec<u8> = vec![
        0xba, 0x78, 0x16, 0xbf, 0x8f, 0x01, 0xcf, 0xea, 0x41, 0x41, 0x40, 0xde, 0x5d, 0xae, 0x22,
        0x23, 0xb0, 0x03, 0x61, 0xa3, 0x96, 0x17, 0x7a, 0x9c, 0xb4, 0x10, 0xff, 0x61, 0xf2, 0x00,
        0x15, 0xad,
    ];
    assert_eq!(digest(b"abc"), expected);
    assert_eq!(path_of(b"abc"), expected);
}

// Leaf serialization round-trips through the parser, and the node parser
// splits an internal node into its child hashes.
#[test]
fn test_parse_round_trip() {
    let path = path_of(b"someKey");
    let value_hash = digest(b"someValue");
    let (leaf_hash, leaf_data) = digest_leaf(&path, &value_hash);
    assert_eq!(leaf_data.len(), 65);
    assert_eq!(leaf_data[0], 0);
    assert_eq!(leaf_hash, digest(&leaf_data));
    let (parsed_path, parsed_vh) = parse_leaf(&leaf_data);
    assert_eq!(parsed_path, path);
    assert_eq!(parsed_vh, value_hash);

    let left = digest(b"left");
    let right = digest(b"right");
    let (node_hash, node_data) = smt::tree_hasher::digest_node(&left, &right);
    assert_eq!(node_data.len(), 65);
    assert_eq!(node_data[0], 1);
    assert_eq!(node_hash, digest(&node_data));
    let (l, r) = parse_node(&Some(node_data));
    assert_eq!(l, left);
    assert_eq!(r, right);
}

// The placeholder is thirty-two zero bytes.
#[test]
fn test_placeholder() {
    assert_eq!(placeholder(), vec![0u8; 32]);
}

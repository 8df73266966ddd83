//! Tests for root digest computation.

use lazytower_rs::{Digest, LazyTower};

/// The bytes of a test item
fn item(text: &str) -> Vec<u8> {
    text.as_bytes().to_vec()
}

/// Mock digest
#[derive(Clone, Debug, PartialEq, Eq)]
struct MockDigest;

impl Digest for MockDigest {
    fn digest_item(item: &[u8]) -> Vec<u8> {
        format!("H({})", String::from_utf8_lossy(item)).into_bytes()
    }

    fn digest_items(items: &[Vec<u8>]) -> Vec<u8> {
        let items_str: Vec<String> =
            items.iter().map(|item| String::from_utf8_lossy(item).to_string()).collect();
        format!("H[{}]", items_str.join(",")).into_bytes()
    }
}

#[test]
fn root_digest_tests_test_root_digest_empty_tower() {
    let tower: LazyTower<MockDigest> = LazyTower::new(4).unwrap();
    assert_eq!(tower.root_digest(), None);
}

#[test]
fn root_digest_tests_test_root_digest_single_item() {
    let mut tower: LazyTower<MockDigest> = LazyTower::new(4).unwrap();
    tower.append(item("A"));

    let root = tower.root_digest().expect("Should have root");
    assert_eq!(String::from_utf8_lossy(&root), "H(A)");
}

#[test]
fn root_digest_tests_test_root_digest_multiple_items_no_overflow() {
    let mut tower: LazyTower<MockDigest> = LazyTower::new(4).unwrap();
    tower.append(item("A"));
    tower.append(item("B"));
    tower.append(item("C"));

    let root = tower.root_digest().expect("Should have root");
    assert_eq!(String::from_utf8_lossy(&root), "H[A,B,C]");
}

#[test]
fn root_digest_tests_test_root_digest_with_overflow() {
    let mut tower: LazyTower<MockDigest> = LazyTower::new(2).unwrap();

    // Add 4 items to create overflows
    tower.append(item("A"));
    tower.append(item("B"));
    tower.append(item("C"));
    tower.append(item("D"));

    // Structure: Level 2 has H[H[A,B],H[C,D]]
    let root = tower.root_digest().expect("Should have root");
    assert_eq!(String::from_utf8_lossy(&root), "H[H[A,B],H[C,D]]");
}

#[test]
fn root_digest_tests_test_root_digest_complex_structure() {
    let mut tower: LazyTower<MockDigest> = LazyTower::new(3).unwrap();

    // Add 7 items
    for i in 0..7 {
        tower.append(item(&i.to_string()));
    }

    // Structure:
    // Level 0: [6]
    // Level 1: [H[0,1,2], H[3,4,5]]
    let root = tower.root_digest().expect("Should have root");
    // The root should be the combination of level 1 nodes
    assert_eq!(String::from_utf8_lossy(&root), "H[H[0,1,2],H[3,4,5]]");
}

#[test]
fn root_digest_tests_test_root_digest_deep_tower() {
    let mut tower: LazyTower<MockDigest> = LazyTower::new(2).unwrap();

    // Add 8 items to create a deep structure
    for i in 0..8 {
        tower.append(item(&i.to_string()));
    }

    // This creates multiple levels of overflows
    let root = tower.root_digest().expect("Should have root");

    assert!(!root.is_empty());
    assert!(root.starts_with(b"H"));
}

//! Tests for the append operation.

use lazytower_rs::{Digest, LazyTower, TowerNode};

/// Test item that can be converted to bytes
#[derive(Clone, Debug, PartialEq, Eq)]
struct TestItem(Vec<u8>);

impl AsRef<[u8]> for TestItem {
    fn as_ref(&self) -> &[u8] {
        &self.0
    }
}

/// The bytes that go into the tower for a test item
fn raw(item: TestItem) -> Vec<u8> {
    item.as_ref().to_vec()
}

/// Mock digest for testing that tracks operations
#[derive(Clone, Debug, PartialEq, Eq)]
struct TestDigest;

impl Digest for TestDigest {
    fn digest_item(item: &[u8]) -> Vec<u8> {
        format!("D({})", String::from_utf8_lossy(item)).into_bytes()
    }

    fn digest_items(items: &[Vec<u8>]) -> Vec<u8> {
        let items_str: Vec<String> =
            items.iter().map(|item| String::from_utf8_lossy(item).to_string()).collect();
        format!("D[{}]", items_str.join(",")).into_bytes()
    }
}

#[test]
fn test_append_single_item() {
    let mut tower: LazyTower<TestDigest> = LazyTower::new(4).unwrap();

    tower.append(raw(TestItem(b"item1".to_vec())));

    assert_eq!(tower.len(), 1);
    assert_eq!(tower.height(), 1);
    assert_eq!(tower.level(0).unwrap().len(), 1);
    assert_eq!(tower.level(0).unwrap()[0], TowerNode::Item(raw(TestItem(b"item1".to_vec()))));
}

#[test]
fn test_append_multiple_items_no_overflow() {
    let mut tower: LazyTower<TestDigest> = LazyTower::new(4).unwrap();

    tower.append(raw(TestItem(b"item1".to_vec())));
    tower.append(raw(TestItem(b"item2".to_vec())));
    tower.append(raw(TestItem(b"item3".to_vec())));

    assert_eq!(tower.len(), 3);
    assert_eq!(tower.height(), 1);
    assert_eq!(tower.level(0).unwrap().len(), 3);
}

#[test]
fn test_append_with_overflow_width_2() {
    let mut tower: LazyTower<TestDigest> = LazyTower::new(2).unwrap();

    // Add two items - should trigger overflow
    tower.append(raw(TestItem(b"item1".to_vec())));
    tower.append(raw(TestItem(b"item2".to_vec())));

    // After overflow, level 0 is empty and level 1 has the digest
    assert_eq!(tower.level(0).unwrap().len(), 0);
    assert_eq!(tower.height(), 2);
}

#[test]
fn test_append_with_overflow_width_3() {
    let mut tower: LazyTower<TestDigest> = LazyTower::new(3).unwrap();

    // Add three items - should trigger overflow
    tower.append(raw(TestItem(b"a".to_vec())));
    tower.append(raw(TestItem(b"b".to_vec())));
    tower.append(raw(TestItem(b"c".to_vec())));

    // Add more items
    tower.append(raw(TestItem(b"d".to_vec())));
    tower.append(raw(TestItem(b"e".to_vec())));

    // Level 0 should have 2 items
    assert_eq!(tower.level(0).unwrap().len(), 2);
}

#[test]
fn test_append_with_multiple_overflows() {
    let mut tower: LazyTower<TestDigest> = LazyTower::new(2).unwrap();

    // Add 8 items to trigger multiple overflows
    for i in 0..8 {
        tower.append(raw(TestItem(format!("item{}", i).into_bytes())));
    }

    // With width 2:
    // - Items 0,1 overflow to level 1
    // - Items 2,3 overflow to level 1
    // - Level 1 overflows to level 2
    // - Items 4,5 overflow to level 1
    // - Items 6,7 overflow to level 1
    // - Level 1 overflows to level 2
    // - Level 2 overflows to level 3
    assert!(tower.height() >= 1);
    assert_eq!(tower.len(), 8);
}

#[test]
fn test_different_tower_widths() {
    let widths = vec![2, 3, 4, 5, 8, 16];

    for width in widths {
        let mut tower: LazyTower<TestDigest> = LazyTower::new(width).unwrap();

        // Add items up to width - 1 (no overflow)
        for i in 0..width - 1 {
            tower.append(raw(TestItem(format!("item{}", i).into_bytes())));
        }

        assert_eq!(tower.level(0).unwrap().len(), width - 1);
        assert_eq!(tower.height(), 1);

        // Add one more item to trigger overflow
        tower.append(raw(TestItem(b"overflow".to_vec())));

        assert_eq!(tower.level(0).unwrap().len(), 0);
    }
}

#[test]
fn test_empty_tower_operations() {
    let tower: LazyTower<TestDigest> = LazyTower::new(4).unwrap();

    assert!(tower.is_empty());
    assert_eq!(tower.len(), 0);
    assert_eq!(tower.height(), 1);
    assert_eq!(tower.level(0).unwrap().len(), 0);
}

#[test]
fn test_large_scale_append() {
    let mut tower: LazyTower<TestDigest> = LazyTower::new(4).unwrap();

    // Add 1000 items
    for i in 0..1000 {
        tower.append(raw(TestItem(format!("item{}", i).into_bytes())));
    }

    assert_eq!(tower.len(), 1000);
    assert!(tower.height() > 1); // Should have multiple levels
}

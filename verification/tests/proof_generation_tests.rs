//! Tests for proof generation.

use lazytower_rs::{Digest, LazyTower, PathElement};

/// The bytes of a test item
fn item(text: &str) -> Vec<u8> {
    text.as_bytes().to_vec()
}

/// Mock digest for testing
#[derive(Clone, Debug, PartialEq, Eq)]
struct MockDigest;

impl MockDigest {
    fn combine(left: &[u8], right: &[u8]) -> Vec<u8> {
        format!("H({},{})", String::from_utf8_lossy(left), String::from_utf8_lossy(right))
            .into_bytes()
    }
}

impl Digest for MockDigest {
    fn digest_item(item: &[u8]) -> Vec<u8> {
        format!("H({})", String::from_utf8_lossy(item)).into_bytes()
    }

    fn digest_items(items: &[Vec<u8>]) -> Vec<u8> {
        let items_str: Vec<String> =
            items.iter().map(|item| String::from_utf8_lossy(item).to_string()).collect();
        format!("H[{}]", items_str.join(",")).into_bytes()
    }
}

#[test]
fn test_simple_proof_generation() {
    let mut tower: LazyTower<MockDigest> = LazyTower::new(2).unwrap();

    // Add two items
    tower.append(item("A"));
    tower.append(item("B"));

    println!("Tower height: {}", tower.height());
    println!("Level 0 len: {}", tower.level(0).unwrap().len());
    if tower.height() > 1 {
        println!("Level 1 len: {}", tower.level(1).unwrap().len());
    }

    // Generate proof for item A (index 0)
    match tower.generate_proof(0) {
        Ok(proof) => {
            println!("Generated proof for item: {}", String::from_utf8_lossy(&proof.item));
            println!("Proof path length: {}", proof.path.elements.len());

            for (i, elem) in proof.path.elements.iter().enumerate() {
                match elem {
                    PathElement::Siblings { position, siblings } => {
                        println!("Path[{}]: Position {} with siblings {:?}", i, position, siblings);
                    }
                    PathElement::RawSiblings { position, siblings } => {
                        println!(
                            "Path[{}]: Position {} with raw siblings {:?}",
                            i, position, siblings
                        );
                    }
                }
            }

            println!("Root digest: {:?}", proof.root);

            let current_root = tower.root_digest().unwrap();
            println!("Tower root: {:?}", current_root);

            println!("\nManual verification:");
            let item_a_digest = MockDigest::digest_item(&item("A"));
            println!("H(A) = {:?}", item_a_digest);

            let item_b_digest = MockDigest::digest_item(&item("B"));
            println!("H(B) = {:?}", item_b_digest);

            let combined = MockDigest::combine(&item_a_digest, &item_b_digest);
            println!("H(H(A), H(B)) = {:?}", combined);

            let items_together = MockDigest::digest_items(&[item("A"), item("B")]);
            println!("H[A,B] = {:?}", items_together);

            // Verify the proof
            let is_valid = proof.verify();
            println!("\nProof is valid: {}", is_valid);

            assert!(!proof.path.elements.is_empty());
            assert_eq!(String::from_utf8_lossy(&proof.item), "A");
        }
        Err(e) => {
            panic!("Failed to generate proof: {:?}", e);
        }
    }
}

#[test]
fn test_proof_after_overflow() {
    let mut tower: LazyTower<MockDigest> = LazyTower::new(2).unwrap();

    // Add 4 items to trigger overflows
    tower.append(item("A"));
    tower.append(item("B"));
    tower.append(item("C"));
    tower.append(item("D"));

    // Tower structure after 4 items:
    // Level 0: empty
    // Level 1: empty
    // Level 2: H[H[A,B],H[C,D]]

    // Generate proof for item A (index 0)
    let proof = tower.generate_proof(0).unwrap();

    // The proof should be valid
    assert!(proof.verify());
    assert_eq!(String::from_utf8_lossy(&proof.item), "A");

    // The proof path should contain:
    // 1. B as right sibling (from its own group)
    // 2. H[C,D] as right sibling (from level 1)
    assert_eq!(proof.path.elements.len(), 2);
}

#[test]
fn test_proof_for_all_items() {
    let mut tower: LazyTower<MockDigest> = LazyTower::new(2).unwrap();

    let items = vec!["A", "B", "C", "D"];
    for text in &items {
        tower.append(item(text));
    }

    // Generate and verify proofs for all items
    for (i, text) in items.iter().enumerate() {
        let proof = tower.generate_proof(i).unwrap();
        assert!(proof.verify());
        assert_eq!(String::from_utf8_lossy(&proof.item), *text);
    }
}

#[test]
fn test_proof_with_partial_level() {
    let mut tower: LazyTower<MockDigest> = LazyTower::new(3).unwrap();

    // Add 5 items (width 3, so one overflow and 2 items remaining)
    for i in 0..5 {
        tower.append(item(&i.to_string()));
    }

    // Tower structure:
    // Level 0: [3, 4]
    // Level 1: [H[0,1,2]], which alone is the root
    assert_eq!(String::from_utf8_lossy(&tower.root_digest().unwrap()), "H[0,1,2]");

    // Generate proof for item 3: it still stands on level 0, below the root
    let proof = tower.generate_proof(3).unwrap();
    assert!(!proof.verify());
    assert_eq!(String::from_utf8_lossy(&proof.item), "3");
    assert_eq!(
        proof.path.elements,
        vec![PathElement::RawSiblings { position: 0, siblings: vec![item("4")] }]
    );
    assert_eq!(proof.root, tower.root_digest().unwrap());

    // Generate proof for item 1 (part of the digest)
    let proof = tower.generate_proof(1).unwrap();
    assert!(proof.verify());
    assert_eq!(String::from_utf8_lossy(&proof.item), "1");
    assert_eq!(
        proof.path.elements,
        vec![PathElement::RawSiblings { position: 1, siblings: vec![item("0"), item("2")] }]
    );
}

#[test]
fn test_proof_large_tower() {
    let mut tower: LazyTower<MockDigest> = LazyTower::new(4).unwrap();

    // Add 100 items: the top level holds one node, over the first 64 items
    for i in 0..100 {
        tower.append(item(&format!("item{}", i)));
    }
    assert_eq!(tower.height(), 4);

    // Generate proofs for various items
    let indices = vec![0, 1, 25, 50, 75, 99];
    for idx in indices {
        let proof = tower.generate_proof(idx).unwrap();
        assert_eq!(proof.verify(), idx < 64);
        assert_eq!(String::from_utf8_lossy(&proof.item), format!("item{}", idx));
    }
    for idx in vec![63, 64] {
        let proof = tower.generate_proof(idx).unwrap();
        assert_eq!(proof.verify(), idx < 64);
    }
}

#[test]
fn test_proof_consistency() {
    let mut tower: LazyTower<MockDigest> = LazyTower::new(2).unwrap();

    // Add items and save root after each addition
    let mut roots = Vec::new();
    let items = vec!["A", "B", "C", "D", "E", "F"];

    for text in &items {
        tower.append(item(text));
        if let Some(root) = tower.root_digest() {
            roots.push(root);
        }
    }
    assert_eq!(roots.len(), 6);
    assert_eq!(String::from_utf8_lossy(&roots[5]), "H[H[A,B],H[C,D]]");

    // Generate proofs and verify they match the correct roots: the items
    // under the top level verify, E and F stand below it
    for (i, _) in items.iter().enumerate() {
        let proof = tower.generate_proof(i).unwrap();
        assert_eq!(proof.verify(), i < 4);

        // The proof's root should match the current tower root
        let current_root = tower.root_digest().unwrap();
        assert_eq!(proof.root, current_root);
    }
}

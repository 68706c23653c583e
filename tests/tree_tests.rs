use crypto_tree::tree::{CryptoBinaryTree, CryptoTreeNode, Transaction};
use sha2::Digest;

fn tx(id: &str, from: &str, to: &str, amount: u64, timestamp: Option<u64>) -> Transaction {
    Transaction {
        id: id.to_string(),
        from: from.to_string(),
        to: to.to_string(),
        amount,
        timestamp,
    }
}

fn build(ids: &[&str]) -> CryptoBinaryTree {
    let mut tree = CryptoBinaryTree::new();
    for (i, id) in ids.iter().enumerate() {
        assert!(tree.insert(tx(id, "A", "B", i as u64, Some(1640995200 + i as u64))));
    }
    tree
}

fn sha_hex(text: &str) -> String {
    format!("{:x}", sha2::Sha256::digest(text.as_bytes()))
}

#[test]
fn test_insert_single() {
    let mut tree = CryptoBinaryTree::new();
    let t = tx("tx_001", "Alice", "Bob", 100, Some(1640995200));
    assert!(tree.insert(t));
    assert_eq!(tree.len(), 1);
    assert!(tree.search("tx_001").is_some());
}

#[test]
fn test_duplicate_insert() {
    let mut tree = CryptoBinaryTree::new();
    let t = tx("tx_001", "Alice", "Bob", 100, Some(1640995200));
    assert!(tree.insert(t.clone()));
    assert!(!tree.insert(t));
    assert_eq!(tree.len(), 1);
}

#[test]
fn test_search_nonexistent() {
    let mut tree = CryptoBinaryTree::new();
    let t = tx("tx_001", "Alice", "Bob", 100, Some(1640995200));
    tree.insert(t);
    assert!(tree.search("tx_999").is_none());
}

#[test]
fn test_integrity_after_insert() {
    let mut tree = CryptoBinaryTree::new();
    let transactions = vec![
        tx("tx_003", "Bob", "Charlie", 50, Some(1640995300)),
        tx("tx_001", "Alice", "Bob", 100, Some(1640995200)),
        tx("tx_005", "Charlie", "Dave", 25, Some(1640995400)),
    ];
    for t in transactions {
        tree.insert(t);
    }
    assert!(tree.verify_integrity());
}

#[test]
fn test_proof_of_inclusion() {
    let mut tree = CryptoBinaryTree::new();
    let transactions = vec![
        tx("tx_005", "Alice", "Bob", 100, Some(1640995200)),
        tx("tx_003", "Bob", "Charlie", 50, Some(1640995300)),
        tx("tx_007", "Charlie", "Dave", 25, Some(1640995400)),
        tx("tx_001", "Dave", "Eve", 75, Some(1640995500)),
        tx("tx_009", "Eve", "Frank", 30, Some(1640995600)),
    ];
    for t in transactions {
        tree.insert(t);
    }
    let proof = tree.get_proof_of_inclusion("tx_003");
    assert!(proof.is_some());
    let proof = proof.unwrap();
    assert!(!proof.is_empty());
    for step in &proof {
        assert!(step.side == "left" || step.side == "right");
        assert_eq!(step.hash.len(), 64);
    }
}

#[test]
fn test_avl_balance() {
    let mut tree = CryptoBinaryTree::new();
    for i in 1..=100u64 {
        let t = Transaction {
            id: format!("tx_{:03}", i),
            from: "A".to_string(),
            to: "B".to_string(),
            amount: i,
            timestamp: Some(1640995200 + i),
        };
        tree.insert(t);
    }
    assert_eq!(tree.len(), 100);
    assert!(tree.verify_integrity());
    assert!(tree.search("tx_050").is_some());
}

#[test]
fn empty_tree_has_sentinel_root() {
    let tree = CryptoBinaryTree::new();
    assert_eq!(tree.len(), 0);
    assert!(tree.is_empty());
    assert_eq!(tree.merkle_root(), "0");
    assert!(tree.verify_integrity());
    assert!(tree.search("tx_001").is_none());
    assert!(tree.get_proof_of_inclusion("tx_001").is_none());
}

#[test]
fn single_record_root_is_digest_of_canonical_text() {
    let mut tree = CryptoBinaryTree::new();
    assert!(tree.insert(tx("tx_001", "Alice", "Bob", 100, Some(1640995200))));
    let text = "{\"transaction\":{\"id\":\"tx_001\",\"from\":\"Alice\",\"to\":\"Bob\",\"amount\":100,\"timestamp\":1640995200},\"left_hash\":\"0\",\"right_hash\":\"0\",\"height\":1}";
    assert_eq!(tree.merkle_root(), sha_hex(text));
    assert!(!tree.is_empty());
}

#[test]
fn canonical_text_escapes_and_writes_null_timestamp() {
    let t = tx("a\"b", "x\\y", "z", 0, None);
    let text = "{\"transaction\":{\"id\":\"a\\\"b\",\"from\":\"x\\\\y\",\"to\":\"z\",\"amount\":0,\"timestamp\":null},\"left_hash\":\"L\",\"right_hash\":\"R\",\"height\":-3}";
    assert_eq!(CryptoTreeNode::calculate_hash(&t, "L", "R", -3), sha_hex(text));
}

#[test]
fn new_node_is_a_sealed_leaf() {
    let t = tx("tx_001", "Alice", "Bob", 100, Some(1640995200));
    let n = CryptoTreeNode::new(t.clone());
    assert_eq!(n.height, 1);
    assert!(n.left.is_none() && n.right.is_none());
    assert_eq!(n.hash, CryptoTreeNode::calculate_hash(&t, "0", "0", 1));
    assert_eq!(n.hash.len(), 64);
    assert!(n.hash.chars().all(|c| c.is_ascii_hexdigit() && !c.is_ascii_uppercase()));
}

#[test]
fn duplicate_keeps_original_payload() {
    let mut tree = CryptoBinaryTree::new();
    assert!(tree.insert(tx("tx_001", "Alice", "Bob", 100, Some(1640995200))));
    let root_before = tree.merkle_root().to_string();
    assert!(!tree.insert(tx("tx_001", "Mallory", "Eve", 999, None)));
    assert_eq!(tree.len(), 1);
    let found = tree.search("tx_001").unwrap();
    assert_eq!(found.from, "Alice");
    assert_eq!(found.to, "Bob");
    assert_eq!(found.amount, 100);
    assert_eq!(found.timestamp, Some(1640995200));
    assert_eq!(tree.merkle_root(), root_before);
}

#[test]
fn three_balanced_inserts_need_no_rotation() {
    let mut tree = CryptoBinaryTree::new();
    assert!(tree.insert(tx("tx_003", "Bob", "Charlie", 50, Some(1640995300))));
    assert!(tree.insert(tx("tx_001", "Alice", "Bob", 100, Some(1640995200))));
    assert!(tree.insert(tx("tx_005", "Charlie", "Dave", 25, Some(1640995400))));
    assert_eq!(tree.len(), 3);
    assert!(tree.verify_integrity());
    // tx_003 is the root: each other key's proof is the opposite leaf alone.
    let p1 = tree.get_proof_of_inclusion("tx_001").unwrap();
    let p5 = tree.get_proof_of_inclusion("tx_005").unwrap();
    assert_eq!(p1.len(), 1);
    assert_eq!(p1[0].side, "right");
    assert_eq!(p5.len(), 1);
    assert_eq!(p5[0].side, "left");
    assert!(tree.get_proof_of_inclusion("tx_003").unwrap().is_empty());
    let leaf1 = CryptoTreeNode::new(tx("tx_001", "Alice", "Bob", 100, Some(1640995200)));
    let leaf5 = CryptoTreeNode::new(tx("tx_005", "Charlie", "Dave", 25, Some(1640995400)));
    assert_eq!(p1[0].hash, leaf5.hash);
    assert_eq!(p5[0].hash, leaf1.hash);
    let root = CryptoTreeNode::calculate_hash(
        &tx("tx_003", "Bob", "Charlie", 50, Some(1640995300)),
        &leaf1.hash,
        &leaf5.hash,
        2,
    );
    assert_eq!(tree.merkle_root(), root);
}

#[test]
fn same_sequence_gives_same_root() {
    let ids = ["tx_010", "tx_004", "tx_020", "tx_001", "tx_007", "tx_030", "tx_002"];
    let a = build(&ids);
    let b = build(&ids);
    assert_eq!(a.merkle_root(), b.merkle_root());
    assert_eq!(a.merkle_root().len(), 64);
}

#[test]
fn insertion_order_changes_shape_and_root() {
    let a = build(&["b", "a", "c", "d"]);
    let b = build(&["c", "b", "d", "a"]);
    assert_eq!(a.len(), 4);
    assert_eq!(b.len(), 4);
    assert!(a.verify_integrity() && b.verify_integrity());
    assert_ne!(a.merkle_root(), b.merkle_root());
}

#[test]
fn sorted_inserts_rotate_into_balance() {
    let a = build(&["a", "b", "c"]);
    // "b" rose to the root: "a" and "c" hang on either side of it.
    let pa = a.get_proof_of_inclusion("a").unwrap();
    assert_eq!(pa.len(), 1);
    assert_eq!(pa[0].side, "right");
    assert!(a.get_proof_of_inclusion("b").unwrap().is_empty());
    let d = build(&["c", "b", "a"]);
    assert!(d.get_proof_of_inclusion("b").unwrap().is_empty());
    let e = build(&["a", "c", "b"]);
    assert!(e.get_proof_of_inclusion("b").unwrap().is_empty());
    let f = build(&["c", "a", "b"]);
    assert!(f.get_proof_of_inclusion("b").unwrap().is_empty());
}

#[test]
fn hundred_sorted_keys_stay_shallow() {
    let mut tree = CryptoBinaryTree::new();
    for i in 1..=100u64 {
        assert!(tree.insert(tx(&format!("tx_{:03}", i), "A", "B", i, Some(i))));
    }
    assert!(tree.height() <= 8);
    for i in 1..=100u64 {
        let id = format!("tx_{:03}", i);
        let proof = tree.get_proof_of_inclusion(&id).unwrap();
        assert!(proof.len() < 8);
        assert_eq!(tree.search(&id).unwrap().amount, i);
    }
    assert!(tree.get_proof_of_inclusion("tx_101").is_none());
}

#[test]
fn keys_compare_by_code_point() {
    let tree = build(&["é", "z", "Z", "a", ""]);
    assert_eq!(tree.len(), 5);
    assert!(tree.verify_integrity());
    for id in ["é", "z", "Z", "a", ""] {
        assert_eq!(tree.search(id).unwrap().id, id);
    }
    assert!(tree.search("b").is_none());
}

#[test]
fn decimal_text_of_extreme_integers() {
    let mut out = String::from("x");
    crypto_tree::digest::push_decimal(&mut out, u64::MAX);
    assert_eq!(out, "x18446744073709551615");
    let mut out = String::new();
    crypto_tree::digest::push_decimal(&mut out, 0);
    assert_eq!(out, "0");
    let mut out = String::new();
    crypto_tree::digest::push_signed_decimal(&mut out, i32::MIN);
    assert_eq!(out, "-2147483648");
    let mut out = String::new();
    crypto_tree::digest::push_signed_decimal(&mut out, 70);
    assert_eq!(out, "70");
}

#[test]
fn untampered_trees_report_no_mismatch() {
    assert!(CryptoBinaryTree::new().find_mismatch().is_none());
    let tree = build(&["tx_004", "tx_002", "tx_006", "tx_001", "tx_003"]);
    assert!(tree.find_mismatch().is_none());
    assert!(tree.verify_integrity());
}

use ed25519_dalek::{Keypair, PublicKey, SecretKey};
use num::bigint::BigUint;
use summercash::amount::Amount;
use summercash::graph::Graph;
use summercash::hash::{Address, HASH_SIZE};
use summercash::transaction::Transaction;

fn graph_keypair(seed: u8) -> Keypair {
    let secret = SecretKey::from_bytes(&[seed; 32]).unwrap();
    let public = PublicKey::from(&secret);
    Keypair { secret, public }
}

fn graph_amount(n: u64) -> Amount {
    Amount::from_le_bytes(BigUint::from(n).to_bytes_le())
}

fn zero_parent() -> Vec<summercash::hash::Hash> {
    vec![summercash::hash::Hash::new(vec![0; HASH_SIZE])]
}

#[test]
fn graph_test_new() {
    let sender_keypair = graph_keypair(1);
    let recipient_keypair = graph_keypair(2);
    let sender = Address::from_key_pair(&sender_keypair);
    let recipient = Address::from_key_pair(&recipient_keypair);

    let root_tx = Transaction::new(
        0,
        sender,
        recipient,
        graph_amount(0),
        b"test transaction payload",
        zero_parent(),
    );

    let dag: Graph = Graph::new(root_tx);

    assert_eq!(
        dag.nodes[0].transaction.transaction_data.payload,
        b"test transaction payload"
    );
}

#[test]
fn test_push() {
    let sender_keypair = graph_keypair(1);
    let recipient_keypair = graph_keypair(2);
    let sender = Address::from_key_pair(&sender_keypair);
    let recipient = Address::from_key_pair(&recipient_keypair);

    let root_tx = Transaction::new(
        0,
        sender.copy(),
        recipient.copy(),
        graph_amount(0),
        b"test transaction payload",
        zero_parent(),
    );
    let tx_2 = Transaction::new(
        1,
        sender,
        recipient,
        graph_amount(0),
        b"test transaction payload",
        zero_parent(),
    );

    let mut dag: Graph = Graph::new(root_tx);

    let node_index: usize = dag.push(tx_2, None);

    assert_eq!(node_index, 1);
}

#[test]
fn test_update() {
    let sender_keypair = graph_keypair(1);
    let recipient_keypair = graph_keypair(2);
    let sender = Address::from_key_pair(&sender_keypair);
    let recipient = Address::from_key_pair(&recipient_keypair);

    let root_tx = Transaction::new(
        0,
        sender.copy(),
        recipient.copy(),
        graph_amount(0),
        b"test transaction payload",
        zero_parent(),
    );
    let tx_2 = Transaction::new(
        1,
        sender,
        recipient,
        graph_amount(0),
        b"test transaction payload 2",
        zero_parent(),
    );

    let mut dag: Graph = Graph::new(root_tx);

    dag.update(0, tx_2, None);

    assert_eq!(
        dag.get(0).unwrap().transaction.transaction_data.payload,
        b"test transaction payload 2"
    );
}

#[test]
fn test_get() {
    let sender_keypair = graph_keypair(1);
    let recipient_keypair = graph_keypair(2);
    let sender = Address::from_key_pair(&sender_keypair);
    let recipient = Address::from_key_pair(&recipient_keypair);

    let root_tx = Transaction::new(
        0,
        sender,
        recipient,
        graph_amount(0),
        b"test transaction payload",
        zero_parent(),
    );

    let dag: Graph = Graph::new(root_tx);

    let found_root_tx = dag.get(0).unwrap();

    assert_eq!(
        found_root_tx.transaction.transaction_data.payload,
        b"test transaction payload"
    );
}

#[test]
fn test_get_with_hash() {
    let sender_keypair = graph_keypair(1);
    let recipient_keypair = graph_keypair(2);
    let sender = Address::from_key_pair(&sender_keypair);
    let recipient = Address::from_key_pair(&recipient_keypair);

    let root_tx = Transaction::new(
        0,
        sender,
        recipient,
        graph_amount(0),
        b"test transaction payload",
        zero_parent(),
    );
    let root_tx_hash = root_tx.hash.copy();

    let dag: Graph = Graph::new(root_tx);

    let found_root_tx = dag.get_with_hash(&root_tx_hash).unwrap();

    assert_eq!(
        found_root_tx.transaction.transaction_data.payload,
        b"test transaction payload"
    );
}

#[test]
fn get_out_of_range_is_none() {
    let a = Address::from_key_pair(&graph_keypair(1));
    let root_tx = Transaction::new(0, a.copy(), a, graph_amount(0), b"genesis", zero_parent());
    let dag = Graph::new(root_tx);
    assert!(dag.get(1).is_none());
}

#[test]
fn get_with_unknown_hash_fails() {
    let a = Address::from_key_pair(&graph_keypair(1));
    let root_tx = Transaction::new(0, a.copy(), a, graph_amount(0), b"genesis", zero_parent());
    let dag = Graph::new(root_tx);
    let missing = summercash::hash::Hash::new(vec![7; HASH_SIZE]);
    match dag.get_with_hash(&missing) {
        Err(summercash::graph::OperationError::NoLookupResults { key, error }) => {
            assert_eq!(key, "07".repeat(32));
            assert_eq!(error, "no route to node found");
        }
        _ => panic!("expected a lookup error"),
    }
}

#[test]
fn push_duplicate_leaves_graph_untouched() {
    let a = Address::from_key_pair(&graph_keypair(1));
    let root_tx = Transaction::with_timestamp(0, a.copy(), a.copy(), graph_amount(0), b"genesis", zero_parent(), 5);
    let same = Transaction::with_timestamp(0, a.copy(), a, graph_amount(0), b"genesis", zero_parent(), 5);
    let mut dag = Graph::new(root_tx);
    assert_eq!(dag.push(same, None), 0);
    assert_eq!(dag.nodes.len(), 1);
}

#[test]
fn push_records_children_under_each_parent() {
    let a = Address::from_key_pair(&graph_keypair(1));
    let root_tx = Transaction::with_timestamp(0, a.copy(), a.copy(), graph_amount(0), b"genesis", zero_parent(), 1);
    let root_hash = root_tx.hash.copy();
    let mut dag = Graph::new(root_tx);
    let child = Transaction::with_timestamp(1, a.copy(), a, graph_amount(0), b"child", vec![root_hash.copy(), summercash::hash::Hash::new(vec![9; HASH_SIZE])], 2);
    let child_hash = child.hash.copy();
    dag.push(child, None);
    assert!(dag.nodes[0].transaction.genesis);
    assert!(!dag.nodes[1].transaction.genesis);
    let under_root = dag.node_children.iter().find(|(p, _)| p.bytes == root_hash.bytes).unwrap();
    assert_eq!(under_root.1.len(), 1);
    assert_eq!(under_root.1[0].bytes, child_hash.bytes);
    let under_other = dag.node_children.iter().find(|(p, _)| p.bytes == vec![9; HASH_SIZE]).unwrap();
    assert_eq!(under_other.1[0].bytes, child_hash.bytes);
    assert_eq!(dag.index_of(&child_hash), Some(1));
}

#[test]
fn executed_head_is_latest_materialized_node() {
    let a = Address::from_key_pair(&graph_keypair(1));
    let root_tx = Transaction::with_timestamp(0, a.copy(), a.copy(), graph_amount(0), b"genesis", zero_parent(), 1);
    let root_hash = root_tx.hash.copy();
    let mut dag = Graph::new(root_tx);
    assert_eq!(dag.obtain_executed_head().unwrap().hash.bytes, root_hash.bytes);
    let child = Transaction::with_timestamp(1, a.copy(), a.copy(), graph_amount(0), b"child", vec![root_hash.copy()], 2);
    let child_hash = child.hash.copy();
    dag.push(child, None);
    assert!(dag.obtain_executed_head().is_none());
    let entry = summercash::state::StateEntry::bootstrap(&a, &a, &graph_amount(0), 1);
    dag.hydrate(1, entry);
    assert_eq!(dag.obtain_executed_head().unwrap().hash.bytes, child_hash.bytes);
    assert!(Graph::empty().obtain_executed_head().is_none());
}

#[test]
fn index_key_is_ascii_decimal() {
    assert_eq!(summercash::graph::index_key(0), b"0".to_vec());
    assert_eq!(summercash::graph::index_key(7), b"7".to_vec());
    assert_eq!(summercash::graph::index_key(120), b"120".to_vec());
    assert_eq!(summercash::graph::index_key(u64::MAX), u64::MAX.to_string().into_bytes());
}

#[test]
fn node_bytes_round_trip_and_reload() {
    let a = Address::from_key_pair(&graph_keypair(1));
    let root_tx = Transaction::with_timestamp(0, a.copy(), a.copy(), graph_amount(3), b"genesis", zero_parent(), 1);
    let root_hash = root_tx.hash.copy();
    let mut dag = Graph::new(root_tx);
    let child = Transaction::with_timestamp(1, a.copy(), a, graph_amount(0), b"child", vec![root_hash.copy()], 2);
    dag.push(child, None);
    let stored: Vec<Vec<u8>> = dag.nodes.iter().map(|n| n.to_bytes()).collect();
    let nodes: Vec<summercash::graph::Node> = stored
        .iter()
        .map(|b| summercash::graph::Node::from_bytes(b).unwrap())
        .collect();
    for (n, b) in nodes.iter().zip(stored.iter()) {
        assert_eq!(&n.to_bytes(), b);
    }
    let reloaded = Graph::from_nodes(nodes, true);
    assert_eq!(reloaded.nodes.len(), 2);
    assert_eq!(reloaded.index_of(&root_hash), Some(0));
    assert!(reloaded.nodes[0].state_entry.is_some());
    assert_eq!(reloaded.node_children.len(), dag.node_children.len());
    let partial_nodes: Vec<summercash::graph::Node> = stored
        .iter()
        .map(|b| summercash::graph::Node::from_bytes(b).unwrap())
        .collect();
    let partial = Graph::from_nodes(partial_nodes, false);
    assert!(partial.nodes[0].state_entry.is_some());
    assert!(partial.nodes[1].state_entry.is_none());
}

#[test]
fn node_from_bad_bytes_is_none() {
    assert!(summercash::graph::Node::from_bytes(&vec![1, 2, 3]).is_none());
}

#[test]
fn verify_contents_compares_hashes() {
    let a = Address::from_key_pair(&graph_keypair(1));
    let tx = Transaction::new(0, a.copy(), a, graph_amount(0), b"x", zero_parent());
    let mut node = summercash::graph::Node::new(tx, None);
    assert!(node.verify_contents());
    assert!(!node.perform_validity_checks());
    node.hash = summercash::hash::Hash::new(vec![1; HASH_SIZE]);
    assert!(!node.verify_contents());
}

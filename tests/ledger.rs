use ed25519_dalek::{Keypair, PublicKey, SecretKey};
use num::bigint::BigUint;
use summercash::amount::Amount;
use summercash::dag::DagImpl;
use summercash::graph::{Graph, OperationError};
use summercash::hash::{Address, HASH_SIZE};
use summercash::proposal::{Operation, Proposal, ProposalData, LEDGER_PATH};
use summercash::state::StateEntry;
use summercash::sync::{
    active_subset_quorum, handle_get_record, handle_put_record_error, next_transaction_key,
    root_transaction_key, transaction_with_hash_key, SyncAction,
};
use summercash::system::System;
use summercash::transaction::{sign_transaction, Transaction};
use summercash::vote::Vote;

fn ledger_keypair(seed: u8) -> Keypair {
    let secret = SecretKey::from_bytes(&[seed; 32]).unwrap();
    let public = PublicKey::from(&secret);
    Keypair { secret, public }
}

fn finks(n: u64) -> Amount {
    Amount::from_le_bytes(BigUint::from(n).to_bytes_le())
}

fn value(a: &Amount) -> BigUint {
    BigUint::from_bytes_le(&a.bytes)
}

fn balance_of(entry: &StateEntry, addr: &Address) -> Option<BigUint> {
    entry.balances.entries.iter().find(|(k, _)| k.bytes == addr.bytes).map(|(_, v)| value(v))
}

fn nonce_of(entry: &StateEntry, addr: &Address) -> Option<u64> {
    entry.nonces.entries.iter().find(|(k, _)| k.bytes == addr.bytes).map(|(_, v)| *v)
}

fn signed(seed: u8, nonce: u64, recipient: &Address, amount: u64, payload: &[u8], parents: Vec<summercash::hash::Hash>, at: i64) -> Transaction {
    let kp = ledger_keypair(seed);
    let mut tx = Transaction::with_timestamp(nonce, Address::from_key_pair(&kp), recipient.copy(), finks(amount), payload, parents, at);
    sign_transaction(kp, &mut tx).unwrap();
    tx
}

fn append_proposal(tx: &Transaction) -> Proposal {
    Proposal::new(
        "sync_child".to_owned(),
        ProposalData::new(LEDGER_PATH.to_owned(), Operation::Append { value_to_append: tx.to_bytes() }),
    )
}

#[test]
fn genesis_only_graph() {
    let a = Address::from_key_pair(&ledger_keypair(1));
    let b = Address::from_key_pair(&ledger_keypair(2));
    let root = Transaction::new(0, a.copy(), b.copy(), finks(0), b"genesis", vec![summercash::hash::Hash::zero()]);
    let root_hash = root.hash.copy();
    let g = Graph::new(root);
    assert_eq!(g.nodes.len(), 1);
    let entry = g.nodes[0].state_entry.as_ref().unwrap();
    assert_eq!(entry.balances.entries.len(), 1);
    assert_eq!(balance_of(entry, &b), Some(BigUint::from(0u32)));
    assert_eq!(entry.nonces.entries.len(), 1);
    assert_eq!(nonce_of(entry, &a), Some(0));
    assert_eq!(g.index_of(&root_hash), Some(0));
    assert!(g.nodes[0].transaction.genesis);
}

#[test]
fn append_child_of_genesis() {
    let a = Address::from_key_pair(&ledger_keypair(1));
    let b = Address::from_key_pair(&ledger_keypair(2));
    let root = Transaction::with_timestamp(0, a.copy(), a.copy(), finks(10), b"genesis", vec![summercash::hash::Hash::zero()], 1);
    let root_hash = root.hash.copy();
    let mut g = Graph::new(root);
    let t1 = signed(1, 1, &b, 10, b"t1", vec![root_hash], 2);
    assert_eq!(g.append_transaction(t1).unwrap(), 1);
    let entry = g.nodes[1].state_entry.as_ref().unwrap();
    assert_eq!(balance_of(entry, &b), Some(BigUint::from(10u32)));
    assert_eq!(nonce_of(entry, &a), Some(1));
}

#[test]
fn append_without_funds_is_rejected() {
    let a = Address::from_key_pair(&ledger_keypair(1));
    let b = Address::from_key_pair(&ledger_keypair(2));
    let root = Transaction::with_timestamp(0, a.copy(), b.copy(), finks(0), b"genesis", vec![summercash::hash::Hash::zero()], 1);
    let root_hash = root.hash.copy();
    let mut g = Graph::new(root);
    let t1 = signed(1, 1, &b, 10, b"t1", vec![root_hash], 2);
    assert!(matches!(g.append_transaction(t1), Err(OperationError::InsufficientBalance { .. })));
    assert_eq!(g.nodes.len(), 1);
}

#[test]
fn append_without_parents_is_rejected() {
    let a = Address::from_key_pair(&ledger_keypair(1));
    let root = Transaction::with_timestamp(0, a.copy(), a.copy(), finks(10), b"genesis", vec![summercash::hash::Hash::zero()], 1);
    let mut g = Graph::new(root);
    let orphan = signed(1, 1, &a, 1, b"orphan", vec![], 2);
    assert!(!orphan.genesis);
    assert!(matches!(g.append_transaction(orphan), Err(OperationError::NoParents { .. })));
    assert_eq!(g.nodes.len(), 1);
}

#[test]
fn append_unsigned_is_rejected() {
    let a = Address::from_key_pair(&ledger_keypair(1));
    let root = Transaction::with_timestamp(0, a.copy(), a.copy(), finks(10), b"genesis", vec![summercash::hash::Hash::zero()], 1);
    let root_hash = root.hash.copy();
    let mut g = Graph::new(root);
    let unsigned = Transaction::with_timestamp(1, a.copy(), a.copy(), finks(1), b"u", vec![root_hash], 2);
    assert!(matches!(g.append_transaction(unsigned), Err(OperationError::InvalidSignature { .. })));
}

#[test]
fn append_with_unknown_parent_is_rejected() {
    let a = Address::from_key_pair(&ledger_keypair(1));
    let root = Transaction::with_timestamp(0, a.copy(), a.copy(), finks(10), b"genesis", vec![summercash::hash::Hash::zero()], 1);
    let mut g = Graph::new(root);
    let t = signed(1, 1, &a, 1, b"t", vec![summercash::hash::Hash::new(vec![3; HASH_SIZE])], 2);
    assert!(matches!(g.append_transaction(t), Err(OperationError::NoLookupResults { .. })));
}

#[test]
fn append_on_header_only_parent_is_unresolved() {
    let a = Address::from_key_pair(&ledger_keypair(1));
    let root = Transaction::with_timestamp(0, a.copy(), a.copy(), finks(10), b"genesis", vec![summercash::hash::Hash::zero()], 1);
    let root_hash = root.hash.copy();
    let mut g = Graph::new(root);
    let header = Transaction::with_timestamp(1, a.copy(), a.copy(), finks(1), b"h", vec![root_hash], 2);
    let header_hash = header.hash.copy();
    g.push(header, None);
    let t = signed(1, 2, &a, 1, b"t", vec![header_hash], 3);
    assert!(matches!(g.append_transaction(t), Err(OperationError::StateUnresolved { .. })));
}

#[test]
fn merge_takes_balance_of_larger_state_hash() {
    let a = Address::from_key_pair(&ledger_keypair(1));
    let b = Address::from_key_pair(&ledger_keypair(2));
    let c = Address::from_key_pair(&ledger_keypair(3));
    let root = Transaction::with_timestamp(0, a.copy(), a.copy(), finks(100), b"genesis", vec![summercash::hash::Hash::zero()], 1);
    let root_hash = root.hash.copy();
    let mut g = Graph::new(root);
    let t1 = signed(1, 1, &b, 10, b"t1", vec![root_hash.copy()], 2);
    let t2 = signed(1, 2, &c, 30, b"t2", vec![root_hash], 3);
    let (h1, h2) = (t1.hash.copy(), t2.hash.copy());
    g.append_transaction(t1).unwrap();
    g.append_transaction(t2).unwrap();
    let (merged, parents) = g.resolve_parent_nodes(&vec![h1.copy(), h2.copy()]).unwrap();
    assert_eq!(parents.len(), 2);
    assert_eq!(parents[0].0.bytes, h1.bytes);
    let s1 = g.nodes[1].state_entry.as_ref().unwrap();
    let s2 = g.nodes[2].state_entry.as_ref().unwrap();
    let winner = if s1.hash.bytes > s2.hash.bytes { s1 } else { s2 };
    let loser = if s1.hash.bytes > s2.hash.bytes { s2 } else { s1 };
    assert_eq!(balance_of(&merged, &a), balance_of(winner, &a));
    assert_eq!(nonce_of(&merged, &a), Some(2));
    for addr in [&b, &c] {
        let expected = balance_of(winner, addr).or(balance_of(loser, addr));
        assert_eq!(balance_of(&merged, addr), expected);
    }
    let merged_again = StateEntry::merge(&vec![s2.copy(), s1.copy()]);
    assert_eq!(merged_again.hash.bytes, merged.hash.bytes);
}

#[test]
fn duplicate_append_proposal() {
    let a = Address::from_key_pair(&ledger_keypair(1));
    let b = Address::from_key_pair(&ledger_keypair(2));
    let root = Transaction::with_timestamp(0, a.copy(), a.copy(), finks(10), b"genesis", vec![summercash::hash::Hash::zero()], 1);
    let root_hash = root.hash.copy();
    let mut system = System::new(Graph::new(root));
    let t1 = signed(1, 1, &b, 4, b"t1", vec![root_hash], 2);
    let first = append_proposal(&t1);
    let second = append_proposal(&t1);
    let id = first.proposal_id.copy();
    assert_eq!(first.proposal_id.bytes, second.proposal_id.bytes);
    assert!(system.push_proposal(first));
    assert!(!system.push_proposal(second));
    assert_eq!(system.pending_proposals.len(), 1);
    system.execute_proposal(&id).unwrap();
    assert_eq!(system.ledger.nodes.len(), 2);
    assert!(system.pending_proposals.is_empty());
    assert!(matches!(system.execute_proposal(&id), Err(OperationError::AlreadyExecuted { .. })));
    system.push_proposal(append_proposal(&t1));
    assert!(matches!(system.execute_proposal(&id), Err(OperationError::AlreadyExecuted { .. })));
    assert_eq!(system.ledger.nodes.len(), 2);
}

#[test]
fn unknown_target_and_garbage_are_rejected() {
    let a = Address::from_key_pair(&ledger_keypair(1));
    let root = Transaction::with_timestamp(0, a.copy(), a.copy(), finks(10), b"genesis", vec![summercash::hash::Hash::zero()], 1);
    let mut system = System::new(Graph::new(root));
    let amend = Proposal::new("x".to_owned(), ProposalData::new(LEDGER_PATH.to_owned(), Operation::Amend { value: vec![1] }));
    let amend_id = amend.proposal_id.copy();
    system.register_proposal(amend);
    assert_eq!(system.outbound.len(), 1);
    assert!(matches!(system.execute_proposal(&amend_id), Err(OperationError::UnknownTarget { .. })));
    let elsewhere = Proposal::new("y".to_owned(), ProposalData::new("accounts".to_owned(), Operation::Append { value_to_append: vec![] }));
    let elsewhere_id = elsewhere.proposal_id.copy();
    system.push_proposal(elsewhere);
    assert!(matches!(system.execute_proposal(&elsewhere_id), Err(OperationError::UnknownTarget { path }) if path == "accounts"));
    let garbage = Proposal::new("z".to_owned(), ProposalData::new(LEDGER_PATH.to_owned(), Operation::Append { value_to_append: vec![1, 2, 3] }));
    let garbage_id = garbage.proposal_id.copy();
    system.push_proposal(garbage);
    assert!(matches!(system.execute_proposal(&garbage_id), Err(OperationError::Serialization)));
    let missing = summercash::hash::Hash::new(vec![4; HASH_SIZE]);
    assert!(matches!(system.execute_proposal(&missing), Err(OperationError::NoLookupResults { .. })));
}

#[test]
fn proposal_ids_follow_contents() {
    let d = || ProposalData::new(LEDGER_PATH.to_owned(), Operation::Append { value_to_append: vec![1, 2] });
    let p = Proposal::with_timestamp("n".to_owned(), d(), 1);
    let q = Proposal::with_timestamp("n".to_owned(), d(), 2);
    let r = Proposal::with_timestamp("m".to_owned(), d(), 1);
    let s = Proposal::with_timestamp("n".to_owned(), ProposalData::new(LEDGER_PATH.to_owned(), Operation::Remove), 1);
    assert_eq!(p.proposal_id.bytes, q.proposal_id.bytes);
    assert_ne!(p.proposal_id.bytes, r.proposal_id.bytes);
    assert_ne!(p.proposal_id.bytes, s.proposal_id.bytes);
}

#[test]
fn sync_from_empty_node() {
    let a = Address::from_key_pair(&ledger_keypair(1));
    let b = Address::from_key_pair(&ledger_keypair(2));
    let tx0 = Transaction::with_timestamp(0, a.copy(), a.copy(), finks(100), b"genesis", vec![summercash::hash::Hash::zero()], 1);
    let h0 = tx0.hash.copy();
    let tx1 = signed(1, 1, &b, 10, b"t1", vec![h0.copy()], 2);
    let h1 = tx1.hash.copy();

    let mut node = System::new(Graph::empty());
    let peers = 4;

    let step = handle_get_record(&mut node, &root_transaction_key(), &h0.bytes, peers);
    match step {
        SyncAction::GetRecord { key, quorum } => {
            assert_eq!(key, transaction_with_hash_key(&h0));
            assert_eq!(quorum, 2);
        }
        SyncAction::Idle => panic!("expected a query"),
    }
    let step = handle_get_record(&mut node, &transaction_with_hash_key(&h0), &tx0.to_bytes(), peers);
    match step {
        SyncAction::GetRecord { key, .. } => assert_eq!(key, next_transaction_key(&h0)),
        SyncAction::Idle => panic!("expected a query"),
    }
    assert_eq!(node.ledger.nodes.len(), 1);
    assert!(node.ledger.nodes[0].transaction.genesis);
    let step = handle_get_record(&mut node, &next_transaction_key(&h0), &h1.bytes, peers);
    match step {
        SyncAction::GetRecord { key, .. } => assert_eq!(key, transaction_with_hash_key(&h1)),
        SyncAction::Idle => panic!("expected a query"),
    }
    let step = handle_get_record(&mut node, &transaction_with_hash_key(&h1), &tx1.to_bytes(), peers);
    match step {
        SyncAction::GetRecord { key, .. } => assert_eq!(key, next_transaction_key(&h1)),
        SyncAction::Idle => panic!("expected a query"),
    }
    let mut hashes: Vec<Vec<u8>> = node.ledger.nodes.iter().map(|n| n.hash.bytes.clone()).collect();
    hashes.sort();
    let mut expected = vec![h0.bytes.clone(), h1.bytes.clone()];
    expected.sort();
    assert_eq!(hashes, expected);

    let again = handle_get_record(&mut node, &transaction_with_hash_key(&h1), &tx1.to_bytes(), peers);
    assert!(matches!(again, SyncAction::GetRecord { .. }));
    assert_eq!(node.ledger.nodes.len(), 2);
}

#[test]
fn sync_ignores_unknown_keys_and_bad_records() {
    let mut node = System::new(Graph::empty());
    assert!(matches!(handle_get_record(&mut node, &b"other".to_vec(), &vec![1], 3), SyncAction::Idle));
    let h = summercash::hash::Hash::new(vec![1; HASH_SIZE]);
    assert!(matches!(handle_get_record(&mut node, &transaction_with_hash_key(&h), &vec![9, 9], 3), SyncAction::Idle));
    assert_eq!(node.ledger.nodes.len(), 0);
    let mut flag = false;
    handle_put_record_error(&mut flag);
    assert!(flag);
}

#[test]
fn record_keys_have_the_documented_bytes() {
    let h = summercash::hash::Hash::new(vec![0xab; HASH_SIZE]);
    assert_eq!(root_transaction_key(), b"ledger::transactions::root".to_vec());
    let mut tx_key = b"ledger::transactions::tx::".to_vec();
    tx_key.extend_from_slice(&[0xab; HASH_SIZE]);
    assert_eq!(transaction_with_hash_key(&h), tx_key);
    let mut next_key = b"ledger::transactions::next::".to_vec();
    next_key.extend_from_slice(&[0xab; HASH_SIZE]);
    assert_eq!(next_transaction_key(&h), next_key);
}

#[test]
fn quorum_is_half_the_peers_rounded_up() {
    assert_eq!(active_subset_quorum(0), 1);
    assert_eq!(active_subset_quorum(1), 1);
    assert_eq!(active_subset_quorum(2), 1);
    assert_eq!(active_subset_quorum(3), 2);
    assert_eq!(active_subset_quorum(4), 2);
    assert_eq!(active_subset_quorum(5), 3);
}

#[test]
fn votes_sign_their_target() {
    let id = summercash::hash::Hash::new(vec![6; HASH_SIZE]);
    let vote = Vote::new(id.copy(), true, ledger_keypair(1));
    assert!(vote.valid());
    let mut flipped = Vote::new(id.copy(), false, ledger_keypair(1));
    assert!(flipped.valid());
    flipped.in_favor = true;
    assert!(!flipped.valid());
    let unsigned = Vote { target_proposal: id, in_favor: true, signature: None };
    assert!(!unsigned.valid());
    assert_eq!(vote.hash().bytes, unsigned.hash().bytes);
}

#[test]
fn create_and_publish_transaction() {
    let a = Address::from_key_pair(&ledger_keypair(1));
    let b = Address::from_key_pair(&ledger_keypair(2));
    let root = Transaction::with_timestamp(5, a.copy(), a.copy(), finks(10), b"genesis", vec![summercash::hash::Hash::zero()], 1);
    let root_hash = root.hash.copy();
    let mut dag = DagImpl { runtime: System::new(Graph::new(root)) };
    let mut tx = dag.create_tx(a.copy(), b.copy(), finks(3), b"hello").unwrap();
    assert_eq!(tx.transaction_data.nonce, 6);
    assert_eq!(tx.transaction_data.parents.len(), 1);
    assert_eq!(tx.transaction_data.parents[0].bytes, root_hash.bytes);
    assert!(tx.transaction_data.parent_state_hash.is_some());
    let listed = dag.list();
    assert_eq!(listed.len(), 1);
    assert_eq!(listed[0].bytes, root_hash.bytes);
    sign_transaction(ledger_keypair(1), &mut tx).unwrap();
    dag.publish_tx(&tx);
    assert_eq!(dag.runtime.pending_proposals.len(), 1);
    let name = dag.runtime.pending_proposals[0].name.clone();
    assert_eq!(name, format!("new_tx({})", tx.hash.to_str()));
    let id = dag.runtime.pending_proposals[0].proposal_id.copy();
    dag.runtime.execute_proposal(&id).unwrap();
    assert_eq!(dag.runtime.ledger.nodes.len(), 2);
    let fresh = dag.create_tx(b.copy(), a.copy(), finks(1), b"").unwrap();
    assert_eq!(fresh.transaction_data.nonce, 0);
    assert!(DagImpl { runtime: System::new(Graph::empty()) }.create_tx(a, b, finks(1), b"").is_err());
}

#[test]
fn vote_text_names_position_and_target() {
    let id = summercash::hash::Hash::new(vec![0x0f; HASH_SIZE]);
    let yes = Vote::new(id.copy(), true, ledger_keypair(1));
    let no = Vote::new(id, false, ledger_keypair(1));
    assert_eq!(yes.to_str(), format!("in favor of proposal {}", "0f".repeat(32)));
    assert_eq!(no.to_str(), format!("in opposition to proposal {}", "0f".repeat(32)));
}

#[test]
fn hydrate_fills_header_only_node() {
    let a = Address::from_key_pair(&ledger_keypair(1));
    let root = Transaction::with_timestamp(0, a.copy(), a.copy(), finks(10), b"genesis", vec![summercash::hash::Hash::zero()], 1);
    let root_hash = root.hash.copy();
    let mut g = Graph::new(root);
    let header = Transaction::with_timestamp(1, a.copy(), a.copy(), finks(1), b"h", vec![root_hash], 2);
    g.push(header, None);
    assert!(g.nodes[1].state_entry.is_none());
    let entry = StateEntry::bootstrap(&a, &a, &finks(4), 1);
    let entry_hash = entry.hash.bytes.clone();
    g.hydrate(1, entry);
    assert_eq!(g.nodes[1].state_entry.as_ref().unwrap().hash.bytes, entry_hash);
    let other = StateEntry::bootstrap(&a, &a, &finks(5), 1);
    g.hydrate(1, other);
    assert_eq!(g.nodes[1].state_entry.as_ref().unwrap().hash.bytes, entry_hash);
}

#[test]
fn update_refuses_a_hash_held_elsewhere() {
    let a = Address::from_key_pair(&ledger_keypair(1));
    let root = Transaction::with_timestamp(0, a.copy(), a.copy(), finks(10), b"genesis", vec![summercash::hash::Hash::zero()], 1);
    let root_hash = root.hash.copy();
    let mut g = Graph::new(root);
    let child = Transaction::with_timestamp(1, a.copy(), a.copy(), finks(1), b"c", vec![root_hash.copy()], 2);
    g.push(child, None);
    let copy_of_root = Transaction::with_timestamp(0, a.copy(), a.copy(), finks(10), b"genesis", vec![summercash::hash::Hash::zero()], 1);
    g.update(1, copy_of_root, None);
    assert_eq!(g.nodes[1].transaction.transaction_data.payload, b"c");
    assert_eq!(g.index_of(&root_hash), Some(0));
}

#[test]
fn created_transaction_attests_head_state_and_publish_marks_outbound() {
    let a = Address::from_key_pair(&ledger_keypair(1));
    let b = Address::from_key_pair(&ledger_keypair(2));
    let root = Transaction::with_timestamp(0, a.copy(), a.copy(), finks(10), b"genesis", vec![summercash::hash::Hash::zero()], 1);
    let mut dag = DagImpl { runtime: System::new(Graph::new(root)) };
    let head_state = dag.runtime.ledger.nodes[0].state_entry.as_ref().unwrap().hash.bytes.clone();
    let tx = dag.create_tx(a.copy(), b, finks(2), b"x").unwrap();
    assert_eq!(tx.transaction_data.parent_state_hash.as_ref().unwrap().bytes, head_state);
    let receipts = tx.transaction_data.parent_receipts.as_ref().unwrap();
    assert_eq!(receipts.receipts[0].state_hash.bytes, head_state);
    dag.publish_tx(&tx);
    assert_eq!(dag.runtime.outbound.len(), 1);
    assert_eq!(dag.runtime.outbound[0].bytes, dag.runtime.pending_proposals[0].proposal_id.bytes);
}

#[test]
fn self_transfer_keeps_balance() {
    let a = Address::from_key_pair(&ledger_keypair(1));
    let root = Transaction::with_timestamp(0, a.copy(), a.copy(), finks(10), b"genesis", vec![summercash::hash::Hash::zero()], 1);
    let prev = root.execute(None).unwrap();
    let tx = Transaction::with_timestamp(1, a.copy(), a.copy(), finks(4), b"self", vec![root.hash.copy()], 2);
    let next = tx.execute(Some(prev)).unwrap();
    assert_eq!(balance_of(&next, &a), Some(BigUint::from(10u32)));
    assert_eq!(nonce_of(&next, &a), Some(1));
}

#[test]
fn header_only_node_round_trips() {
    let a = Address::from_key_pair(&ledger_keypair(1));
    let tx = signed(1, 3, &a, 1, b"h", vec![summercash::hash::Hash::zero()], 9);
    let node = summercash::graph::Node::new(tx, None);
    let bytes = node.to_bytes();
    let back = summercash::graph::Node::from_bytes(&bytes).unwrap();
    assert!(back.state_entry.is_none());
    assert_eq!(back.to_bytes(), bytes);
    assert!(back.perform_validity_checks());
}

use ed25519_dalek::{Keypair, PublicKey, SecretKey, Signer};
use num::bigint::BigUint;
use summercash::amount::Amount;
use summercash::hash::{Address, HASH_SIZE};
use summercash::state::StateEntry;
use summercash::transaction::{sign_transaction, SignatureError, Transaction};

fn tx_keypair(seed: u8) -> Keypair {
    let secret = SecretKey::from_bytes(&[seed; 32]).unwrap();
    let public = PublicKey::from(&secret);
    Keypair { secret, public }
}

fn ten_smc_in_finks() -> Amount {
    let finks = BigUint::from(10u32) * BigUint::from(10u32).pow(18);
    Amount::from_le_bytes(finks.to_bytes_le())
}

fn tx_amount(n: u64) -> Amount {
    Amount::from_le_bytes(BigUint::from(n).to_bytes_le())
}

fn amount_value(a: &Amount) -> BigUint {
    BigUint::from_bytes_le(&a.bytes)
}

fn root_parents() -> Vec<summercash::hash::Hash> {
    vec![summercash::hash::Hash::new(vec![0; HASH_SIZE])]
}

#[test]
fn transaction_test_new() {
    let sender_keypair = tx_keypair(1);
    let recipient_keypair = tx_keypair(2);

    let transaction = Transaction::new(
        0,
        Address::from_key_pair(&sender_keypair),
        Address::from_key_pair(&recipient_keypair),
        ten_smc_in_finks(),
        b"test transaction payload",
        root_parents(),
    );

    assert_eq!(
        std::str::from_utf8(transaction.transaction_data.payload.as_slice()).unwrap(),
        "test transaction payload"
    );
}

#[test]
fn test_sign_transaction() {
    let sender_keypair = tx_keypair(1);
    let recipient_keypair = tx_keypair(2);

    let transaction = &mut Transaction::new(
        0,
        Address::from_key_pair(&sender_keypair),
        Address::from_key_pair(&recipient_keypair),
        ten_smc_in_finks(),
        b"test transaction payload",
        root_parents(),
    );

    sign_transaction(sender_keypair, transaction).unwrap();
}

#[test]
fn test_verify_transaction_signature() {
    let sender_keypair = tx_keypair(1);
    let recipient_keypair = tx_keypair(2);

    let transaction = &mut Transaction::new(
        0,
        Address::from_key_pair(&sender_keypair),
        Address::from_key_pair(&recipient_keypair),
        ten_smc_in_finks(),
        b"test transaction payload",
        root_parents(),
    );

    sign_transaction(sender_keypair, transaction).unwrap();

    assert!(transaction.verify_signature());
}

#[test]
fn signing_with_another_key_is_refused() {
    let sender = Address::from_key_pair(&tx_keypair(1));
    let expected_hex = Address::from_key_pair(&tx_keypair(3)).to_str();
    let mut tx = Transaction::new(0, sender, Address::from_key_pair(&tx_keypair(2)), tx_amount(1), b"p", root_parents());
    match sign_transaction(tx_keypair(3), &mut tx) {
        Err(SignatureError::InvalidAddressPublicKeyCombination { address_hex }) => {
            assert_eq!(address_hex, expected_hex);
            assert_eq!(address_hex.len(), 64);
        }
        _ => panic!("expected a key mismatch"),
    }
    assert!(tx.signature.is_none());
    assert!(!tx.verify_signature());
}

#[test]
fn unsigned_transaction_does_not_verify() {
    let tx = Transaction::new(0, Address::from_key_pair(&tx_keypair(1)), Address::from_key_pair(&tx_keypair(2)), tx_amount(1), b"p", root_parents());
    assert!(!tx.verify_signature());
}

#[test]
fn tampered_payload_breaks_signature() {
    let kp = tx_keypair(1);
    let mut tx = Transaction::new(0, Address::from_key_pair(&kp), Address::from_key_pair(&tx_keypair(2)), tx_amount(5), b"payload", root_parents());
    sign_transaction(kp, &mut tx).unwrap();
    assert!(tx.verify_signature());
    let old_hash = tx.hash.bytes.clone();
    tx.transaction_data.payload[0] ^= 1;
    tx.rehash();
    assert_ne!(tx.hash.bytes, old_hash);
    assert!(!tx.verify_signature());
}

#[test]
fn hash_is_blake3_of_canonical_contents() {
    let tx = Transaction::with_timestamp(3, Address::from_key_pair(&tx_keypair(1)), Address::from_key_pair(&tx_keypair(2)), tx_amount(9), b"abc", root_parents(), 42);
    let bytes = tx.transaction_data.to_bytes();
    assert_eq!(tx.hash.bytes, blake3::hash(&bytes).as_bytes().to_vec());
    assert_eq!(&bytes[0..8], &3u64.to_le_bytes());
    assert_eq!(&bytes[bytes.len() - 8..], &42u64.to_le_bytes());
}

#[test]
fn blake3_of_empty_input() {
    let h = summercash::hash::Hash::of(&Vec::new());
    assert_eq!(h.to_str(), "af1349b9f5f9a1a6a0404dea36dcc9499bcb25c9adc112b7cc9a93cae41f3262");
}

#[test]
fn transaction_bytes_round_trip() {
    let kp = tx_keypair(1);
    let mut tx = Transaction::with_timestamp(7, Address::from_key_pair(&kp), Address::from_key_pair(&tx_keypair(2)), tx_amount(300), b"round trip", root_parents(), -5);
    sign_transaction(kp, &mut tx).unwrap();
    let bytes = tx.to_bytes();
    let back = Transaction::from_bytes(&bytes).unwrap();
    assert_eq!(back.to_bytes(), bytes);
    assert_eq!(back.transaction_data.timestamp, -5);
    assert!(back.verify_signature());
    let mut longer = bytes.clone();
    longer.push(0);
    assert!(Transaction::from_bytes(&longer).is_none());
    assert!(Transaction::from_bytes(&bytes[..bytes.len() - 1].to_vec()).is_none());
}

#[test]
fn genesis_execution_against_nothing() {
    let a = Address::from_key_pair(&tx_keypair(1));
    let b = Address::from_key_pair(&tx_keypair(2));
    let tx = Transaction::new(4, a.copy(), b.copy(), tx_amount(77), b"genesis", root_parents());
    let entry = tx.execute(None).unwrap();
    assert_eq!(entry.balances.entries.len(), 1);
    assert_eq!(entry.balances.entries[0].0.bytes, b.bytes);
    assert_eq!(amount_value(&entry.balances.entries[0].1), BigUint::from(77u32));
    assert_eq!(entry.nonces.entries.len(), 1);
    assert_eq!(entry.nonces.entries[0].0.bytes, a.bytes);
    assert_eq!(entry.nonces.entries[0].1, 4);
}

#[test]
fn empty_parental_state_is_bootstrap() {
    let a = Address::from_key_pair(&tx_keypair(1));
    let b = Address::from_key_pair(&tx_keypair(2));
    let tx = Transaction::new(4, a, b, tx_amount(77), b"genesis", root_parents());
    let from_none = tx.execute(None).unwrap();
    let from_empty = tx.execute(Some(StateEntry::empty())).unwrap();
    assert_eq!(from_none.hash.bytes, from_empty.hash.bytes);
    assert_eq!(from_none.balances.entries.len(), from_empty.balances.entries.len());
}

#[test]
fn execution_is_deterministic() {
    let a = Address::from_key_pair(&tx_keypair(1));
    let b = Address::from_key_pair(&tx_keypair(2));
    let funding = Transaction::new(0, b.copy(), a.copy(), tx_amount(50), b"fund", root_parents());
    let prev = funding.execute(None).unwrap();
    let tx = Transaction::new(1, a, b, tx_amount(20), b"pay", root_parents());
    let first = tx.execute(Some(prev.copy())).unwrap();
    let second = tx.execute(Some(prev)).unwrap();
    assert_eq!(first.hash.bytes, second.hash.bytes);
}

#[test]
fn transfer_moves_value_and_records_nonce() {
    let a = Address::from_key_pair(&tx_keypair(1));
    let b = Address::from_key_pair(&tx_keypair(2));
    let funding = Transaction::new(0, b.copy(), a.copy(), tx_amount(50), b"fund", root_parents());
    let prev = funding.execute(None).unwrap();
    let tx = Transaction::new(1, a.copy(), b.copy(), tx_amount(20), b"pay", root_parents());
    let next = tx.execute(Some(prev)).unwrap();
    let bal = |addr: &Address| {
        next.balances.entries.iter().find(|(k, _)| k.bytes == addr.bytes).map(|(_, v)| amount_value(v)).unwrap()
    };
    assert_eq!(bal(&a), BigUint::from(30u32));
    assert_eq!(bal(&b), BigUint::from(20u32));
    let nonce_a = next.nonces.entries.iter().find(|(k, _)| k.bytes == a.bytes).unwrap().1;
    assert_eq!(nonce_a, 1);
    assert!(next.balances.entries[0].0.bytes < next.balances.entries[1].0.bytes);
}

#[test]
fn overdraft_is_rejected() {
    let a = Address::from_key_pair(&tx_keypair(1));
    let b = Address::from_key_pair(&tx_keypair(2));
    let funding = Transaction::new(0, b.copy(), a.copy(), tx_amount(5), b"fund", root_parents());
    let prev = funding.execute(None).unwrap();
    let tx = Transaction::new(1, a, b, tx_amount(6), b"pay", root_parents());
    assert!(tx.execute(Some(prev)).is_none());
}

#[test]
fn register_parental_state_rehashes_and_records_receipts() {
    let kp = tx_keypair(1);
    let a = Address::from_key_pair(&kp);
    let b = Address::from_key_pair(&tx_keypair(2));
    let mut tx = Transaction::new(0, a.copy(), b.copy(), tx_amount(1), b"p", root_parents());
    sign_transaction(kp, &mut tx).unwrap();
    let before = tx.hash.bytes.clone();
    let merged = StateEntry::bootstrap(&a, &b, &tx_amount(3), 0);
    let merged_hash = merged.hash.bytes.clone();
    let parent = summercash::hash::Hash::new(vec![5; HASH_SIZE]);
    tx.register_parental_state(merged.copy(), vec![(parent, merged)]);
    assert_ne!(tx.hash.bytes, before);
    assert!(tx.signature.is_none());
    assert_eq!(tx.transaction_data.parent_state_hash.as_ref().unwrap().bytes, merged_hash);
    let receipts = tx.transaction_data.parent_receipts.as_ref().unwrap();
    assert_eq!(receipts.associated_transactions[0].bytes, vec![5; HASH_SIZE]);
    assert_eq!(receipts.receipts[0].state_hash.bytes, merged_hash);
    assert_eq!(tx.hash.bytes, blake3::hash(&tx.transaction_data.to_bytes()).as_bytes().to_vec());
}

#[test]
fn new_transaction_is_stamped_with_the_clock() {
    let tx = Transaction::new(0, Address::from_key_pair(&tx_keypair(1)), Address::from_key_pair(&tx_keypair(2)), tx_amount(1), b"p", root_parents());
    assert!(tx.transaction_data.timestamp > 1_500_000_000_000);
}

#[test]
fn attached_signature_is_ed25519_of_the_hash() {
    let kp = tx_keypair(1);
    let expected_public = kp.public.to_bytes().to_vec();
    let mut tx = Transaction::new(0, Address::from_key_pair(&kp), Address::from_key_pair(&tx_keypair(2)), tx_amount(1), b"p", root_parents());
    let expected_signature = kp.sign(&tx.hash.bytes).to_bytes().to_vec();
    sign_transaction(kp, &mut tx).unwrap();
    let sig = tx.signature.as_ref().unwrap();
    assert_eq!(sig.public_key_bytes, expected_public);
    assert_eq!(sig.signature_bytes, expected_signature);
}

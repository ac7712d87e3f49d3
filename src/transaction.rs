use vstd::prelude::*;

use ed25519_dalek::Keypair;

use crate::amount::Amount;
use crate::bytes::{append_len_prefixed, append_u64, len_prefixed, u64_le};
use crate::hash::{address_of, blake3_of, hex_of, Address};
use crate::signature::{
    ed25519_signature_of, keypair_public_bytes, keypair_public_of, keypair_sign, Signature,
};
use crate::state::{
    covers, transfer_balances, transfer_values, StateEntry,
};
use crate::address_map::assoc_set;

verus! {

/// Relies on chrono's `From<SystemTime> for DateTime<Utc>` (which accepts times before the
/// epoch) and DateTime::timestamp_millis: the wall clock in milliseconds since the Unix epoch.
#[verifier::external_body]
pub(crate) fn now_millis() -> (r: i64) {
    chrono::DateTime::<chrono::Utc>::from(std::time::SystemTime::now()).timestamp_millis()
}

/// An error encountered while signing a transaction.
#[derive(Debug)]
pub enum SignatureError {
    /// The key pair's address is not the transaction's sender.
    InvalidAddressPublicKeyCombination { address_hex: String },
    SerializationFailure,
}

/// The state a transaction's sender observed at one parent.
pub struct Receipt {
    pub state_hash: crate::hash::Hash,
    pub logs: Vec<Vec<u8>>,
}

/// Parallel lists linking each parent transaction to the state seen there.
pub struct ReceiptMap {
    pub associated_transactions: Vec<crate::hash::Hash>,
    pub receipts: Vec<Receipt>,
}

/// The signed contents of a transaction.
pub struct TransactionData {
    pub nonce: u64,
    pub sender: Address,
    pub recipient: Address,
    pub value: Amount,
    pub payload: Vec<u8>,
    pub parents: Vec<crate::hash::Hash>,
    pub parent_receipts: Option<ReceiptMap>,
    pub parent_state_hash: Option<crate::hash::Hash>,
    /// Milliseconds since the Unix epoch at construction; informational only.
    pub timestamp: i64,
}

/// A transaction between two addresses, a node of the ledger DAG.
pub struct Transaction {
    pub transaction_data: TransactionData,
    pub hash: crate::hash::Hash,
    pub signature: Option<Signature>,
    pub deployed_contract_address: Option<Address>,
    pub contract_creation: bool,
    pub genesis: bool,
}

pub open spec fn encode_hash_list(s: Seq<crate::hash::Hash>) -> Seq<u8>
    decreases s.len(),
{
    if s.len() == 0 {
        Seq::empty()
    } else {
        encode_hash_list(s.drop_last()) + len_prefixed(s.last()@)
    }
}

pub open spec fn encode_log_list(s: Seq<Vec<u8>>) -> Seq<u8>
    decreases s.len(),
{
    if s.len() == 0 {
        Seq::empty()
    } else {
        encode_log_list(s.drop_last()) + len_prefixed(s.last()@)
    }
}

pub open spec fn encode_receipt(r: Receipt) -> Seq<u8> {
    len_prefixed(r.state_hash@) + u64_le(r.logs.len() as u64) + encode_log_list(r.logs@)
}

pub open spec fn encode_receipt_list(s: Seq<Receipt>) -> Seq<u8>
    decreases s.len(),
{
    if s.len() == 0 {
        Seq::empty()
    } else {
        encode_receipt_list(s.drop_last()) + encode_receipt(s.last())
    }
}

pub open spec fn encode_receipt_map(m: ReceiptMap) -> Seq<u8> {
    u64_le(m.associated_transactions.len() as u64) + encode_hash_list(
        m.associated_transactions@,
    ) + u64_le(m.receipts.len() as u64) + encode_receipt_list(m.receipts@)
}

pub open spec fn encode_option_receipts(o: Option<ReceiptMap>) -> Seq<u8> {
    match o {
        None => seq![0u8],
        Some(m) => seq![1u8] + encode_receipt_map(m),
    }
}

pub open spec fn encode_option_bytes(o: Option<Seq<u8>>) -> Seq<u8> {
    match o {
        None => seq![0u8],
        Some(b) => seq![1u8] + len_prefixed(b),
    }
}

pub open spec fn option_hash_view(o: Option<crate::hash::Hash>) -> Option<Seq<u8>> {
    match o {
        None => None,
        Some(h) => Some(h@),
    }
}

pub open spec fn option_address_view(o: Option<Address>) -> Option<Seq<u8>> {
    match o {
        None => None,
        Some(a) => Some(a@),
    }
}

/// The canonical bytes of a transaction's signed contents, fields in declaration order.
pub open spec fn encode_data(d: TransactionData) -> Seq<u8> {
    u64_le(d.nonce) + len_prefixed(d.sender@) + len_prefixed(d.recipient@) + len_prefixed(
        d.value@,
    ) + len_prefixed(d.payload@) + u64_le(d.parents.len() as u64) + encode_hash_list(d.parents@)
        + encode_option_receipts(d.parent_receipts) + encode_option_bytes(
        option_hash_view(d.parent_state_hash),
    ) + u64_le(d.timestamp as u64)
}

pub open spec fn encode_option_signature(o: Option<Signature>) -> Seq<u8> {
    match o {
        None => seq![0u8],
        Some(s) => seq![1u8] + len_prefixed(s.public_key_bytes@) + len_prefixed(
            s.signature_bytes@,
        ),
    }
}

pub open spec fn encode_bool(b: bool) -> Seq<u8> {
    if b {
        seq![1u8]
    } else {
        seq![0u8]
    }
}

/// The canonical bytes of a whole transaction.
pub open spec fn encode_transaction(t: Transaction) -> Seq<u8> {
    encode_data(t.transaction_data) + len_prefixed(t.hash@) + encode_option_signature(t.signature)
        + encode_option_bytes(option_address_view(t.deployed_contract_address)) + encode_bool(
        t.contract_creation,
    ) + encode_bool(t.genesis)
}

/// The content hash of a transaction's signed contents.
pub open spec fn data_hash(d: TransactionData) -> Seq<u8> {
    blake3_of(encode_data(d))
}

/// The result of executing a transfer against a prior state given as (nonces, balances):
/// against nothing, or against a state without balances, the recipient holds `value` and
/// nothing else is recorded; otherwise the value moves from sender to recipient, and `None`
/// marks a sender short of funds.
pub open spec fn execution(
    d: TransactionData,
    prev: Option<(Seq<(Seq<u8>, u64)>, Seq<(Seq<u8>, Seq<u8>)>)>,
) -> Option<(Seq<(Seq<u8>, u64)>, Seq<(Seq<u8>, Seq<u8>)>)> {
    match prev {
        Some(p) if p.1.len() > 0 => if covers(p.1, d.sender@, d.value@) {
            Some(
                (
                    assoc_set(p.0, d.sender@, d.nonce),
                    transfer_balances(p.1, d.sender@, d.recipient@, d.value@),
                ),
            )
        } else {
            None
        },
        _ => Some((seq![(d.sender@, d.nonce)], seq![(d.recipient@, d.value@)])),
    }
}

pub open spec fn entry_models(e: StateEntry) -> (Seq<(Seq<u8>, u64)>, Seq<(Seq<u8>, Seq<u8>)>) {
    (e.nonces.model(), e.balances.model())
}

pub open spec fn option_entry_models(o: Option<StateEntry>) -> Option<
    (Seq<(Seq<u8>, u64)>, Seq<(Seq<u8>, Seq<u8>)>),
> {
    match o {
        None => None,
        Some(e) => Some(entry_models(e)),
    }
}

/// Two transaction contents that agree on every field but the parental attestation.
pub open spec fn same_transfer(a: TransactionData, b: TransactionData) -> bool {
    &&& a.nonce == b.nonce
    &&& a.sender@ == b.sender@
    &&& a.recipient@ == b.recipient@
    &&& a.value@ == b.value@
    &&& a.payload@ == b.payload@
    &&& a.parents@ == b.parents@
    &&& a.timestamp == b.timestamp
}

/// One receipt per parent, in order, each carrying that parent's state hash and no logs.
pub open spec fn receipts_match(m: ReceiptMap, parents: Seq<(crate::hash::Hash, StateEntry)>) -> bool {
    &&& m.associated_transactions.len() == parents.len()
    &&& m.receipts.len() == parents.len()
    &&& forall|i: int|
        0 <= i < parents.len() ==> (#[trigger] m.associated_transactions@[i])@ == parents[i].0@
            && m.receipts@[i].state_hash@ == parents[i].1.hash@ && m.receipts@[i].logs.len() == 0
}

fn append_hash_list(out: &mut Vec<u8>, hashes: &Vec<crate::hash::Hash>)
    ensures
        final(out)@ == old(out)@ + u64_le(hashes.len() as u64) + encode_hash_list(hashes@),
{
    append_u64(out, hashes.len() as u64);
    let ghost head = out@;
    let mut i: usize = 0;
    while i < hashes.len()
        invariant
            i <= hashes.len(),
            out@ == head + encode_hash_list(hashes@.take(i as int)),
        decreases hashes.len() - i,
    {
        append_len_prefixed(out, &hashes[i].bytes);
        assert(hashes@.take(i + 1).drop_last() =~= hashes@.take(i as int));
        i = i + 1;
    }
    assert(hashes@.take(i as int) =~= hashes@);
}

fn append_receipt(out: &mut Vec<u8>, r: &Receipt)
    ensures
        final(out)@ == old(out)@ + encode_receipt(*r),
{
    append_len_prefixed(out, &r.state_hash.bytes);
    append_u64(out, r.logs.len() as u64);
    let ghost head = out@;
    let mut i: usize = 0;
    while i < r.logs.len()
        invariant
            i <= r.logs.len(),
            out@ == head + encode_log_list(r.logs@.take(i as int)),
        decreases r.logs.len() - i,
    {
        append_len_prefixed(out, &r.logs[i]);
        assert(r.logs@.take(i + 1).drop_last() =~= r.logs@.take(i as int));
        i = i + 1;
    }
    assert(r.logs@.take(i as int) =~= r.logs@);
}

fn append_receipt_map(out: &mut Vec<u8>, m: &ReceiptMap)
    ensures
        final(out)@ == old(out)@ + encode_receipt_map(*m),
{
    append_hash_list(out, &m.associated_transactions);
    append_u64(out, m.receipts.len() as u64);
    let ghost head = out@;
    let mut i: usize = 0;
    while i < m.receipts.len()
        invariant
            i <= m.receipts.len(),
            out@ == head + encode_receipt_list(m.receipts@.take(i as int)),
        decreases m.receipts.len() - i,
    {
        append_receipt(out, &m.receipts[i]);
        assert(m.receipts@.take(i + 1).drop_last() =~= m.receipts@.take(i as int));
        i = i + 1;
    }
    assert(m.receipts@.take(i as int) =~= m.receipts@);
}

fn append_option_bytes(out: &mut Vec<u8>, o: Option<&Vec<u8>>)
    ensures
        final(out)@ == old(out)@ + encode_option_bytes(
            match o {
                None => None,
                Some(b) => Some(b@),
            },
        ),
{
    match o {
        None => {
            out.push(0u8);
        },
        Some(b) => {
            out.push(1u8);
            append_len_prefixed(out, b);
        },
    }
}

fn append_option_signature(out: &mut Vec<u8>, o: &Option<Signature>)
    ensures
        final(out)@ == old(out)@ + encode_option_signature(*o),
{
    match o {
        None => {
            out.push(0u8);
        },
        Some(s) => {
            out.push(1u8);
            append_len_prefixed(out, &s.public_key_bytes);
            append_len_prefixed(out, &s.signature_bytes);
        },
    }
    assert(out@ =~= old(out)@ + encode_option_signature(*o));
}

fn append_bool(out: &mut Vec<u8>, b: bool)
    ensures
        final(out)@ == old(out)@ + encode_bool(b),
{
    if b {
        out.push(1u8);
    } else {
        out.push(0u8);
    }
}

impl TransactionData {
    /// The canonical bytes of these contents.
    pub fn to_bytes(&self) -> (r: Vec<u8>)
        ensures
            r@ == encode_data(*self),
    {
        let mut out: Vec<u8> = Vec::new();
        append_u64(&mut out, self.nonce);
        append_len_prefixed(&mut out, &self.sender.bytes);
        append_len_prefixed(&mut out, &self.recipient.bytes);
        append_len_prefixed(&mut out, &self.value.bytes);
        append_len_prefixed(&mut out, &self.payload);
        append_hash_list(&mut out, &self.parents);
        match &self.parent_receipts {
            None => {
                out.push(0u8);
            },
            Some(m) => {
                out.push(1u8);
                append_receipt_map(&mut out, m);
            },
        }
        match &self.parent_state_hash {
            None => append_option_bytes(&mut out, None),
            Some(h) => append_option_bytes(&mut out, Some(&h.bytes)),
        }
        append_u64(&mut out, self.timestamp as u64);
        assert(out@ =~= encode_data(*self));
        out
    }
}

fn copy_payload(payload: &[u8]) -> (r: Vec<u8>)
    ensures
        r@ == payload@,
{
    let mut r: Vec<u8> = Vec::new();
    let mut i: usize = 0;
    while i < payload.len()
        invariant
            i <= payload@.len(),
            r@ == payload@.take(i as int),
        decreases payload@.len() - i,
    {
        r.push(payload[i]);
        assert(payload@.take(i + 1) =~= payload@.take(i as int).push(payload@[i as int]));
        i = i + 1;
    }
    assert(payload@.take(i as int) =~= payload@);
    r
}

impl Transaction {
    /// Whether the stored hash is the digest of the signed contents.
    pub open spec fn hash_consistent(&self) -> bool {
        self.hash@ == data_hash(self.transaction_data)
    }

    /// Whether a signature is attached, verifies the hash, and belongs to the sender.
    pub open spec fn signature_valid(&self) -> bool {
        match self.signature {
            None => false,
            Some(s) => s.valid_for(self.hash@) && address_of(s.public_key_bytes@)
                == self.transaction_data.sender@,
        }
    }

    /// A fresh unsigned transaction stamped with the given time.
    pub fn with_timestamp(
        nonce: u64,
        sender: Address,
        recipient: Address,
        value_finks: Amount,
        payload: &[u8],
        parents: Vec<crate::hash::Hash>,
        timestamp: i64,
    ) -> (r: Transaction)
        ensures
            r.hash_consistent(),
            r.transaction_data.nonce == nonce,
            r.transaction_data.sender@ == sender@,
            r.transaction_data.recipient@ == recipient@,
            r.transaction_data.value@ == value_finks@,
            r.transaction_data.payload@ == payload@,
            r.transaction_data.parents@ == parents@,
            r.transaction_data.parent_receipts is None,
            r.transaction_data.parent_state_hash is None,
            r.transaction_data.timestamp == timestamp,
            r.signature is None,
            r.deployed_contract_address is None,
            !r.contract_creation,
            !r.genesis,
    {
        let transaction_data = TransactionData {
            nonce,
            sender,
            recipient,
            value: value_finks,
            payload: copy_payload(payload),
            parents,
            parent_receipts: None,
            parent_state_hash: None,
            timestamp,
        };
        let hash = crate::hash::Hash::of(&transaction_data.to_bytes());
        Transaction {
            transaction_data,
            hash,
            signature: None,
            deployed_contract_address: None,
            contract_creation: false,
            genesis: false,
        }
    }

    /// A fresh unsigned transaction stamped with the current time.
    pub fn new(
        nonce: u64,
        sender: Address,
        recipient: Address,
        value_finks: Amount,
        payload: &[u8],
        parents: Vec<crate::hash::Hash>,
    ) -> (r: Transaction)
        ensures
            r.hash_consistent(),
            r.transaction_data.nonce == nonce,
            r.transaction_data.sender@ == sender@,
            r.transaction_data.recipient@ == recipient@,
            r.transaction_data.value@ == value_finks@,
            r.transaction_data.payload@ == payload@,
            r.transaction_data.parents@ == parents@,
            r.transaction_data.parent_receipts is None,
            r.transaction_data.parent_state_hash is None,
            r.signature is None,
            r.deployed_contract_address is None,
            !r.contract_creation,
            !r.genesis,
    {
        let timestamp = now_millis();
        Transaction::with_timestamp(nonce, sender, recipient, value_finks, payload, parents, timestamp)
    }

    /// Recomputes the hash from the signed contents.
    pub fn rehash(&mut self)
        ensures
            final(self).hash_consistent(),
            final(self).transaction_data == old(self).transaction_data,
            final(self).signature == old(self).signature,
            final(self).deployed_contract_address == old(self).deployed_contract_address,
            final(self).contract_creation == old(self).contract_creation,
            final(self).genesis == old(self).genesis,
    {
        self.hash = crate::hash::Hash::of(&self.transaction_data.to_bytes());
    }

    /// Whether the attached signature verifies the hash and belongs to the sender.
    pub fn verify_signature(&self) -> (r: bool)
        ensures
            r == self.signature_valid(),
    {
        match &self.signature {
            None => false,
            Some(signature) => {
                if !signature.verify(&self.hash.bytes) {
                    return false;
                }
                let signer = Address::from_public_key(&signature.public_key_bytes);
                signer.equals(&self.transaction_data.sender)
            },
        }
    }

    /// The state that results from executing this transaction against `prev_entry`; `None`
    /// where the sender cannot cover the value.
    pub fn execute(&self, prev_entry: Option<StateEntry>) -> (r: Option<StateEntry>)
        requires
            prev_entry is Some ==> prev_entry->0.wf(),
        ensures
            r is Some ==> r->0.wf(),
            option_entry_models(r) == execution(
                self.transaction_data,
                option_entry_models(prev_entry),
            ),
            prev_entry is Some && prev_entry->0.balances.model().len() > 0 && r is Some
                ==> transfer_values(
                prev_entry->0.balances.model(),
                r->0.balances.model(),
                self.transaction_data.sender@,
                self.transaction_data.recipient@,
                self.transaction_data.value@,
            ),
    {
        let d = &self.transaction_data;
        match prev_entry {
            Some(entry) => {
                if entry.balances.is_empty() {
                    let e = StateEntry::bootstrap(&d.sender, &d.recipient, &d.value, d.nonce);
                    Some(e)
                } else {
                    entry.transfer(&d.sender, &d.recipient, &d.value, d.nonce)
                }
            },
            None => {
                let e = StateEntry::bootstrap(&d.sender, &d.recipient, &d.value, d.nonce);
                Some(e)
            },
        }
    }

    /// Records the merged parental state and one receipt per parent, then rehashes; any
    /// earlier signature no longer covers the contents and is dropped.
    pub fn register_parental_state(
        &mut self,
        merged_parental_state: StateEntry,
        parent_entries: Vec<(crate::hash::Hash, StateEntry)>,
    )
        ensures
            final(self).hash_consistent(),
            same_transfer(final(self).transaction_data, old(self).transaction_data),
            option_hash_view(final(self).transaction_data.parent_state_hash) == Some(
                merged_parental_state.hash@,
            ),
            final(self).transaction_data.parent_receipts is Some,
            receipts_match(final(self).transaction_data.parent_receipts->0, parent_entries@),
            final(self).signature is None,
            final(self).genesis == old(self).genesis,
            final(self).contract_creation == old(self).contract_creation,
            final(self).deployed_contract_address == old(self).deployed_contract_address,
    {
        self.transaction_data.parent_state_hash = Some(merged_parental_state.hash);
        let mut associated_transactions: Vec<crate::hash::Hash> = Vec::new();
        let mut receipts: Vec<Receipt> = Vec::new();
        let mut i: usize = 0;
        while i < parent_entries.len()
            invariant
                i <= parent_entries.len(),
                associated_transactions.len() == i,
                receipts.len() == i,
                forall|j: int|
                    0 <= j < i ==> (#[trigger] associated_transactions@[j])@
                        == parent_entries@[j].0@ && receipts@[j].state_hash@
                        == parent_entries@[j].1.hash@ && receipts@[j].logs.len() == 0,
            decreases parent_entries.len() - i,
        {
            associated_transactions.push(parent_entries[i].0.copy());
            receipts.push(Receipt { state_hash: parent_entries[i].1.hash.copy(), logs: Vec::new() });
            i = i + 1;
        }
        let m = ReceiptMap { associated_transactions, receipts };
        assert(receipts_match(m, parent_entries@));
        self.transaction_data.parent_receipts = Some(m);
        self.signature = None;
        self.rehash();
    }

    /// The canonical bytes of the whole transaction.
    pub fn to_bytes(&self) -> (r: Vec<u8>)
        ensures
            r@ == encode_transaction(*self),
    {
        let mut out = self.transaction_data.to_bytes();
        append_len_prefixed(&mut out, &self.hash.bytes);
        append_option_signature(&mut out, &self.signature);
        match &self.deployed_contract_address {
            None => append_option_bytes(&mut out, None),
            Some(a) => append_option_bytes(&mut out, Some(&a.bytes)),
        }
        append_bool(&mut out, self.contract_creation);
        append_bool(&mut out, self.genesis);
        assert(out@ =~= encode_transaction(*self));
        out
    }
}

/// Execution is deterministic: transfers that agree on sender, recipient, value and nonce,
/// run against prior states with the same nonces and balances, yield the same nonces, the
/// same balances and the same state hash.
pub proof fn lemma_execution_deterministic(
    d1: TransactionData,
    d2: TransactionData,
    prev1: Option<StateEntry>,
    prev2: Option<StateEntry>,
    r1: Option<StateEntry>,
    r2: Option<StateEntry>,
)
    requires
        d1.sender@ == d2.sender@,
        d1.recipient@ == d2.recipient@,
        d1.value@ == d2.value@,
        d1.nonce == d2.nonce,
        option_entry_models(prev1) == option_entry_models(prev2),
        r1 is Some ==> r1->0.wf(),
        r2 is Some ==> r2->0.wf(),
        option_entry_models(r1) == execution(d1, option_entry_models(prev1)),
        option_entry_models(r2) == execution(d2, option_entry_models(prev2)),
    ensures
        option_entry_models(r1) == option_entry_models(r2),
        r1 is Some ==> r1->0.hash@ == r2->0.hash@,
{
}

/// A prior state without balances is treated as no prior state at all.
pub proof fn lemma_empty_balances_bootstrap(d: TransactionData, nonces: Seq<(Seq<u8>, u64)>)
    ensures
        execution(d, Some((nonces, Seq::empty()))) == execution(d, None),
        execution(d, None) == Some((seq![(d.sender@, d.nonce)], seq![(d.recipient@, d.value@)])),
{
}

/// Signs `transaction` with `keypair`, which must belong to the sender.
pub fn sign_transaction(keypair: Keypair, transaction: &mut Transaction) -> (r: Result<
    (),
    SignatureError,
>)
    ensures
        r is Ok <==> address_of(keypair_public_of(keypair)) == old(
            transaction,
        ).transaction_data.sender@,
        r is Err ==> *final(transaction) == *old(transaction) && match r {
            Err(SignatureError::InvalidAddressPublicKeyCombination { address_hex }) => address_hex@
                == hex_of(address_of(keypair_public_of(keypair))).map_values(|c: u8| c as char),
            _ => false,
        },
        r is Ok ==> {
            &&& final(transaction).transaction_data == old(transaction).transaction_data
            &&& final(transaction).hash == old(transaction).hash
            &&& final(transaction).genesis == old(transaction).genesis
            &&& final(transaction).contract_creation == old(transaction).contract_creation
            &&& final(transaction).deployed_contract_address == old(
                transaction,
            ).deployed_contract_address
            &&& final(transaction).signature is Some
            &&& final(transaction).signature->0.public_key_bytes@ == keypair_public_of(keypair)
            &&& final(transaction).signature->0.signature_bytes@.len() == 64
            &&& final(transaction).signature->0.signature_bytes@ == ed25519_signature_of(
                keypair,
                old(transaction).hash@,
            )
        },
{
    let public_key = keypair_public_bytes(&keypair);
    let derived_sender_address = Address::from_public_key(&public_key);
    if !derived_sender_address.equals(&transaction.transaction_data.sender) {
        return Err(
            SignatureError::InvalidAddressPublicKeyCombination {
                address_hex: derived_sender_address.to_str(),
            },
        );
    }
    let signature_bytes = keypair_sign(&keypair, &transaction.hash.bytes);
    transaction.signature = Some(Signature { public_key_bytes: public_key, signature_bytes });
    Ok(())
}

} // verus!

use vstd::prelude::*;
use vstd::utf8::encode_utf8;

use crate::bytes::{append_bytes, bytes_equal};
use crate::decode::decoded;
use crate::graph::{
    already_executed, lemma_append_idempotent, lemma_appended_same_view, tx_view, Graph, Node,
    OperationError,
};
use crate::proposal::{proposal_id_of, Operation, Proposal, ProposalData, LEDGER_PATH};
use crate::system::{is_ledger_append, proposal_ids, System};
use crate::transaction::{encode_transaction, Transaction};

verus! {

/// Key of the record holding the root transaction's hash.
pub const ROOT_KEY: &'static str = "ledger::transactions::root";

/// Prefix of the keys of records holding a transaction, by hash.
pub const TX_KEY_PREFIX: &'static str = "ledger::transactions::tx::";

/// Prefix of the keys of records holding the hash of a transaction's successor.
pub const NEXT_KEY_PREFIX: &'static str = "ledger::transactions::next::";

/// Name of the proposals made for transactions fetched from peers.
pub const SYNC_PROPOSAL_NAME: &'static str = "sync_child";

pub open spec fn root_key() -> Seq<u8> {
    encode_utf8(ROOT_KEY@)
}

pub open spec fn tx_key(h: Seq<u8>) -> Seq<u8> {
    encode_utf8(TX_KEY_PREFIX@) + h
}

pub open spec fn next_key(h: Seq<u8>) -> Seq<u8> {
    encode_utf8(NEXT_KEY_PREFIX@) + h
}

pub open spec fn has_prefix(s: Seq<u8>, prefix: Seq<u8>) -> bool {
    prefix.len() <= s.len() && s.subrange(0, prefix.len() as int) == prefix
}

/// The quorum for a query: half the known peers, rounded up, and at least one.
pub open spec fn quorum_for(peers: u64) -> u64 {
    if peers <= 1 {
        1
    } else {
        (peers / 2 + peers % 2) as u64
    }
}

/// What the node does next after a record arrives.
pub enum SyncAction {
    /// Ask the network for the record under `key`, answered by `quorum` peers.
    GetRecord { key: Vec<u8>, quorum: u64 },
    /// Nothing follows on this branch.
    Idle,
}

/// Whether `r` asks for the record under `key` with quorum `quorum`.
pub open spec fn asks_for(r: SyncAction, key: Seq<u8>, quorum: u64) -> bool {
    match r {
        SyncAction::GetRecord { key: k, quorum: q } => k@ == key && q == quorum,
        SyncAction::Idle => false,
    }
}

/// The quorum for a query issued now: half the known peers, rounded up, at least one.
pub fn active_subset_quorum(known_peers: u64) -> (r: u64)
    ensures
        r == quorum_for(known_peers),
        r >= 1,
        known_peers >= 1 ==> r <= known_peers,
{
    if known_peers <= 1 {
        1
    } else {
        known_peers / 2 + known_peers % 2
    }
}

fn str_bytes(s: &str) -> (r: Vec<u8>)
    ensures
        r@ == encode_utf8(s@),
{
    let b = s.as_bytes();
    let mut out: Vec<u8> = Vec::new();
    let mut i: usize = 0;
    while i < b.len()
        invariant
            i <= b@.len(),
            out@ == b@.take(i as int),
        decreases b@.len() - i,
    {
        out.push(b[i]);
        assert(b@.take(i + 1) =~= b@.take(i as int).push(b@[i as int]));
        i = i + 1;
    }
    assert(b@.take(i as int) =~= b@);
    out
}

/// The key of the record holding the root transaction's hash.
pub fn root_transaction_key() -> (r: Vec<u8>)
    ensures
        r@ == root_key(),
{
    str_bytes(ROOT_KEY)
}

/// The key of the record holding the transaction with hash `h`.
pub fn transaction_with_hash_key(h: &crate::hash::Hash) -> (r: Vec<u8>)
    ensures
        r@ == tx_key(h@),
{
    let mut out = str_bytes(TX_KEY_PREFIX);
    append_bytes(&mut out, &h.bytes);
    out
}

/// The key of the record holding the hash of the successor of `h`.
pub fn next_transaction_key(h: &crate::hash::Hash) -> (r: Vec<u8>)
    ensures
        r@ == next_key(h@),
{
    let mut out = str_bytes(NEXT_KEY_PREFIX);
    append_bytes(&mut out, &h.bytes);
    out
}

/// Whether `s` begins with `prefix`.
fn starts_with(s: &Vec<u8>, prefix: &Vec<u8>) -> (r: bool)
    ensures
        r == has_prefix(s@, prefix@),
{
    if prefix.len() > s.len() {
        return false;
    }
    let mut i: usize = 0;
    while i < prefix.len()
        invariant
            i <= prefix.len() <= s.len(),
            forall|j: int| 0 <= j < i ==> s@[j] == prefix@[j],
        decreases prefix.len() - i,
    {
        if s[i] != prefix[i] {
            assert(s@.subrange(0, prefix@.len() as int)[i as int] != prefix@[i as int]);
            return false;
        }
        i = i + 1;
    }
    assert(s@.subrange(0, prefix@.len() as int) =~= prefix@);
    true
}

/// What a successful install does: an empty ledger takes the transaction as its genesis;
/// otherwise exactly one node is appended, and the transaction's hash routes afterwards.
pub open spec fn installed(before: &Graph, tx: Transaction, after: &Graph) -> bool {
    &&& before.nodes.len() == 0 ==> after.nodes.len() == 1 && after.nodes@[0].hash@ == tx.hash@
    &&& before.nodes.len() > 0 ==> {
        &&& after.nodes.len() == before.nodes.len() + 1
        &&& after.nodes@.take(before.nodes.len() as int) == before.nodes@
        &&& after.route(tx.hash@) is Some
    }
}

/// Two ledgers with the same nodes and child index.
pub open spec fn unchanged(before: &Graph, after: &Graph) -> bool {
    after.nodes@ == before.nodes@ && after.node_children@ == before.node_children@
}

/// What installing a fetched transaction does to the ledger: an empty ledger takes it as its
/// genesis; a non-empty one is extended by it exactly as `Graph::append_transaction` would.
pub open spec fn sync_effect(before: &Graph, tx: Transaction, after: &Graph) -> bool {
    &&& before.nodes.len() == 0 ==> after.nodes.len() == 1 && after.nodes@[0].hash@ == tx.hash@
        && tx_view(after.nodes@[0].transaction) == tx_view(tx)
    &&& before.nodes.len() > 0 ==> exists|ri: Result<usize, OperationError>|
        Graph::appended(before, tx, ri, after)
}

/// When installing succeeds: on an empty ledger always; otherwise when the transaction can be
/// appended, or is already there.
pub open spec fn install_succeeds(before: &Graph, tx: Transaction) -> bool {
    before.nodes.len() == 0 || before.append_ok(tx) || before.route(tx.hash@) is Some
}

/// The `sync_child` proposal that carries `bytes`.
pub open spec fn sync_proposal(p: Proposal, bytes: Seq<u8>) -> bool {
    &&& p.name@ == SYNC_PROPOSAL_NAME@
    &&& is_ledger_append(p)
    &&& p.data.operation->value_to_append@ == bytes
    &&& p.proposal_id@ == proposal_id_of(p.name@, p.data)
}

/// Sync effects depend on the transaction only through its view.
pub proof fn lemma_sync_effect_same_view(before: &Graph, t1: Transaction, t2: Transaction, after: &Graph)
    requires
        tx_view(t1) == tx_view(t2),
        sync_effect(before, t1, after),
    ensures
        sync_effect(before, t2, after),
{
    if before.nodes.len() > 0 {
        let ri = choose|ri: Result<usize, OperationError>| Graph::appended(before, t1, ri, after);
        lemma_appended_same_view(before, t1, t2, ri, after);
    }
}

/// After an append, the transaction's hash routes exactly when it could be appended or was
/// already present.
proof fn lemma_route_after_append(
    before: &Graph,
    tx: Transaction,
    ri: Result<usize, OperationError>,
    after: &Graph,
)
    requires
        Graph::appended(before, tx, ri, after),
    ensures
        (after.route(tx.hash@) is Some) <==> (before.append_ok(tx) || before.route(tx.hash@) is Some),
{
    if ri is Ok {
        let i = ri->Ok_0 as int;
        assert(after.nodes@[i].hash@ == tx.hash@);
        assert(exists|k: int| 0 <= k < after.nodes.len() && (#[trigger] after.nodes@[k]).hash@ == tx.hash@);
    } else {
        assert(after.route(tx.hash@) == before.route(tx.hash@));
    }
}

/// Appends `tx` to a non-empty ledger through `proposal`, its `sync_child` proposal: pushed
/// and executed; where a proposal with that identifier is already pending, `tx` is appended
/// directly.
#[verifier::rlimit(100)]
fn append_through_proposal(
    system: &mut System,
    proposal: Proposal,
    tx: Transaction,
    tx_bytes: &Vec<u8>,
) -> (r: Result<(), OperationError>)
    requires
        old(system).wf(),
        old(system).ledger.nodes.len() > 0,
        old(system).ledger.nodes.len() < usize::MAX,
        encode_transaction(tx) == tx_bytes@,
        tx_view(tx) == tx_view(decoded(tx_bytes@)),
        sync_proposal(proposal, tx_bytes@),
    ensures
        final(system).wf(),
        exists|ri: Result<usize, OperationError>|
            Graph::appended(&old(system).ledger, tx, ri, &final(system).ledger),
        old(system).pending_index(proposal.proposal_id@) is None ==> (r is Ok
            ==> final(system).pending_index(proposal.proposal_id@) is None),
{
    let ghost p = proposal;
    let ghost before = system.ledger;
    let id = proposal.proposal_id.copy();
    if system.push_proposal(proposal) {
        proof {
            let ps = system.pending_proposals@;
            let last = ps.len() - 1;
            assert(ps[last] == p);
            assert(exists|i: int| 0 <= i < ps.len() && (#[trigger] ps[i]).proposal_id@ == id@);
            let k = choose|i: int| 0 <= i < ps.len() && (#[trigger] ps[i]).proposal_id@ == id@;
            assert(proposal_ids(ps)[k] == proposal_ids(ps)[last]);
            assert(k == last);
            assert(system.pending_index(id@) == Some(last));
            assert(encode_transaction(tx) == tx_bytes@);
        }
        let res = system.execute_proposal(&id);
        proof {
            assert(exists|t2: Transaction, ri: Result<usize, OperationError>|
                encode_transaction(t2) == tx_bytes@ && tx_view(t2) == tx_view(decoded(tx_bytes@))
                    && Graph::appended(&before, t2, ri, &system.ledger) && (res is Ok <==> ri is Ok)
                    && (already_executed(ri) ==> already_executed(res)));
            let (t2, ri) = choose|t2: Transaction, ri: Result<usize, OperationError>|
                encode_transaction(t2) == tx_bytes@ && tx_view(t2) == tx_view(decoded(tx_bytes@))
                    && Graph::appended(&before, t2, ri, &system.ledger) && (res is Ok <==> ri is Ok)
                    && (already_executed(ri) ==> already_executed(res));
            lemma_appended_same_view(&before, t2, tx, ri, &system.ledger);
        }
        res
    } else {
        match system.ledger.append_transaction(tx) {
            Ok(_) => Ok(()),
            Err(e) => Err(e),
        }
    }
}

/// Installs `tx` as the genesis of an empty ledger.
fn install_genesis(system: &mut System, tx: Transaction)
    requires
        old(system).wf(),
        old(system).ledger.nodes.len() == 0,
    ensures
        final(system).wf(),
        sync_effect(&old(system).ledger, tx, &final(system).ledger),
{
    system.ledger.push(tx, None);
}

/// The `sync_child` append proposal carrying `tx_bytes`.
pub fn sync_child_proposal(tx_bytes: &Vec<u8>) -> (r: Proposal)
    ensures
        sync_proposal(r, tx_bytes@),
{
    let mut value_to_append: Vec<u8> = Vec::new();
    append_bytes(&mut value_to_append, tx_bytes);
    assert(value_to_append@ =~= tx_bytes@);
    Proposal::new(
        SYNC_PROPOSAL_NAME.to_owned(),
        ProposalData::new(LEDGER_PATH.to_owned(), Operation::Append { value_to_append }),
    )
}

/// Installs a fetched transaction: as the genesis of an empty ledger, otherwise through a
/// `sync_child` append proposal that is pushed and executed at once.
#[verifier::rlimit(100)]
pub fn install_transaction(system: &mut System, tx: Transaction, tx_bytes: &Vec<u8>) -> (r: Result<
    (),
    OperationError,
>)
    requires
        old(system).wf(),
        old(system).ledger.nodes.len() < usize::MAX,
        encode_transaction(tx) == tx_bytes@,
        tx_view(tx) == tx_view(decoded(tx_bytes@)),
    ensures
        final(system).wf(),
        sync_effect(&old(system).ledger, tx, &final(system).ledger),
        r is Ok <==> install_succeeds(&old(system).ledger, tx),
        r is Ok ==> final(system).ledger.route(tx.hash@) is Some,
        old(system).ledger.nodes.len() > 0 ==> exists|p: Proposal| sync_proposal(p, tx_bytes@),
{
    if system.ledger.nodes.len() == 0 {
        let ghost t = tx;
        install_genesis(system, tx);
        proof {
            assert(system.ledger.nodes@[0].hash@ == t.hash@);
            assert(exists|k: int|
                0 <= k < system.ledger.nodes.len() && (#[trigger] system.ledger.nodes@[k]).hash@
                    == t.hash@);
        }
        return Ok(());
    }
    let h = tx.hash.copy();
    let proposal = sync_child_proposal(tx_bytes);
    let ghost p = proposal;
    let ghost before = system.ledger;
    let ghost tx_g = tx;
    let ghost old_system = *old(system);
    let outcome = append_through_proposal(system, proposal, tx, tx_bytes);
    let routed = system.ledger.index_of(&h).is_some();
    proof {
        let ri = choose|ri: Result<usize, OperationError>| Graph::appended(&before, tx_g, ri, &system.ledger);
        lemma_route_after_append(&before, tx_g, ri, &system.ledger);
        assert(routed == install_succeeds(&before, tx_g));
        assert(sync_effect(&before, tx_g, &system.ledger));
        assert(sync_proposal(p, tx_bytes@) && (old_system.pending_index(p.proposal_id@) is None ==> (
        outcome is Ok ==> system.pending_index(p.proposal_id@) is None)));
    }
    if routed {
        Ok(())
    } else {
        match outcome {
            Err(e) => Err(e),
            Ok(_) => Err(
                OperationError::NoLookupResults {
                    key: h.to_str(),
                    error: "not appended".to_owned(),
                },
            ),
        }
    }
}

/// The hashes of a ledger's nodes, in index order.
pub open spec fn ledger_hashes(g: &Graph) -> Seq<Seq<u8>> {
    g.nodes@.map_values(|n: Node| n.hash@)
}

/// Installs that add the served transactions one by one end with exactly their hashes.
proof fn lemma_installs_converge(ledgers: Seq<Graph>, txs: Seq<Transaction>)
    requires
        ledgers.len() == txs.len() + 1,
        ledgers[0].nodes.len() == 0,
        forall|k: int| 0 <= k < ledgers.len() ==> (#[trigger] ledgers[k]).wf(),
        forall|k: int| 0 <= k < txs.len() ==> installed(&ledgers[k], #[trigger] txs[k], &ledgers[k + 1]),
        forall|i: int, j: int| 0 <= i < txs.len() && 0 <= j < txs.len() && i != j ==> (#[trigger] txs[i]).hash@
            != (#[trigger] txs[j]).hash@,
    ensures
        ledger_hashes(&ledgers.last()) == txs.map_values(|t: Transaction| t.hash@),
    decreases txs.len(),
{
    let n = txs.len() as int;
    if n == 0 {
        assert(ledger_hashes(&ledgers.last()) =~= txs.map_values(|t: Transaction| t.hash@));
    } else {
        let ls = ledgers.drop_last();
        let ts = txs.drop_last();
        assert forall|k: int| 0 <= k < ts.len() implies installed(&ls[k], #[trigger] ts[k], &ls[k + 1]) by {
            assert(installed(&ledgers[k], txs[k], &ledgers[k + 1]));
        }
        assert forall|k: int| 0 <= k < ls.len() implies (#[trigger] ls[k]).wf() by {
            assert(ledgers[k].wf());
        }
        assert forall|i: int, j: int| 0 <= i < ts.len() && 0 <= j < ts.len() && i != j implies (#[trigger] ts[i]).hash@
            != (#[trigger] ts[j]).hash@ by {
            assert(txs[i].hash@ != txs[j].hash@);
        }
        lemma_installs_converge(ls, ts);
        let before = ledgers[n - 1];
        let after = ledgers[n];
        let tx = txs[n - 1];
        assert(installed(&ledgers[n - 1], txs[n - 1], &ledgers[n]));
        let prev = ledger_hashes(&before);
        assert(prev == ts.map_values(|t: Transaction| t.hash@));
        if before.nodes.len() == 0 {
            assert(ts.len() == 0);
            assert(ledger_hashes(&after) =~= txs.map_values(|t: Transaction| t.hash@));
        } else {
            assert(after.nodes.len() == before.nodes.len() + 1);
            let i = after.route(tx.hash@)->0;
            assert(exists|k: int| 0 <= k < after.nodes.len() && (#[trigger] after.nodes@[k]).hash@ == tx.hash@);
            assert(0 <= i < after.nodes.len() && after.nodes@[i].hash@ == tx.hash@);
            if i < before.nodes.len() {
                assert(after.nodes@[i] == before.nodes@[i]);
                assert(prev[i] == ts[i].hash@);
                assert(txs[i].hash@ != txs[n - 1].hash@);
            }
            assert(i == before.nodes.len());
            assert forall|k: int| 0 <= k < after.nodes.len() implies ledger_hashes(&after)[k]
                == txs.map_values(|t: Transaction| t.hash@)[k] by {
                if k < before.nodes.len() {
                    assert(after.nodes@[k] == before.nodes@[k]);
                    assert(prev[k] == ts[k].hash@);
                }
            }
            assert(ledger_hashes(&after) =~= txs.map_values(|t: Transaction| t.hash@));
        }
    }
}

proof fn lemma_effect_installs(before: &Graph, tx: Transaction, after: &Graph)
    requires
        sync_effect(before, tx, after),
        before.nodes.len() == 0 || before.append_ok(tx),
    ensures
        installed(before, tx, after),
{
    if before.nodes.len() > 0 {
        let ri = choose|ri: Result<usize, OperationError>| Graph::appended(before, tx, ri, after);
        lemma_route_after_append(before, tx, ri, after);
    }
}

/// Sync converges: a node that starts empty and installs the transactions a peer serves, in
/// an order where each can be appended when it arrives (distinct hashes, parents first,
/// signed, funded), ends with exactly their hashes, in the order served.
pub proof fn lemma_sync_converges(ledgers: Seq<Graph>, txs: Seq<Transaction>)
    requires
        ledgers.len() == txs.len() + 1,
        ledgers[0].nodes.len() == 0,
        forall|k: int| 0 <= k < ledgers.len() ==> (#[trigger] ledgers[k]).wf(),
        forall|k: int|
            0 <= k < txs.len() ==> sync_effect(&ledgers[k], #[trigger] txs[k], &ledgers[k + 1]),
        forall|k: int|
            0 < k < txs.len() ==> (#[trigger] ledgers[k]).nodes.len() == 0 || ledgers[k].append_ok(
                txs[k],
            ),
        forall|i: int, j: int|
            0 <= i < txs.len() && 0 <= j < txs.len() && i != j ==> (#[trigger] txs[i]).hash@
                != (#[trigger] txs[j]).hash@,
    ensures
        ledger_hashes(&ledgers.last()) == txs.map_values(|t: Transaction| t.hash@),
{
    assert forall|k: int| 0 <= k < txs.len() implies installed(
        &ledgers[k],
        #[trigger] txs[k],
        &ledgers[k + 1],
    ) by {
        assert(sync_effect(&ledgers[k], txs[k], &ledgers[k + 1]));
        if k > 0 {
            assert(ledgers[k].nodes.len() == 0 || ledgers[k].append_ok(txs[k]));
        }
        lemma_effect_installs(&ledgers[k], txs[k], &ledgers[k + 1]);
    }
    lemma_installs_converge(ledgers, txs);
}

/// Handling the same transaction record twice leaves the ledger as the first handling left it.
pub proof fn lemma_replay_unchanged(g0: &Graph, g1: &Graph, g2: &Graph, tx: Transaction)
    requires
        g0.wf(),
        sync_effect(g0, tx, g1),
        sync_effect(g1, tx, g2),
    ensures
        g2.nodes@ == g1.nodes@,
        g2.node_children@ == g1.node_children@,
{
    if g0.nodes.len() == 0 {
        assert(g1.nodes@[0].hash@ == tx.hash@);
        assert(exists|k: int| 0 <= k < g1.nodes.len() && (#[trigger] g1.nodes@[k]).hash@ == tx.hash@);
        let ri = choose|ri: Result<usize, OperationError>| Graph::appended(g1, tx, ri, g2);
        assert(already_executed(ri));
    } else {
        let r1 = choose|ri: Result<usize, OperationError>| Graph::appended(g0, tx, ri, g1);
        if r1 is Ok {
            assert(g1.nodes.len() > 0);
        } else {
            assert(g1.nodes.len() == g0.nodes.len());
        }
        let r2 = choose|ri: Result<usize, OperationError>| Graph::appended(g1, tx, ri, g2);
        lemma_append_idempotent(g0, g1, g2, tx, r1, r2);
    }
}

/// The transition on a record fetched from the network: a root hash leads to its
/// transaction; a transaction is installed and leads to its successor pointer; a successor
/// pointer leads to that transaction. Anything else ends the branch.
pub fn handle_get_record(system: &mut System, key: &Vec<u8>, value: &Vec<u8>, known_peers: u64) -> (r:
    SyncAction)
    requires
        old(system).wf(),
        old(system).ledger.nodes.len() < usize::MAX,
    ensures
        final(system).wf(),
        key@ == root_key() ==> final(system).ledger == old(system).ledger && asks_for(r, tx_key(value@), quorum_for(known_peers)),
        key@ != root_key() && has_prefix(key@, encode_utf8(TX_KEY_PREFIX@)) ==> ((r is Idle) <==> (
        forall|tx: Transaction| encode_transaction(tx) != value@)),
        key@ != root_key() && has_prefix(key@, encode_utf8(TX_KEY_PREFIX@)) && r is Idle
            ==> final(system).ledger == old(system).ledger,
        key@ != root_key() && has_prefix(key@, encode_utf8(TX_KEY_PREFIX@)) && !(r is Idle) ==> {
            let tx = decoded(value@);
            &&& encode_transaction(tx) == value@
            &&& asks_for(r, next_key(tx.hash@), quorum_for(known_peers))
            &&& sync_effect(&old(system).ledger, tx, &final(system).ledger)
            &&& install_succeeds(&old(system).ledger, tx) ==> final(system).ledger.route(tx.hash@)
                is Some
            &&& old(system).ledger.nodes.len() > 0 ==> exists|p: Proposal| sync_proposal(p, value@)
        },
        key@ != root_key() && !has_prefix(key@, encode_utf8(TX_KEY_PREFIX@)) && has_prefix(
            key@,
            encode_utf8(NEXT_KEY_PREFIX@),
        ) ==> final(system).ledger == old(system).ledger && asks_for(r, tx_key(value@), quorum_for(known_peers)),
        key@ != root_key() && !has_prefix(key@, encode_utf8(TX_KEY_PREFIX@)) && !has_prefix(
            key@,
            encode_utf8(NEXT_KEY_PREFIX@),
        ) ==> r is Idle && final(system).ledger == old(system).ledger,
{
    let root = root_transaction_key();
    if bytes_equal(key, &root) {
        let h = crate::hash::Hash::new(crate::bytes::copy_bytes(value));
        return SyncAction::GetRecord {
            key: transaction_with_hash_key(&h),
            quorum: active_subset_quorum(known_peers),
        };
    }
    if starts_with(key, &str_bytes(TX_KEY_PREFIX)) {
        let tx = match Transaction::from_bytes(value) {
            Some(tx) => tx,
            None => {
                return SyncAction::Idle;
            },
        };
        let next = next_transaction_key(&tx.hash);
        let ghost tx_ghost = tx;
        let ghost before = system.ledger;
        let _ = install_transaction(system, tx, value);
        proof {
            let d = decoded(value@);
            assert(encode_transaction(tx_ghost) == value@);
            assert(encode_transaction(d) == value@);
            lemma_sync_effect_same_view(&before, tx_ghost, d, &system.ledger);
            lemma_appended_same_view(&before, tx_ghost, d, Ok(0), &system.ledger);
            assert(install_succeeds(&before, d) == install_succeeds(&before, tx_ghost));
        }
        return SyncAction::GetRecord { key: next, quorum: active_subset_quorum(known_peers) };
    }
    if starts_with(key, &str_bytes(NEXT_KEY_PREFIX)) {
        let h = crate::hash::Hash::new(crate::bytes::copy_bytes(value));
        return SyncAction::GetRecord {
            key: transaction_with_hash_key(&h),
            quorum: active_subset_quorum(known_peers),
        };
    }
    SyncAction::Idle
}

/// Whether a failed store of a record calls for broadcasting the ledger again: always.
pub fn handle_put_record_error(should_broadcast_dag: &mut bool)
    ensures
        *final(should_broadcast_dag),
{
    *should_broadcast_dag = true;
}

} // verus!

use vstd::prelude::*;

use crate::address_map::assoc_get;
use crate::amount::Amount;
use crate::graph::{hash_views, OperationError};
use crate::hash::{ascii_string, Address};
use crate::proposal::{proposal_id_of, Operation, Proposal, ProposalData, LEDGER_PATH};
use crate::system::{is_ledger_append, System};
use crate::transaction::{encode_transaction, option_hash_view, Transaction};
use crate::state::{merged_balances, merged_nonces, state_hash};

verus! {

/// The nonce that follows a sender's last recorded nonce, zero for a new sender.
pub open spec fn next_nonce(nonces: Seq<(Seq<u8>, u64)>, sender: Seq<u8>) -> int {
    match assoc_get(nonces, sender) {
        Some(n) => n + 1,
        None => 0,
    }
}

/// The ledger calls behind the node's DAG interface.
pub struct DagImpl {
    pub runtime: System,
}

impl DagImpl {
    /// The hashes of every transaction in the ledger, in index order.
    pub fn list(&self) -> (r: Vec<crate::hash::Hash>)
        ensures
            r.len() == self.runtime.ledger.nodes.len(),
            forall|i: int|
                0 <= i < r.len() ==> (#[trigger] r@[i])@ == self.runtime.ledger.nodes@[i].hash@,
    {
        let mut out: Vec<crate::hash::Hash> = Vec::new();
        let mut i: usize = 0;
        while i < self.runtime.ledger.nodes.len()
            invariant
                i <= self.runtime.ledger.nodes.len(),
                out.len() == i,
                forall|j: int|
                    0 <= j < i ==> (#[trigger] out@[j])@ == self.runtime.ledger.nodes@[j].hash@,
            decreases self.runtime.ledger.nodes.len() - i,
        {
            out.push(self.runtime.ledger.nodes[i].hash.copy());
            i = i + 1;
        }
        out
    }

    /// A new transaction from `sender` built on the latest executed head: its parent is the head,
    /// its nonce follows the sender's nonce in the head's state, and it attests the merged
    /// state of its parent. Fails when no node has a materialized state or the sender's nonce
    /// cannot grow.
    pub fn create_tx(&self, sender: Address, recipient: Address, value: Amount, payload: &[u8]) -> (r:
        Result<Transaction, OperationError>)
        requires
            self.runtime.wf(),
        ensures
            r is Ok ==> {
                let tx = r->Ok_0;
                &&& tx.hash_consistent()
                &&& tx.transaction_data.sender@ == sender@
                &&& tx.transaction_data.recipient@ == recipient@
                &&& tx.transaction_data.value@ == value@
                &&& tx.transaction_data.payload@ == payload@
                &&& tx.transaction_data.parent_state_hash is Some
                &&& tx.transaction_data.parent_receipts is Some
                &&& tx.transaction_data.parent_receipts->0.associated_transactions.len() == 1
                &&& tx.transaction_data.parent_receipts->0.receipts.len() == 1
                &&& tx.transaction_data.parent_receipts->0.receipts@[0].logs.len() == 0
                &&& hash_views(tx.transaction_data.parent_receipts->0.associated_transactions@)
                    == hash_views(tx.transaction_data.parents@)
                &&& tx.signature is None
                &&& exists|i: int|
                    0 <= i < self.runtime.ledger.nodes.len() && #[trigger] self.runtime.ledger.is_executed_head(i)
                        && hash_views(tx.transaction_data.parents@) == seq![
                        self.runtime.ledger.nodes@[i].hash@,
                    ] && tx.transaction_data.parent_receipts->0.receipts@[0].state_hash@
                        == self.runtime.ledger.nodes@[i].state_entry->0.hash@
                        && option_hash_view(tx.transaction_data.parent_state_hash) == Some(
                        state_hash(
                            merged_nonces(self.runtime.ledger.resolved_views(seq![self.runtime.ledger.nodes@[i].hash@])),
                            merged_balances(self.runtime.ledger.resolved_views(seq![self.runtime.ledger.nodes@[i].hash@])),
                        ),
                    ) && tx.transaction_data.nonce == next_nonce(
                        self.runtime.ledger.nodes@[i].state_entry->0.nonces.model(),
                        sender@,
                    ) && forall|j: int|
                        i < j < self.runtime.ledger.nodes.len()
                            ==> !#[trigger] self.runtime.ledger.is_executed_head(j)
            },
            r is Err ==> (forall|i: int|
                0 <= i < self.runtime.ledger.nodes.len()
                    ==> !#[trigger] self.runtime.ledger.is_executed_head(i)) || exists|i: int|
                0 <= i < self.runtime.ledger.nodes.len() && #[trigger] self.runtime.ledger.is_executed_head(i)
                    && (forall|j: int|
                    i < j < self.runtime.ledger.nodes.len()
                        ==> !#[trigger] self.runtime.ledger.is_executed_head(j)) && next_nonce(
                    self.runtime.ledger.nodes@[i].state_entry->0.nonces.model(),
                    sender@,
                ) > u64::MAX,
    {
        let ledger = &self.runtime.ledger;
        let head = match ledger.obtain_executed_head() {
            Some(h) => h,
            None => {
                return Err(
                    OperationError::NoLookupResults {
                        key: "head".to_owned(),
                        error: "no executed node".to_owned(),
                    },
                );
            },
        };
        let head_entry = match &head.state_entry {
            Some(e) => e,
            None => {
                return Err(
                    OperationError::StateUnresolved { transaction_hash: head.hash.to_str() },
                );
            },
        };
        let nonce: u64 = match head_entry.nonces.get(&sender) {
            Some(last) => {
                if *last == u64::MAX {
                    return Err(
                        OperationError::NoLookupResults {
                            key: sender.to_str(),
                            error: "nonce exhausted".to_owned(),
                        },
                    );
                }
                *last + 1
            },
            None => 0,
        };
        let mut parents: Vec<crate::hash::Hash> = Vec::new();
        parents.push(head.hash.copy());
        proof {
            assert(hash_views(parents@) =~= seq![head.hash@]);
        }
        let mut transaction = Transaction::new(nonce, sender, recipient, value, payload, parents);
        let (merged, parent_entries) = match ledger.resolve_parent_nodes(
            &transaction.transaction_data.parents,
        ) {
            Ok(res) => res,
            Err(e) => {
                return Err(e);
            },
        };
        transaction.register_parental_state(merged, parent_entries);
        Ok(transaction)
    }

    /// Proposes `tx` for the ledger: an append proposal named after its hash, registered for
    /// broadcast.
    pub fn publish_tx(&mut self, tx: &Transaction)
        requires
            old(self).runtime.wf(),
        ensures
            final(self).runtime.wf(),
            final(self).runtime.ledger == old(self).runtime.ledger,
            exists|p: Proposal|
                final(self).runtime.pending_index(p.proposal_id@) is Some && is_ledger_append(p)
                    && p.data.operation->value_to_append@ == encode_transaction(*tx)
                    && p.proposal_id@ == proposal_id_of(p.name@, p.data) && (old(
                    self,
                ).runtime.pending_index(p.proposal_id@) is None ==> final(self).runtime.outbound@.len()
                    > 0 && final(self).runtime.outbound@.last()@ == p.proposal_id@),
    {
        let mut name_bytes: Vec<u8> = Vec::new();
        name_bytes.push(110u8);
        name_bytes.push(101u8);
        name_bytes.push(119u8);
        name_bytes.push(95u8);
        name_bytes.push(116u8);
        name_bytes.push(120u8);
        name_bytes.push(40u8);
        let hex = crate::hash::hex_bytes(&tx.hash.bytes);
        crate::bytes::append_bytes(&mut name_bytes, &hex);
        name_bytes.push(41u8);
        proof {
            assert forall|i: int| 0 <= i < name_bytes@.len() implies name_bytes@[i] < 128 by {
                if 7 <= i < 7 + hex@.len() {
                    assert(name_bytes@[i] == hex@[i - 7]);
                }
            }
        }
        let name = ascii_string(name_bytes);
        let bytes = tx.to_bytes();
        let ghost bytes_view = bytes@;
        let data = ProposalData::new(LEDGER_PATH.to_owned(), Operation::Append { value_to_append: bytes });
        let proposal = Proposal::new(name, data);
        let ghost p = proposal;
        self.runtime.register_proposal(proposal);
        proof {
            let ps = self.runtime.pending_proposals@;
            if old(self).runtime.pending_index(p.proposal_id@) is Some {
                let i = old(self).runtime.pending_index(p.proposal_id@)->0;
                assert(ps[i].proposal_id@ == p.proposal_id@);
            } else {
                assert(ps[ps.len() - 1] == p);
            }
            assert(exists|i: int| 0 <= i < ps.len() && (#[trigger] ps[i]).proposal_id@ == p.proposal_id@);
            assert(self.runtime.pending_index(p.proposal_id@) is Some);
            assert(p.data.operation->value_to_append@ == bytes_view);
            assert(is_ledger_append(p));
        }
    }
}

} // verus!

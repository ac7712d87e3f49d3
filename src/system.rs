use vstd::prelude::*;

use crate::decode::decoded;
use crate::graph::{already_executed, tx_view, Graph, OperationError};
use crate::proposal::{Operation, Proposal, LEDGER_PATH};
use crate::transaction::{encode_transaction, Transaction};

verus! {

/// The identifiers of a list of proposals.
pub open spec fn proposal_ids(ps: Seq<Proposal>) -> Seq<Seq<u8>> {
    ps.map_values(|p: Proposal| p.proposal_id@)
}

pub open spec fn ids_unique(ids: Seq<Seq<u8>>) -> bool {
    forall|i: int, j: int| 0 <= i < ids.len() && 0 <= j < ids.len() && i != j ==> ids[i] != ids[j]
}

/// Whether a proposal is an append to the ledger's transactions.
pub open spec fn is_ledger_append(p: Proposal) -> bool {
    p.data.path@ == LEDGER_PATH@ && p.data.operation is Append
}

/// A node's ledger together with the proposals it holds.
pub struct System {
    pub ledger: Graph,
    pub pending_proposals: Vec<Proposal>,
    /// Identifiers of proposals marked for broadcast.
    pub outbound: Vec<crate::hash::Hash>,
    /// Identifiers of proposals already executed.
    pub executed: Vec<crate::hash::Hash>,
}

impl System {
    pub open spec fn wf(&self) -> bool {
        &&& self.ledger.wf()
        &&& ids_unique(proposal_ids(self.pending_proposals@))
    }

    /// The position of the pending proposal with identifier `id`.
    pub open spec fn pending_index(&self, id: Seq<u8>) -> Option<int> {
        if exists|i: int|
            0 <= i < self.pending_proposals.len() && (#[trigger] self.pending_proposals@[i]).proposal_id@
                == id {
            Some(
                choose|i: int|
                    0 <= i < self.pending_proposals.len() && (#[trigger] self.pending_proposals@[
                        i
                    ]).proposal_id@ == id,
            )
        } else {
            None
        }
    }

    pub fn new(ledger: Graph) -> (r: System)
        requires
            ledger.wf(),
        ensures
            r.wf(),
            r.ledger == ledger,
            r.pending_proposals.len() == 0,
    {
        let r = System {
            ledger,
            pending_proposals: Vec::new(),
            outbound: Vec::new(),
            executed: Vec::new(),
        };
        assert(proposal_ids(r.pending_proposals@) =~= Seq::<Seq<u8>>::empty());
        r
    }

    fn find_pending(&self, id: &crate::hash::Hash) -> (r: Option<usize>)
        requires
            self.wf(),
        ensures
            r is None <==> self.pending_index(id@) is None,
            r is Some ==> self.pending_index(id@) == Some(r->0 as int),
    {
        let mut i: usize = 0;
        while i < self.pending_proposals.len()
            invariant
                self.wf(),
                i <= self.pending_proposals.len(),
                forall|j: int|
                    0 <= j < i ==> (#[trigger] self.pending_proposals@[j]).proposal_id@ != id@,
            decreases self.pending_proposals.len() - i,
        {
            if self.pending_proposals[i].proposal_id.equals(id) {
                proof {
                    let ids = proposal_ids(self.pending_proposals@);
                    assert(self.pending_proposals@[i as int].proposal_id@ == id@);
                    let k = choose|k: int|
                        0 <= k < self.pending_proposals.len() && (#[trigger] self.pending_proposals@[
                            k
                        ]).proposal_id@ == id@;
                    assert(ids[k] == ids[i as int]);
                }
                return Some(i);
            }
            i = i + 1;
        }
        None
    }

    /// Adds `proposal` to the pending set; a proposal whose identifier is already pending
    /// leaves the set as it is. Returns whether it was added.
    pub fn push_proposal(&mut self, proposal: Proposal) -> (r: bool)
        requires
            old(self).wf(),
        ensures
            final(self).wf(),
            final(self).ledger == old(self).ledger,
            r == (old(self).pending_index(proposal.proposal_id@) is None),
            !r ==> final(self).pending_proposals@ == old(self).pending_proposals@,
            r ==> final(self).pending_proposals@ == old(self).pending_proposals@.push(proposal),
            final(self).outbound@ == old(self).outbound@,
            final(self).executed@ == old(self).executed@,
    {
        if self.find_pending(&proposal.proposal_id).is_some() {
            return false;
        }
        let ghost before = self.pending_proposals@;
        self.pending_proposals.push(proposal);
        proof {
            let ids = proposal_ids(self.pending_proposals@);
            assert forall|i: int, j: int| 0 <= i < ids.len() && 0 <= j < ids.len() && i != j implies ids[i]
                != ids[j] by {
                if i < before.len() && j < before.len() {
                    assert(ids[i] == proposal_ids(before)[i]);
                    assert(ids[j] == proposal_ids(before)[j]);
                } else if i < before.len() {
                    assert(before[i] == self.pending_proposals@[i]);
                } else {
                    assert(before[j] == self.pending_proposals@[j]);
                }
            }
        }
        true
    }

    /// Adds `proposal` to the pending set and marks it for broadcast.
    pub fn register_proposal(&mut self, proposal: Proposal)
        requires
            old(self).wf(),
        ensures
            final(self).wf(),
            final(self).ledger == old(self).ledger,
            old(self).pending_index(proposal.proposal_id@) is Some ==> final(self).pending_proposals@
                == old(self).pending_proposals@ && final(self).outbound@ == old(self).outbound@,
            old(self).pending_index(proposal.proposal_id@) is None ==> final(self).pending_proposals@
                == old(self).pending_proposals@.push(proposal) && final(self).outbound@.len()
                == old(self).outbound@.len() + 1 && final(self).outbound@.last()@
                == proposal.proposal_id@,
    {
        let id = proposal.proposal_id.copy();
        if self.push_proposal(proposal) {
            self.outbound.push(id);
        }
    }

    /// Whether the identifier `id` is among the executed ones.
    pub open spec fn executed_contains(&self, id: Seq<u8>) -> bool {
        exists|k: int| 0 <= k < self.executed.len() && (#[trigger] self.executed@[k])@ == id
    }

    fn was_executed(&self, id: &crate::hash::Hash) -> (r: bool)
        ensures
            r == self.executed_contains(id@),
    {
        let mut k: usize = 0;
        while k < self.executed.len()
            invariant
                k <= self.executed.len(),
                forall|j: int| 0 <= j < k ==> (#[trigger] self.executed@[j])@ != id@,
            decreases self.executed.len() - k,
        {
            if self.executed[k].equals(id) {
                return true;
            }
            k = k + 1;
        }
        false
    }

    /// The transaction that the pending proposal at `index` appends to the ledger.
    fn pending_transaction(&self, index: usize) -> (r: Result<Transaction, OperationError>)
        requires
            index < self.pending_proposals.len(),
        ensures
            !is_ledger_append(self.pending_proposals@[index as int]) ==> r is Err,
            is_ledger_append(self.pending_proposals@[index as int]) ==> ((r matches Err(
                OperationError::Serialization,
            ) && forall|tx: Transaction|
                encode_transaction(tx)
                    != self.pending_proposals@[index as int].data.operation->value_to_append@) || (r is Ok
                && encode_transaction(r->Ok_0)
                == self.pending_proposals@[index as int].data.operation->value_to_append@
                && tx_view(r->Ok_0) == tx_view(
                decoded(self.pending_proposals@[index as int].data.operation->value_to_append@),
            ))),
    {
        let proposal = &self.pending_proposals[index];
        let path_matches = proposal.data.path == LEDGER_PATH.to_owned();
        match &proposal.data.operation {
            Operation::Append { value_to_append } => {
                if !path_matches {
                    return Err(OperationError::UnknownTarget { path: proposal.data.path.clone() });
                }
                match Transaction::from_bytes(value_to_append) {
                    Some(tx) => Ok(tx),
                    None => Err(OperationError::Serialization),
                }
            },
            _ => Err(OperationError::UnknownTarget { path: proposal.data.path.clone() }),
        }
    }

    /// Moves the pending proposal at `index` to the executed list.
    fn retire(&mut self, index: usize)
        requires
            old(self).wf(),
            index < old(self).pending_proposals.len(),
        ensures
            final(self).wf(),
            final(self).ledger == old(self).ledger,
            final(self).pending_index(old(self).pending_proposals@[index as int].proposal_id@) is None,
    {
        let ghost before = self.pending_proposals@;
        let ghost id = before[index as int].proposal_id@;
        let removed = self.pending_proposals.remove(index);
        self.executed.push(removed.proposal_id);
        proof {
            let ids0 = proposal_ids(before);
            let ids = proposal_ids(self.pending_proposals@);
            assert forall|i: int| 0 <= i < ids.len() implies #[trigger] ids[i] == if i < index {
                ids0[i]
            } else {
                ids0[i + 1]
            } by {}
            assert(ids_unique(ids));
            assert forall|i: int| 0 <= i < self.pending_proposals.len() implies (
            #[trigger] self.pending_proposals@[i]).proposal_id@ != id by {
                assert(ids0[index as int] == id);
                if i < index {
                    assert(ids[i] == ids0[i]);
                } else {
                    assert(ids[i] == ids0[i + 1]);
                }
            }
        }
    }

    /// Executes the pending proposal `id`. An append of a transaction to the ledger decodes
    /// the transaction and appends it as `Graph::append_transaction` does; once it is in the
    /// ledger, the proposal leaves the pending set. Any other target is rejected.
    pub fn execute_proposal(&mut self, id: &crate::hash::Hash) -> (r: Result<(), OperationError>)
        requires
            old(self).wf(),
            old(self).ledger.nodes.len() < usize::MAX,
        ensures
            final(self).wf(),
            r is Ok ==> final(self).pending_index(id@) is None,
            old(self).pending_index(id@) is None ==> r is Err && final(self).ledger
                == old(self).ledger,
            old(self).pending_index(id@) is None ==> (already_executed(r) <==> old(
                self,
            ).executed_contains(id@)),
            old(self).pending_index(id@) is Some && !is_ledger_append(
                old(self).pending_proposals@[old(self).pending_index(id@)->0],
            ) ==> r is Err && final(self).ledger == old(self).ledger,
            old(self).pending_index(id@) is Some && is_ledger_append(
                old(self).pending_proposals@[old(self).pending_index(id@)->0],
            ) ==> {
                let v = old(self).pending_proposals@[old(self).pending_index(
                    id@,
                )->0].data.operation->value_to_append;
                ||| (r matches Err(OperationError::Serialization) && final(self).ledger
                    == old(self).ledger && forall|tx: Transaction| encode_transaction(tx) != v@)
                ||| exists|tx: Transaction, ri: Result<usize, OperationError>|
                    encode_transaction(tx) == v@ && tx_view(tx) == tx_view(decoded(v@))
                        && Graph::appended(&old(self).ledger, tx, ri, &final(self).ledger) && (r is Ok
                        <==> ri is Ok) && (already_executed(ri) ==> already_executed(r))
            },
    {
        let index = match self.find_pending(id) {
            Some(i) => i,
            None => {
                if self.was_executed(id) {
                    return Err(OperationError::AlreadyExecuted { transaction_hash: id.to_str() });
                }
                return Err(
                    OperationError::NoLookupResults {
                        key: id.to_str(),
                        error: "no pending proposal".to_owned(),
                    },
                );
            },
        };
        let tx = match self.pending_transaction(index) {
            Ok(tx) => tx,
            Err(e) => {
                return Err(e);
            },
        };
        let ghost old_ledger = self.ledger;
        let ghost tx_ghost = tx;
        let result = self.ledger.append_transaction(tx);
        let done = match &result {
            Ok(_) => true,
            Err(OperationError::AlreadyExecuted { .. }) => true,
            Err(_) => false,
        };
        if done {
            self.retire(index);
        }
        assert(Graph::appended(&old_ledger, tx_ghost, result, &self.ledger));
        match result {
            Ok(_) => Ok(()),
            Err(e) => Err(e),
        }
    }
}

} // verus!

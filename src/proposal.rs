use vstd::prelude::*;
use vstd::utf8::encode_utf8;

use crate::bytes::{append_len_prefixed, len_prefixed};
use crate::hash::blake3_of;
use crate::vote::Vote;

verus! {

/// The path under which proposals append transactions to the ledger.
pub const LEDGER_PATH: &'static str = "ledger::transactions";

/// What a proposal does at its path.
pub enum Operation {
    Append { value_to_append: Vec<u8> },
    Amend { value: Vec<u8> },
    Remove,
}

/// The target and operation of a proposal.
pub struct ProposalData {
    pub path: String,
    pub operation: Operation,
}

/// A named intent to change the data at a path, identified by its contents.
pub struct Proposal {
    pub proposal_id: crate::hash::Hash,
    pub name: String,
    pub data: ProposalData,
    pub votes: Vec<Vote>,
    /// Milliseconds since the Unix epoch at construction; not part of the identifier.
    pub created_at: i64,
}

pub open spec fn encode_operation(o: Operation) -> Seq<u8> {
    match o {
        Operation::Append { value_to_append } => seq![0u8] + len_prefixed(value_to_append@),
        Operation::Amend { value } => seq![1u8] + len_prefixed(value@),
        Operation::Remove => seq![2u8],
    }
}

/// The canonical bytes of a proposal's name and data.
pub open spec fn encode_proposal(name: Seq<char>, data: ProposalData) -> Seq<u8> {
    len_prefixed(encode_utf8(name)) + len_prefixed(encode_utf8(data.path@)) + encode_operation(
        data.operation,
    )
}

/// The identifier of a proposal with this name and data.
pub open spec fn proposal_id_of(name: Seq<char>, data: ProposalData) -> Seq<u8> {
    blake3_of(encode_proposal(name, data))
}

/// The UTF-8 bytes of a string.
pub fn string_bytes(s: &String) -> (r: Vec<u8>)
    ensures
        r@ == encode_utf8(s@),
{
    let b = s.as_str().as_bytes();
    let mut out: Vec<u8> = Vec::new();
    let mut i: usize = 0;
    while i < b.len()
        invariant
            i <= b@.len(),
            out@ == b@.take(i as int),
        decreases b@.len() - i,
    {
        out.push(b[i]);
        assert(b@.take(i + 1) =~= b@.take(i as int).push(b@[i as int]));
        i = i + 1;
    }
    assert(b@.take(i as int) =~= b@);
    out
}

impl ProposalData {
    pub fn new(path: String, operation: Operation) -> (r: ProposalData)
        ensures
            r.path@ == path@,
            r.operation == operation,
    {
        ProposalData { path, operation }
    }

    /// The canonical bytes of a proposal's name and this data.
    fn encode_with_name(&self, name: &String) -> (r: Vec<u8>)
        ensures
            r@ == encode_proposal(name@, *self),
    {
        let mut out: Vec<u8> = Vec::new();
        append_len_prefixed(&mut out, &string_bytes(name));
        append_len_prefixed(&mut out, &string_bytes(&self.path));
        match &self.operation {
            Operation::Append { value_to_append } => {
                out.push(0u8);
                append_len_prefixed(&mut out, value_to_append);
            },
            Operation::Amend { value } => {
                out.push(1u8);
                append_len_prefixed(&mut out, value);
            },
            Operation::Remove => {
                out.push(2u8);
            },
        }
        assert(out@ =~= encode_proposal(name@, *self));
        out
    }
}

impl Proposal {
    /// A proposal stamped with the given time; its identifier is the digest of its name and
    /// data.
    pub fn with_timestamp(name: String, data: ProposalData, created_at: i64) -> (r: Proposal)
        ensures
            r.proposal_id@ == proposal_id_of(name@, data),
            r.name@ == name@,
            r.data == data,
            r.votes.len() == 0,
            r.created_at == created_at,
    {
        let bytes = data.encode_with_name(&name);
        Proposal {
            proposal_id: crate::hash::Hash::of(&bytes),
            name,
            data,
            votes: Vec::new(),
            created_at,
        }
    }

    /// A proposal stamped with the current time.
    pub fn new(name: String, data: ProposalData) -> (r: Proposal)
        ensures
            r.proposal_id@ == proposal_id_of(name@, data),
            r.name@ == name@,
            r.data == data,
            r.votes.len() == 0,
    {
        let created_at = crate::transaction::now_millis();
        Proposal::with_timestamp(name, data, created_at)
    }
}

/// Proposals whose name and data have the same canonical bytes get the same identifier.
pub proof fn lemma_proposal_id_determined(
    name1: Seq<char>,
    data1: ProposalData,
    name2: Seq<char>,
    data2: ProposalData,
)
    requires
        encode_proposal(name1, data1) == encode_proposal(name2, data2),
    ensures
        proposal_id_of(name1, data1) == proposal_id_of(name2, data2),
{
}

} // verus!

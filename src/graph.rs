use vstd::prelude::*;

use crate::bytes::{append_len_prefixed, bytes_equal, len_prefixed};
use crate::hash::hex_of;
use crate::state::{entry_view, merged_balances, merged_nonces, parent_views, StateEntry};
use crate::transaction::{encode_data, encode_transaction, entry_models, execution, Transaction};
use crate::state::{encode_state, encode_state_bytes};

verus! {

/// An error met while reading or extending the graph.
#[derive(Debug)]
pub enum OperationError {
    /// No node answers to the key.
    NoLookupResults { key: String, error: String },
    /// The transaction's state has already been resolved.
    AlreadyExecuted { transaction_hash: String },
    /// A proposal names a path that nothing handles.
    UnknownTarget { path: String },
    /// A parent's state entry is not materialized.
    StateUnresolved { transaction_hash: String },
    /// A signature does not verify, or does not belong to the sender.
    InvalidSignature { transaction_hash: String },
    /// The sender's balance does not cover the value.
    InsufficientBalance { transaction_hash: String },
    /// A non-genesis transaction names no parent.
    NoParents { transaction_hash: String },
    /// Bytes do not decode.
    Serialization,
}

/// A vertex of the ledger DAG: a transaction and, once executed and loaded, its state.
pub struct Node {
    pub transaction: Transaction,
    pub state_entry: Option<StateEntry>,
    pub hash: crate::hash::Hash,
}

impl Node {
    pub fn new(transaction: Transaction, state_entry: Option<StateEntry>) -> (r: Node)
        ensures
            r.transaction == transaction,
            r.state_entry == state_entry,
            r.hash@ == transaction.hash@,
    {
        let hash = transaction.hash.copy();
        Node { transaction, state_entry, hash }
    }

    /// Whether the node's hash is its transaction's hash.
    pub fn verify_contents(&self) -> (r: bool)
        ensures
            r == (self.hash@ == self.transaction.hash@),
    {
        bytes_equal(&self.transaction.hash.bytes, &self.hash.bytes)
    }

    /// Whether the hashes agree and the transaction carries a valid signature of its sender.
    pub fn perform_validity_checks(&self) -> (r: bool)
        ensures
            r == (self.hash@ == self.transaction.hash@ && self.transaction.signature_valid()),
    {
        if self.verify_contents() {
            self.transaction.verify_signature()
        } else {
            false
        }
    }
}

/// The stored bytes of an optional state: a tag, then the state and its hash.
pub open spec fn encode_option_state(o: Option<StateEntry>) -> Seq<u8> {
    match o {
        None => seq![0u8],
        Some(e) => seq![1u8] + encode_state(e.nonces.model(), e.balances.model()) + len_prefixed(
            e.hash@,
        ),
    }
}

/// The stored bytes of a node: its transaction, its optional state, its hash.
pub open spec fn encode_node(n: Node) -> Seq<u8> {
    encode_transaction(n.transaction) + encode_option_state(n.state_entry) + len_prefixed(n.hash@)
}

impl Node {
    /// The stored bytes of this node.
    pub fn to_bytes(&self) -> (r: Vec<u8>)
        ensures
            r@ == encode_node(*self),
    {
        let mut out = self.transaction.to_bytes();
        match &self.state_entry {
            None => {
                out.push(0u8);
            },
            Some(e) => {
                out.push(1u8);
                let state = encode_state_bytes(&e.nonces, &e.balances);
                crate::bytes::append_bytes(&mut out, &state);
                append_len_prefixed(&mut out, &e.hash.bytes);
            },
        }
        append_len_prefixed(&mut out, &self.hash.bytes);
        assert(out@ =~= encode_node(*self));
        out
    }
}

pub open spec fn hash_views(s: Seq<crate::hash::Hash>) -> Seq<Seq<u8>> {
    s.map_values(|x: crate::hash::Hash| x@)
}

/// The parent hashes a node's transaction names.
pub open spec fn node_parents(n: Node) -> Seq<Seq<u8>> {
    hash_views(n.transaction.transaction_data.parents@)
}

/// The child index as (parent hash, child hashes) pairs.
pub open spec fn children_view(s: Seq<(crate::hash::Hash, Vec<crate::hash::Hash>)>) -> Seq<
    (Seq<u8>, Seq<Seq<u8>>),
> {
    s.map_values(|e: (crate::hash::Hash, Vec<crate::hash::Hash>)| (e.0@, hash_views(e.1@)))
}

pub open spec fn keys_unique(c: Seq<(Seq<u8>, Seq<Seq<u8>>)>) -> bool {
    forall|i: int, j: int| 0 <= i < c.len() && 0 <= j < c.len() && i != j ==> c[i].0 != c[j].0
}

/// `h` recorded as a child of `p`: appended to `p`'s list, or a new list after the others.
pub open spec fn add_child(c: Seq<(Seq<u8>, Seq<Seq<u8>>)>, p: Seq<u8>, h: Seq<u8>) -> Seq<
    (Seq<u8>, Seq<Seq<u8>>),
> {
    if exists|i: int| 0 <= i < c.len() && c[i].0 == p {
        let i = choose|i: int| 0 <= i < c.len() && c[i].0 == p;
        c.update(i, (p, c[i].1.push(h)))
    } else {
        c.push((p, seq![h]))
    }
}

/// `h` recorded as a child of each of `parents`, in order.
pub open spec fn add_children(c: Seq<(Seq<u8>, Seq<Seq<u8>>)>, parents: Seq<Seq<u8>>, h: Seq<u8>) -> Seq<
    (Seq<u8>, Seq<Seq<u8>>),
>
    decreases parents.len(),
{
    if parents.len() == 0 {
        c
    } else {
        add_child(add_children(c, parents.drop_last(), h), parents.last(), h)
    }
}

/// The child index of a node list: each node recorded under each of its parents, in order.
pub open spec fn derived_children(nodes: Seq<Node>) -> Seq<(Seq<u8>, Seq<Seq<u8>>)>
    decreases nodes.len(),
{
    if nodes.len() == 0 {
        Seq::empty()
    } else {
        add_children(derived_children(nodes.drop_last()), node_parents(nodes.last()), nodes.last().hash@)
    }
}

proof fn lemma_add_child_unique(c: Seq<(Seq<u8>, Seq<Seq<u8>>)>, p: Seq<u8>, h: Seq<u8>)
    requires
        keys_unique(c),
    ensures
        keys_unique(add_child(c, p, h)),
{
}

proof fn lemma_add_children_unique(c: Seq<(Seq<u8>, Seq<Seq<u8>>)>, parents: Seq<Seq<u8>>, h: Seq<u8>)
    requires
        keys_unique(c),
    ensures
        keys_unique(add_children(c, parents, h)),
    decreases parents.len(),
{
    if parents.len() > 0 {
        lemma_add_children_unique(c, parents.drop_last(), h);
        lemma_add_child_unique(add_children(c, parents.drop_last(), h), parents.last(), h);
    }
}

pub proof fn lemma_derived_children_unique(nodes: Seq<Node>)
    ensures
        keys_unique(derived_children(nodes)),
    decreases nodes.len(),
{
    if nodes.len() > 0 {
        lemma_derived_children_unique(nodes.drop_last());
        lemma_add_children_unique(
            derived_children(nodes.drop_last()),
            node_parents(nodes.last()),
            nodes.last().hash@,
        );
    }
}

pub proof fn lemma_children_view_push(
    s: Seq<(crate::hash::Hash, Vec<crate::hash::Hash>)>,
    x: (crate::hash::Hash, Vec<crate::hash::Hash>),
)
    ensures
        children_view(s.push(x)) == children_view(s).push((x.0@, hash_views(x.1@))),
{
    assert(children_view(s.push(x)) =~= children_view(s).push((x.0@, hash_views(x.1@))));
}

pub proof fn lemma_hash_views_push(s: Seq<crate::hash::Hash>, x: crate::hash::Hash)
    ensures
        hash_views(s.push(x)) == hash_views(s).push(x@),
{
    assert(hash_views(s.push(x)) =~= hash_views(s).push(x@));
}

fn copy_hashes(s: &Vec<crate::hash::Hash>) -> (r: Vec<crate::hash::Hash>)
    ensures
        hash_views(r@) == hash_views(s@),
{
    let mut r: Vec<crate::hash::Hash> = Vec::new();
    let mut i: usize = 0;
    while i < s.len()
        invariant
            i <= s.len(),
            hash_views(r@) == hash_views(s@.take(i as int)),
        decreases s.len() - i,
    {
        let ghost prev = r@;
        let x = s[i].copy();
        r.push(x);
        proof {
            lemma_hash_views_push(prev, x);
            lemma_hash_views_push(s@.take(i as int), s@[i as int]);
            assert(s@.take(i + 1) =~= s@.take(i as int).push(s@[i as int]));
        }
        i = i + 1;
    }
    assert(s@.take(i as int) =~= s@);
    r
}

fn add_child_exec(
    children: &mut Vec<(crate::hash::Hash, Vec<crate::hash::Hash>)>,
    p: &crate::hash::Hash,
    h: &crate::hash::Hash,
)
    requires
        keys_unique(children_view(old(children)@)),
    ensures
        children_view(final(children)@) == add_child(children_view(old(children)@), p@, h@),
{
    let ghost c = children_view(children@);
    let mut i: usize = 0;
    while i < children.len()
        invariant
            i <= children.len(),
            c == children_view(children@),
            c == children_view(old(children)@),
            keys_unique(c),
            forall|j: int| 0 <= j < i ==> c[j].0 != p@,
        decreases children.len() - i,
    {
        assert(c[i as int].0 == children@[i as int].0@);
        if children[i].0.equals(p) {
            let mut list = copy_hashes(&children[i].1);
            let ghost prev_list = list@;
            let x = h.copy();
            list.push(x);
            proof {
                lemma_hash_views_push(prev_list, x);
                assert(c[i as int].0 == p@);
                assert(exists|k: int| 0 <= k < c.len() && c[k].0 == p@);
                let k = choose|k: int| 0 <= k < c.len() && c[k].0 == p@;
                assert(k == i);
                assert(add_child(c, p@, h@) == c.update(i as int, (p@, c[i as int].1.push(h@))));
            }
            children.set(i, (p.copy(), list));
            assert(children_view(children@) =~= c.update(i as int, (p@, c[i as int].1.push(h@))));
            return;
        }
        i = i + 1;
    }
    let ghost prev = children@;
    let mut list: Vec<crate::hash::Hash> = Vec::new();
    list.push(h.copy());
    assert(hash_views(list@) =~= seq![h@]);
    children.push((p.copy(), list));
    proof {
        lemma_children_view_push(prev, children@.last());
    }
}

fn add_children_exec(
    children: &mut Vec<(crate::hash::Hash, Vec<crate::hash::Hash>)>,
    parents: &Vec<crate::hash::Hash>,
    h: &crate::hash::Hash,
)
    requires
        keys_unique(children_view(old(children)@)),
    ensures
        children_view(final(children)@) == add_children(
            children_view(old(children)@),
            hash_views(parents@),
            h@,
        ),
        keys_unique(children_view(final(children)@)),
{
    let ghost c0 = children_view(children@);
    let ghost ps = hash_views(parents@);
    let mut i: usize = 0;
    assert(ps.take(0) =~= Seq::<Seq<u8>>::empty());
    while i < parents.len()
        invariant
            i <= parents.len(),
            ps == hash_views(parents@),
            children_view(children@) == add_children(c0, ps.take(i as int), h@),
            keys_unique(children_view(children@)),
        decreases parents.len() - i,
    {
        add_child_exec(children, &parents[i], h);
        assert(ps.take(i + 1).drop_last() =~= ps.take(i as int));
        proof {
            lemma_add_child_unique(add_children(c0, ps.take(i as int), h@), ps[i as int], h@);
        }
        i = i + 1;
    }
    assert(ps.take(i as int) =~= ps);
}

/// The ledger DAG: nodes in insertion order, with the child index derived from them.
/// A hash routes to the index of the node that holds it.
pub struct Graph {
    pub nodes: Vec<Node>,
    pub node_children: Vec<(crate::hash::Hash, Vec<crate::hash::Hash>)>,
}

impl Graph {
    pub open spec fn wf(&self) -> bool {
        &&& forall|i: int|
            0 <= i < self.nodes.len() ==> (#[trigger] self.nodes@[i]).hash@
                == self.nodes@[i].transaction.hash@
        &&& forall|i: int, j: int|
            0 <= i < self.nodes.len() && 0 <= j < self.nodes.len() && i != j ==> (
            #[trigger] self.nodes@[i]).hash@ != (#[trigger] self.nodes@[j]).hash@
        &&& forall|i: int|
            0 <= i < self.nodes.len() ==> (#[trigger] self.nodes@[i]).transaction.genesis == (i
                == 0)
        &&& self.nodes.len() > 0 ==> self.nodes@[0].state_entry is Some
        &&& forall|i: int|
            0 <= i < self.nodes.len() && (#[trigger] self.nodes@[i]).state_entry is Some
                ==> self.nodes@[i].state_entry->0.wf()
        &&& self.children() == derived_children(self.nodes@)
    }

    /// The child index: for each parent hash, the hashes of the nodes that name it.
    pub open spec fn children(&self) -> Seq<(Seq<u8>, Seq<Seq<u8>>)> {
        children_view(self.node_children@)
    }

    /// The index a hash routes to.
    pub open spec fn route(&self, h: Seq<u8>) -> Option<int> {
        if exists|i: int| 0 <= i < self.nodes.len() && (#[trigger] self.nodes@[i]).hash@ == h {
            Some(choose|i: int| 0 <= i < self.nodes.len() && (#[trigger] self.nodes@[i]).hash@ == h)
        } else {
            None
        }
    }

    /// A graph with no nodes.
    pub fn empty() -> (r: Graph)
        ensures
            r.wf(),
            r.nodes.len() == 0,
    {
        let r = Graph { nodes: Vec::new(), node_children: Vec::new() };
        assert(r.children() =~= derived_children(r.nodes@));
        r
    }

    /// A graph holding `root_transaction` as its genesis, executed against the empty state.
    pub fn new(root_transaction: Transaction) -> (r: Graph)
        ensures
            r.wf(),
            r.nodes.len() == 1,
            r.nodes@[0].hash@ == root_transaction.hash@,
            r.nodes@[0].transaction.transaction_data == root_transaction.transaction_data,
            r.nodes@[0].transaction.genesis,
            r.nodes@[0].state_entry is Some,
            entry_models(r.nodes@[0].state_entry->0) == (
                seq![(root_transaction.transaction_data.sender@, root_transaction.transaction_data.nonce)],
                seq![(root_transaction.transaction_data.recipient@, root_transaction.transaction_data.value@)],
            ),
    {
        let mut g = Graph::empty();
        g.push(root_transaction, None);
        g
    }

    /// The index of the node with hash `h`.
    pub fn index_of(&self, h: &crate::hash::Hash) -> (r: Option<usize>)
        requires
            self.wf(),
        ensures
            r is None <==> self.route(h@) is None,
            r is Some ==> self.route(h@) == Some(r->0 as int),
    {
        let mut i: usize = 0;
        while i < self.nodes.len()
            invariant
                self.wf(),
                i <= self.nodes.len(),
                forall|j: int| 0 <= j < i ==> (#[trigger] self.nodes@[j]).hash@ != h@,
            decreases self.nodes.len() - i,
        {
            if self.nodes[i].hash.equals(h) {
                proof {
                    assert(self.nodes@[i as int].hash@ == h@);
                    let k = choose|k: int| 0 <= k < self.nodes.len() && (#[trigger] self.nodes@[k]).hash@ == h@;
                    assert(k == i);
                }
                return Some(i);
            }
            i = i + 1;
        }
        None
    }

    /// Appends a node for `transaction` and records it under each of its parents. A hash
    /// already present leaves the graph untouched and yields the index that holds it. The
    /// first node becomes the genesis, its state executed against the empty state when none
    /// is given.
    pub fn push(&mut self, transaction: Transaction, state_entry: Option<StateEntry>) -> (r: usize)
        requires
            old(self).wf(),
            state_entry is Some ==> state_entry->0.wf(),
            old(self).nodes.len() < usize::MAX,
        ensures
            final(self).wf(),
            old(self).route(transaction.hash@) is Some ==> r == old(self).route(
                transaction.hash@,
            )->0 && final(self).nodes@ == old(self).nodes@,
            old(self).route(transaction.hash@) is None ==> {
                &&& r == old(self).nodes.len()
                &&& final(self).nodes.len() == r + 1
                &&& final(self).nodes@.take(r as int) == old(self).nodes@
                &&& final(self).nodes@[r as int].hash@ == transaction.hash@
                &&& final(self).nodes@[r as int].transaction.transaction_data
                    == transaction.transaction_data
                &&& final(self).nodes@[r as int].transaction.signature == transaction.signature
                &&& final(self).nodes@[r as int].transaction.hash == transaction.hash
                &&& final(self).nodes@[r as int].transaction.contract_creation
                    == transaction.contract_creation
                &&& final(self).nodes@[r as int].transaction.deployed_contract_address
                    == transaction.deployed_contract_address
                &&& final(self).nodes@[r as int].transaction.genesis == (r == 0)
                &&& (r > 0 || state_entry is Some) ==> final(self).nodes@[r as int].state_entry
                    == state_entry
                &&& (r == 0 && state_entry is None) ==> entry_models(
                    final(self).nodes@[r as int].state_entry->0,
                ) == (
                    seq![(transaction.transaction_data.sender@, transaction.transaction_data.nonce)],
                    seq![(transaction.transaction_data.recipient@, transaction.transaction_data.value@)],
                )
            },
    {
        if let Some(i) = self.index_of(&transaction.hash) {
            return i;
        }
        let index = self.nodes.len();
        let mut transaction = transaction;
        transaction.genesis = index == 0;
        let state_entry = if index == 0 && state_entry.is_none() {
            let d = &transaction.transaction_data;
            Some(StateEntry::bootstrap(&d.sender, &d.recipient, &d.value, d.nonce))
        } else {
            state_entry
        };
        let ghost old_nodes = self.nodes@;
        proof {
            lemma_derived_children_unique(self.nodes@);
        }
        add_children_exec(&mut self.node_children, &transaction.transaction_data.parents, &transaction.hash);
        let node = Node::new(transaction, state_entry);
        self.nodes.push(node);
        proof {
            assert(self.nodes@.drop_last() =~= old_nodes);
            assert(self.nodes@.take(index as int) =~= old_nodes);
            assert forall|i: int, j: int|
                0 <= i < self.nodes.len() && 0 <= j < self.nodes.len() && i != j implies (
                #[trigger] self.nodes@[i]).hash@ != (#[trigger] self.nodes@[j]).hash@ by {
                if i == index as int {
                    assert(self.nodes@[j] == old_nodes[j]);
                } else if j == index as int {
                    assert(self.nodes@[i] == old_nodes[i]);
                } else {
                    assert(self.nodes@[i] == old_nodes[i]);
                    assert(self.nodes@[j] == old_nodes[j]);
                }
            }
            assert forall|i: int|
                0 <= i < self.nodes.len() && (#[trigger] self.nodes@[i]).state_entry is Some
                    implies self.nodes@[i].state_entry->0.wf() by {
                if i < index as int {
                    assert(self.nodes@[i] == old_nodes[i]);
                }
            }
        }
        index
    }

    /// Rebuilds the child index from the nodes.
    fn rebuild_children(nodes: &Vec<Node>) -> (r: Vec<(crate::hash::Hash, Vec<crate::hash::Hash>)>)
        ensures
            children_view(r@) == derived_children(nodes@),
    {
        let mut children: Vec<(crate::hash::Hash, Vec<crate::hash::Hash>)> = Vec::new();
        let mut i: usize = 0;
        assert(children_view(children@) =~= Seq::<(Seq<u8>, Seq<Seq<u8>>)>::empty());
        assert(nodes@.take(0) =~= Seq::<Node>::empty());
        while i < nodes.len()
            invariant
                i <= nodes.len(),
                children_view(children@) == derived_children(nodes@.take(i as int)),
            decreases nodes.len() - i,
        {
            proof {
                lemma_derived_children_unique(nodes@.take(i as int));
            }
            add_children_exec(&mut children, &nodes[i].transaction.transaction_data.parents, &nodes[i].hash);
            assert(nodes@.take(i + 1).drop_last() =~= nodes@.take(i as int));
            i = i + 1;
        }
        assert(nodes@.take(i as int) =~= nodes@);
        children
    }

    /// Replaces the node at `index` and re-derives the child index. A hash held by another
    /// node leaves the graph untouched. The genesis position keeps a materialized state.
    pub fn update(&mut self, index: usize, transaction: Transaction, state_entry: Option<StateEntry>)
        requires
            old(self).wf(),
            index < old(self).nodes.len(),
            state_entry is Some ==> state_entry->0.wf(),
        ensures
            final(self).wf(),
            final(self).nodes.len() == old(self).nodes.len(),
            (exists|j: int|
                0 <= j < old(self).nodes.len() && j != index && (#[trigger] old(
                    self,
                ).nodes@[j]).hash@ == transaction.hash@) ==> final(self).nodes@ == old(self).nodes@,
            !(exists|j: int|
                0 <= j < old(self).nodes.len() && j != index && (#[trigger] old(
                    self,
                ).nodes@[j]).hash@ == transaction.hash@) ==> {
                &&& forall|j: int|
                    0 <= j < old(self).nodes.len() && j != index ==> final(self).nodes@[j] == old(
                        self,
                    ).nodes@[j]
                &&& final(self).nodes@[index as int].hash@ == transaction.hash@
                &&& final(self).nodes@[index as int].transaction.transaction_data
                    == transaction.transaction_data
                &&& final(self).nodes@[index as int].transaction.hash == transaction.hash
                &&& final(self).nodes@[index as int].transaction.signature == transaction.signature
                &&& final(self).nodes@[index as int].transaction.contract_creation
                    == transaction.contract_creation
                &&& final(self).nodes@[index as int].transaction.deployed_contract_address
                    == transaction.deployed_contract_address
                &&& final(self).nodes@[index as int].transaction.genesis == (index == 0)
                &&& (index > 0 || state_entry is Some) ==> final(self).nodes@[index as int].state_entry
                    == state_entry
            },
    {
        let mut j: usize = 0;
        while j < self.nodes.len()
            invariant
                self.wf(),
                self == old(self),
                j <= self.nodes.len(),
                forall|k: int|
                    0 <= k < j && k != index ==> (#[trigger] self.nodes@[k]).hash@
                        != transaction.hash@,
            decreases self.nodes.len() - j,
        {
            if j != index && self.nodes[j].hash.equals(&transaction.hash) {
                return;
            }
            j = j + 1;
        }
        let mut transaction = transaction;
        transaction.genesis = index == 0;
        let state_entry = if index == 0 && state_entry.is_none() {
            let d = &transaction.transaction_data;
            Some(StateEntry::bootstrap(&d.sender, &d.recipient, &d.value, d.nonce))
        } else {
            state_entry
        };
        let ghost old_nodes = self.nodes@;
        self.nodes.set(index, Node::new(transaction, state_entry));
        self.node_children = Graph::rebuild_children(&self.nodes);
        proof {
            assert forall|i: int, k: int|
                0 <= i < self.nodes.len() && 0 <= k < self.nodes.len() && i != k implies (
                #[trigger] self.nodes@[i]).hash@ != (#[trigger] self.nodes@[k]).hash@ by {
                if i == index as int {
                    assert(self.nodes@[k] == old_nodes[k]);
                } else if k == index as int {
                    assert(self.nodes@[i] == old_nodes[i]);
                } else {
                    assert(self.nodes@[i] == old_nodes[i]);
                    assert(self.nodes@[k] == old_nodes[k]);
                }
            }
            assert forall|i: int|
                0 <= i < self.nodes.len() && (#[trigger] self.nodes@[i]).state_entry is Some
                    implies self.nodes@[i].state_entry->0.wf() by {
                if i != index as int {
                    assert(self.nodes@[i] == old_nodes[i]);
                }
            }
        }
    }

    /// The node at `index`.
    pub fn get(&self, index: usize) -> (r: Option<&Node>)
        ensures
            index < self.nodes.len() ==> r == Some(&self.nodes@[index as int]),
            index >= self.nodes.len() ==> r is None,
    {
        if index < self.nodes.len() {
            Some(&self.nodes[index])
        } else {
            None
        }
    }

    /// Gives a header-only node the state entry loaded for it from storage; a node whose
    /// state is present is left as it is.
    pub fn hydrate(&mut self, index: usize, state_entry: StateEntry)
        requires
            old(self).wf(),
            state_entry.wf(),
        ensures
            final(self).wf(),
            final(self).nodes.len() == old(self).nodes.len(),
            forall|j: int|
                0 <= j < old(self).nodes.len() && j != index ==> final(self).nodes@[j] == old(
                    self,
                ).nodes@[j],
            index < old(self).nodes.len() && old(self).nodes@[index as int].state_entry is None
                ==> final(self).nodes@[index as int].state_entry == Some(state_entry),
            index < old(self).nodes.len() ==> final(self).nodes@[index as int].transaction == old(
                self,
            ).nodes@[index as int].transaction && final(self).nodes@[index as int].hash == old(
                self,
            ).nodes@[index as int].hash,
            final(self).node_children == old(self).node_children,
            index < old(self).nodes.len() && old(self).nodes@[index as int].state_entry is Some
                ==> final(self).nodes@[index as int] == old(self).nodes@[index as int],
    {
        if index >= self.nodes.len() || self.nodes[index].state_entry.is_some() {
            return;
        }
        let ghost old_nodes = self.nodes@;
        let mut node = self.nodes.remove(index);
        node.state_entry = Some(state_entry);
        self.nodes.insert(index, node);
        proof {
            assert forall|j: int| 0 <= j < self.nodes.len() && j != index implies self.nodes@[j]
                == old_nodes[j] by {}
            assert forall|i: int, k: int|
                0 <= i < self.nodes.len() && 0 <= k < self.nodes.len() && i != k implies (
                #[trigger] self.nodes@[i]).hash@ != (#[trigger] self.nodes@[k]).hash@ by {
                assert(self.nodes@[i].hash == old_nodes[i].hash);
                assert(self.nodes@[k].hash == old_nodes[k].hash);
            }
            assert(self.nodes@.len() == old_nodes.len());
            assert forall|j: int| 0 <= j < self.nodes.len() implies #[trigger] node_parents(self.nodes@[j])
                == node_parents(old_nodes[j]) && self.nodes@[j].hash@ == old_nodes[j].hash@ by {}
            lemma_derived_children_same_views(self.nodes@, old_nodes);
        }
    }

    /// The node with hash `hash`.
    pub fn get_with_hash(&self, hash: &crate::hash::Hash) -> (r: Result<&Node, OperationError>)
        requires
            self.wf(),
        ensures
            self.route(hash@) is Some ==> r == Ok::<&Node, OperationError>(
                &self.nodes@[self.route(hash@)->0],
            ),
            self.route(hash@) is None ==> match r {
                Err(OperationError::NoLookupResults { key, error }) => key@ == hex_of(hash@).map_values(
                    |c: u8| c as char,
                ) && error@ == "no route to node found"@,
                _ => false,
            },
    {
        match self.index_of(hash) {
            Some(i) => Ok(&self.nodes[i]),
            None => Err(
                OperationError::NoLookupResults {
                    key: hash.to_str(),
                    error: "no route to node found".to_owned(),
                },
            ),
        }
    }

    /// Whether the node at `i` has a child, in the child index, whose state entry is not
    /// materialized.
    pub open spec fn has_unresolved_child(&self, i: int) -> bool {
        exists|k: int, j: int|
            0 <= k < self.children().len() && self.children()[k].0 == self.nodes@[i].hash@ && 0
                <= j < self.children()[k].1.len() && self.route(#[trigger] self.children()[k].1[j])
                is Some && self.nodes@[self.route(self.children()[k].1[j])->0].state_entry is None
    }

    /// An executed head: a node whose state is materialized and whose children all are.
    pub open spec fn is_executed_head(&self, i: int) -> bool {
        self.nodes@[i].state_entry is Some && !self.has_unresolved_child(i)
    }

    fn unresolved_child_exec(&self, i: usize) -> (r: bool)
        requires
            self.wf(),
            i < self.nodes.len(),
        ensures
            r == self.has_unresolved_child(i as int),
    {
        let ghost c = self.children();
        proof {
            lemma_derived_children_unique(self.nodes@);
        }
        let h = &self.nodes[i].hash;
        let mut k: usize = 0;
        while k < self.node_children.len()
            invariant
                self.wf(),
                c == self.children(),
                keys_unique(c),
                i < self.nodes.len(),
                h@ == self.nodes@[i as int].hash@,
                k <= self.node_children.len(),
                forall|m: int| 0 <= m < k ==> c[m].0 != h@,
            decreases self.node_children.len() - k,
        {
            assert(c[k as int] == (self.node_children@[k as int].0@, hash_views(self.node_children@[k as int].1@)));
            if self.node_children[k].0.equals(h) {
                let list = &self.node_children[k].1;
                let mut j: usize = 0;
                while j < list.len()
                    invariant
                        self.wf(),
                        c == self.children(),
                        keys_unique(c),
                        k < c.len(),
                        c[k as int].0 == self.nodes@[i as int].hash@,
                        c[k as int].1 == hash_views(list@),
                        j <= list.len(),
                        forall|m: int|
                            0 <= m < j ==> !(self.route(#[trigger] c[k as int].1[m]) is Some
                                && self.nodes@[self.route(c[k as int].1[m])->0].state_entry is None),
                    decreases list.len() - j,
                {
                    assert(c[k as int].1[j as int] == list@[j as int]@);
                    match self.index_of(&list[j]) {
                        Some(at) => {
                            if self.nodes[at].state_entry.is_none() {
                                return true;
                            }
                        },
                        None => {},
                    }
                    j = j + 1;
                }
                proof {
                    assert forall|k2: int, j2: int|
                        0 <= k2 < c.len() && c[k2].0 == self.nodes@[i as int].hash@ && 0 <= j2
                            < c[k2].1.len() implies !(self.route(#[trigger] c[k2].1[j2]) is Some
                        && self.nodes@[self.route(c[k2].1[j2])->0].state_entry is None) by {
                        assert(k2 == k);
                    }
                }
                return false;
            }
            k = k + 1;
        }
        false
    }

    /// The most recent executed head: the last node whose state is materialized and none of
    /// whose children is unresolved.
    pub fn obtain_executed_head(&self) -> (r: Option<&Node>)
        requires
            self.wf(),
        ensures
            r is None <==> forall|i: int|
                0 <= i < self.nodes.len() ==> !#[trigger] self.is_executed_head(i),
            r is Some ==> exists|i: int|
                0 <= i < self.nodes.len() && r == Some(&self.nodes@[i]) && self.is_executed_head(i)
                    && forall|j: int|
                    i < j < self.nodes.len() ==> !#[trigger] self.is_executed_head(j),
    {
        let mut i: usize = self.nodes.len();
        while i > 0
            invariant
                self.wf(),
                i <= self.nodes.len(),
                forall|j: int| i <= j < self.nodes.len() ==> !#[trigger] self.is_executed_head(j),
            decreases i,
        {
            if self.nodes[i - 1].state_entry.is_some() && !self.unresolved_child_exec(i - 1) {
                assert(self.is_executed_head(i - 1));
                return Some(&self.nodes[i - 1]);
            }
            i = i - 1;
        }
        None
    }
}

impl Graph {
    /// Whether every hash of `ps` routes to a node whose state entry is materialized.
    pub open spec fn parents_resolved(&self, ps: Seq<Seq<u8>>) -> bool {
        forall|k: int|
            0 <= k < ps.len() ==> self.route(#[trigger] ps[k]) is Some && self.nodes@[self.route(
                ps[k],
            )->0].state_entry is Some
    }

    /// The merge views of the state entries that `ps` route to.
    pub open spec fn resolved_views(&self, ps: Seq<Seq<u8>>) -> Seq<
        (Seq<u8>, Seq<(Seq<u8>, u64)>, Seq<(Seq<u8>, Seq<u8>)>),
    > {
        ps.map_values(|h: Seq<u8>| entry_view(self.nodes@[self.route(h)->0].state_entry->0))
    }

    /// Locates each parent, demands its materialized state, and merges those states; returns
    /// the merged entry and each parent's (hash, entry).
    pub fn resolve_parent_nodes(&self, parents: &Vec<crate::hash::Hash>) -> (r: Result<
        (StateEntry, Vec<(crate::hash::Hash, StateEntry)>),
        OperationError,
    >)
        requires
            self.wf(),
        ensures
            r is Ok <==> self.parents_resolved(hash_views(parents@)),
            !already_executed(r),
            r is Ok ==> {
                let (merged, entries) = r->Ok_0;
                &&& merged.wf()
                &&& merged.balances.model() == merged_balances(
                    self.resolved_views(hash_views(parents@)),
                )
                &&& merged.nonces.model() == merged_nonces(self.resolved_views(hash_views(parents@)))
                &&& entries.len() == parents.len()
                &&& forall|k: int|
                    0 <= k < parents.len() ==> (#[trigger] entries@[k]).0@ == parents@[k]@
                        && entry_view(entries@[k].1) == self.resolved_views(
                        hash_views(parents@),
                    )[k] && entries@[k].1.wf()
            },
    {
        let ghost ps = hash_views(parents@);
        let mut entries: Vec<(crate::hash::Hash, StateEntry)> = Vec::new();
        let mut states: Vec<StateEntry> = Vec::new();
        let mut i: usize = 0;
        while i < parents.len()
            invariant
                self.wf(),
                ps == hash_views(parents@),
                i <= parents.len(),
                entries.len() == i,
                states.len() == i,
                forall|k: int|
                    0 <= k < i ==> self.route(#[trigger] ps[k]) is Some && self.nodes@[self.route(
                        ps[k],
                    )->0].state_entry is Some,
                forall|k: int|
                    0 <= k < i ==> (#[trigger] entries@[k]).0@ == parents@[k]@ && entry_view(
                        entries@[k].1,
                    ) == self.resolved_views(ps)[k] && entries@[k].1.wf() && entry_view(
                        states@[k],
                    ) == self.resolved_views(ps)[k],
            decreases parents.len() - i,
        {
            assert(ps[i as int] == parents@[i as int]@);
            let index = match self.index_of(&parents[i]) {
                Some(index) => index,
                None => {
                    return Err(
                        OperationError::NoLookupResults {
                            key: parents[i].to_str(),
                            error: "no route to node found".to_owned(),
                        },
                    );
                },
            };
            match &self.nodes[index].state_entry {
                Some(entry) => {
                    assert(self.nodes@[index as int].state_entry->0.wf());
                    let a = entry.copy();
                    let b = entry.copy();
                    entries.push((parents[i].copy(), a));
                    states.push(b);
                },
                None => {
                    return Err(
                        OperationError::StateUnresolved { transaction_hash: parents[i].to_str() },
                    );
                },
            }
            i = i + 1;
        }
        let merged = StateEntry::merge(&states);
        assert forall|k: int| 0 <= k < states.len() implies parent_views(states@)[k]
            == self.resolved_views(ps)[k] by {
            assert(entries@[k].0@ == parents@[k]@);
        }
        assert(parent_views(states@) =~= self.resolved_views(ps));
        Ok((merged, entries))
    }
}

/// The views of an optional signature.
pub open spec fn signature_view(o: Option<crate::signature::Signature>) -> Option<(Seq<u8>, Seq<u8>)> {
    match o {
        None => None,
        Some(sig) => Some((sig.public_key_bytes@, sig.signature_bytes@)),
    }
}

/// What appending reads of a transaction: its hash, the canonical bytes of its contents,
/// its parents, the transfer it makes, and its signature.
pub open spec fn tx_view(t: Transaction) -> (
    Seq<u8>,
    Seq<u8>,
    Seq<Seq<u8>>,
    Seq<u8>,
    Seq<u8>,
    Seq<u8>,
    u64,
    Option<(Seq<u8>, Seq<u8>)>,
) {
    (
        t.hash@,
        encode_data(t.transaction_data),
        hash_views(t.transaction_data.parents@),
        t.transaction_data.sender@,
        t.transaction_data.recipient@,
        t.transaction_data.value@,
        t.transaction_data.nonce,
        signature_view(t.signature),
    )
}

/// Appending depends on a transaction only through its view.
pub proof fn lemma_appended_same_view(
    before: &Graph,
    t1: Transaction,
    t2: Transaction,
    r: Result<usize, OperationError>,
    after: &Graph,
)
    requires
        tx_view(t1) == tx_view(t2),
    ensures
        Graph::appended(before, t1, r, after) == Graph::appended(before, t2, r, after),
        before.append_ok(t1) == before.append_ok(t2),
{
    assert(t1.transaction_data.parents@.len() == hash_views(t1.transaction_data.parents@).len());
    assert(t2.transaction_data.parents@.len() == hash_views(t2.transaction_data.parents@).len());
    assert(t1.signature_valid() == t2.signature_valid()) by {
        match t1.signature {
            None => {},
            Some(s1) => {
                let s2 = t2.signature->0;
                assert(signature_view(t2.signature) == Some((s1.public_key_bytes@, s1.signature_bytes@)));
            },
        }
    }
    assert(t1.hash_consistent() == t2.hash_consistent());
    let ps = hash_views(t1.transaction_data.parents@);
    let prev = Some((merged_nonces(before.resolved_views(ps)), merged_balances(before.resolved_views(ps))));
    assert(execution(t1.transaction_data, prev) == execution(t2.transaction_data, prev));
}

/// Whether a result is the error for a transaction that is already in the graph.
pub open spec fn already_executed<T>(r: Result<T, OperationError>) -> bool {
    match r {
        Err(OperationError::AlreadyExecuted { .. }) => true,
        _ => false,
    }
}

impl Graph {
    /// Whether `tx` can be appended: it is new, names a parent, carries a consistent hash and
    /// a valid signature of its sender, every parent's state is materialized, and the sender
    /// covers the value in the merged parental state.
    pub open spec fn append_ok(&self, tx: Transaction) -> bool {
        let ps = hash_views(tx.transaction_data.parents@);
        &&& self.route(tx.hash@) is None
        &&& tx.transaction_data.parents.len() > 0
        &&& tx.hash_consistent()
        &&& tx.signature_valid()
        &&& self.parents_resolved(ps)
        &&& execution(
            tx.transaction_data,
            Some((merged_nonces(self.resolved_views(ps)), merged_balances(self.resolved_views(ps)))),
        ) is Some
    }

    /// What appending `tx` to `before` does: `r` and `after` as `append_transaction` ensures.
    pub open spec fn appended(
        before: &Graph,
        tx: Transaction,
        r: Result<usize, OperationError>,
        after: &Graph,
    ) -> bool {
        let ps = hash_views(tx.transaction_data.parents@);
        &&& after.wf()
        &&& r is Ok <==> before.append_ok(tx)
        &&& already_executed(r) <==> before.route(tx.hash@) is Some
        &&& r is Err ==> after.nodes@ == before.nodes@ && after.node_children@
            == before.node_children@
        &&& r is Ok ==> {
            &&& r->Ok_0 == before.nodes.len()
            &&& after.nodes.len() == before.nodes.len() + 1
            &&& after.nodes@.take(before.nodes.len() as int) == before.nodes@
            &&& after.nodes@[r->Ok_0 as int].hash@ == tx.hash@
            &&& tx_view(after.nodes@[r->Ok_0 as int].transaction) == tx_view(tx)
            &&& after.nodes@[r->Ok_0 as int].state_entry is Some
            &&& Some(entry_models(after.nodes@[r->Ok_0 as int].state_entry->0)) == execution(
                tx.transaction_data,
                Some(
                    (
                        merged_nonces(before.resolved_views(ps)),
                        merged_balances(before.resolved_views(ps)),
                    ),
                ),
            )
        }
    }

    #[verifier::rlimit(50)]
    /// Validates `tx`, executes it against its merged parental state, and appends it with
    /// the resulting state. A transaction already present yields `AlreadyExecuted` and
    /// changes nothing.
    pub fn append_transaction(&mut self, tx: Transaction) -> (r: Result<usize, OperationError>)
        requires
            old(self).wf(),
            old(self).nodes.len() < usize::MAX,
        ensures
            Graph::appended(old(self), tx, r, final(self)),
            r is Ok ==> final(self).nodes@[r->Ok_0 as int].transaction.transaction_data
                == tx.transaction_data,
    {
        if self.index_of(&tx.hash).is_some() {
            return Err(OperationError::AlreadyExecuted { transaction_hash: tx.hash.to_str() });
        }
        if tx.transaction_data.parents.len() == 0 {
            return Err(OperationError::NoParents { transaction_hash: tx.hash.to_str() });
        }
        let expected = crate::hash::Hash::of(&tx.transaction_data.to_bytes());
        if !expected.equals(&tx.hash) || !tx.verify_signature() {
            return Err(OperationError::InvalidSignature { transaction_hash: tx.hash.to_str() });
        }
        let (merged, _entries) = match self.resolve_parent_nodes(&tx.transaction_data.parents) {
            Ok(res) => res,
            Err(e) => {
                return Err(e);
            },
        };
        let state = match tx.execute(Some(merged)) {
            Some(state) => state,
            None => {
                return Err(OperationError::InsufficientBalance { transaction_hash: tx.hash.to_str() });
            },
        };
        let index = self.push(tx, Some(state));
        Ok(index)
    }
}

/// Appending the same transaction a second time leaves the graph as the first append left it.
pub proof fn lemma_append_idempotent(
    g0: &Graph,
    g1: &Graph,
    g2: &Graph,
    tx: Transaction,
    r1: Result<usize, OperationError>,
    r2: Result<usize, OperationError>,
)
    requires
        g0.wf(),
        Graph::appended(g0, tx, r1, g1),
        Graph::appended(g1, tx, r2, g2),
    ensures
        g2.nodes@ == g1.nodes@,
        g2.node_children@ == g1.node_children@,
{
    if r1 is Ok {
        let i = r1->Ok_0 as int;
        assert(g1.nodes@[i].hash@ == tx.hash@);
        assert(exists|k: int| 0 <= k < g1.nodes.len() && (#[trigger] g1.nodes@[k]).hash@ == tx.hash@);
    } else {
        assert(g1.route(tx.hash@) == g0.route(tx.hash@));
        assert(g1.resolved_views(hash_views(tx.transaction_data.parents@)) == g0.resolved_views(hash_views(tx.transaction_data.parents@)));
        assert(g1.parents_resolved(hash_views(tx.transaction_data.parents@)) == g0.parents_resolved(hash_views(tx.transaction_data.parents@)));
    }
}

/// The ASCII decimal digits of `n`.
pub open spec fn decimal(n: nat) -> Seq<u8>
    decreases n,
{
    if n < 10 {
        seq![(48 + n) as u8]
    } else {
        decimal(n / 10) + seq![(48 + n % 10) as u8]
    }
}

/// The storage key of the node at `index`: its index in ASCII decimal.
pub fn index_key(index: u64) -> (r: Vec<u8>)
    ensures
        r@ == decimal(index as nat),
    decreases index,
{
    if index < 10 {
        let mut v: Vec<u8> = Vec::new();
        v.push((48 + index) as u8);
        assert(v@ =~= decimal(index as nat));
        v
    } else {
        let mut v = index_key(index / 10);
        v.push((48 + index % 10) as u8);
        assert(v@ =~= decimal(index as nat));
        v
    }
}

/// A node list that can stand as a graph: consistent and distinct hashes, valid states,
/// and a materialized first state.
pub open spec fn graph_like(ns: Seq<Node>) -> bool {
    &&& forall|i: int| 0 <= i < ns.len() ==> (#[trigger] ns[i]).hash@ == ns[i].transaction.hash@
    &&& forall|i: int, j: int|
        0 <= i < ns.len() && 0 <= j < ns.len() && i != j ==> (#[trigger] ns[i]).hash@ != (
        #[trigger] ns[j]).hash@
    &&& forall|i: int|
        0 <= i < ns.len() && (#[trigger] ns[i]).state_entry is Some ==> ns[i].state_entry->0.wf()
    &&& ns.len() > 0 ==> ns[0].state_entry is Some
}

/// What reloading `ns` yields: for a graph-like list, the same nodes in the same order,
/// with every state kept when `full` and only the first one kept otherwise.
pub open spec fn reloaded(ns: Seq<Node>, full: bool, g: &Graph) -> bool {
    &&& g.wf()
    &&& graph_like(ns) ==> {
        &&& g.nodes.len() == ns.len()
        &&& forall|i: int|
            0 <= i < ns.len() ==> (#[trigger] g.nodes@[i]).hash@ == ns[i].hash@
                && same_transaction_fields(g.nodes@[i].transaction, ns[i].transaction)
                && (full || i == 0 ==> g.nodes@[i].state_entry == ns[i].state_entry) && (!full && i
                > 0 ==> g.nodes@[i].state_entry is None)
    }
    &&& g.nodes.len() <= ns.len()
}

/// Two transactions that agree on every field but the genesis flag.
pub open spec fn same_transaction_fields(a: Transaction, b: Transaction) -> bool {
    &&& a.transaction_data == b.transaction_data
    &&& a.hash == b.hash
    &&& a.signature == b.signature
    &&& a.contract_creation == b.contract_creation
    &&& a.deployed_contract_address == b.deployed_contract_address
}

impl Graph {
    /// Rebuilds a graph from stored nodes in index order: routes and the child index are
    /// derived again, and unless `full` only the genesis keeps its state entry. A node whose
    /// hash came earlier is skipped.
    pub fn from_nodes(nodes: Vec<Node>, full: bool) -> (r: Graph)
        requires
            forall|i: int|
                0 <= i < nodes.len() && (#[trigger] nodes@[i]).state_entry is Some
                    ==> nodes@[i].state_entry->0.wf(),
        ensures
            reloaded(nodes@, full, &r),
    {
        let ghost ns = nodes@;
        let mut nodes = nodes;
        let mut g = Graph::empty();
        let mut i: usize = 0;
        let n = nodes.len();
        while nodes.len() > 0
            invariant
                g.wf(),
                i + nodes.len() == n,
                n == ns.len(),
                nodes@ == ns.skip(i as int),
                g.nodes.len() <= i,
                forall|j: int|
                    0 <= j < ns.len() && (#[trigger] ns[j]).state_entry is Some
                        ==> ns[j].state_entry->0.wf(),
                graph_like(ns) ==> g.nodes.len() == i && forall|j: int|
                    0 <= j < i ==> (#[trigger] g.nodes@[j]).hash@ == ns[j].hash@
                        && same_transaction_fields(g.nodes@[j].transaction, ns[j].transaction)
                        && (full || j == 0 ==> g.nodes@[j].state_entry == ns[j].state_entry) && (!full
                        && j > 0 ==> g.nodes@[j].state_entry is None),
            decreases nodes.len(),
        {
            assert(nodes@[0] == ns[i as int]);
            let node = nodes.remove(0);
            assert(nodes@ =~= ns.skip(i + 1));
            let state = if full || i == 0 {
                node.state_entry
            } else {
                None
            };
            let ghost before = g;
            proof {
                if graph_like(ns) {
                    assert forall|j: int| 0 <= j < g.nodes.len() implies (#[trigger] g.nodes@[j]).hash@
                        != node.transaction.hash@ by {
                        assert(ns[j].hash@ != ns[i as int].hash@);
                    }
                    assert(g.route(node.transaction.hash@) is None);
                }
            }
            g.push(node.transaction, state);
            proof {
                if graph_like(ns) {
                    assert forall|j: int| 0 <= j < i + 1 implies (#[trigger] g.nodes@[j]).hash@
                        == ns[j].hash@ && same_transaction_fields(g.nodes@[j].transaction,
                        ns[j].transaction) && (full || j == 0
                        ==> g.nodes@[j].state_entry == ns[j].state_entry) && (!full && j > 0
                        ==> g.nodes@[j].state_entry is None) by {
                        if j < i {
                            assert(g.nodes@[j] == before.nodes@[j]);
                        }
                    }
                }
            }
            i = i + 1;
        }
        g
    }
}

/// Reloading the nodes of a graph in full restores its routes, its child index and its
/// state entries.
pub proof fn lemma_reload_restores(g: &Graph, r: &Graph)
    requires
        g.wf(),
        reloaded(g.nodes@, true, r),
    ensures
        forall|h: Seq<u8>| #[trigger] r.route(h) == g.route(h),
        r.children() == g.children(),
        r.nodes.len() == g.nodes.len(),
        forall|i: int| 0 <= i < g.nodes.len() ==> (#[trigger] r.nodes@[i]).state_entry == g.nodes@[i].state_entry,
{
    assert(graph_like(g.nodes@));
    assert forall|h: Seq<u8>| #[trigger] r.route(h) == g.route(h) by {
        if exists|i: int| 0 <= i < g.nodes.len() && (#[trigger] g.nodes@[i]).hash@ == h {
            let i = choose|i: int| 0 <= i < g.nodes.len() && (#[trigger] g.nodes@[i]).hash@ == h;
            assert(r.nodes@[i].hash@ == h);
            lemma_route_of_node(g, i);
            lemma_route_of_node(r, i);
        } else {
            assert forall|i: int| 0 <= i < r.nodes.len() implies (#[trigger] r.nodes@[i]).hash@ != h by {
                assert(g.nodes@[i].hash@ != h);
            }
        }
    }
    assert forall|j: int| 0 <= j < r.nodes.len() implies #[trigger] node_parents(r.nodes@[j])
        == node_parents(g.nodes@[j]) && r.nodes@[j].hash@ == g.nodes@[j].hash@ by {}
    lemma_derived_children_same_views(r.nodes@, g.nodes@);
}

/// Every node is reached by its own hash: the route of the hash at index `i` is `i`.
pub proof fn lemma_route_of_node(g: &Graph, i: int)
    requires
        g.wf(),
        0 <= i < g.nodes.len(),
    ensures
        g.route(g.nodes@[i].hash@) == Some(i),
{
    let h = g.nodes@[i].hash@;
    assert(exists|k: int| 0 <= k < g.nodes.len() && (#[trigger] g.nodes@[k]).hash@ == h);
    let k = choose|k: int| 0 <= k < g.nodes.len() && (#[trigger] g.nodes@[k]).hash@ == h;
    assert(k == i);
}

/// A non-empty graph has exactly one genesis node, at index 0.
pub proof fn lemma_single_genesis(g: &Graph)
    requires
        g.wf(),
    ensures
        g.nodes.len() > 0 ==> g.nodes@[0].transaction.genesis,
        forall|i: int| 0 < i < g.nodes.len() ==> !(#[trigger] g.nodes@[i]).transaction.genesis,
        g.nodes.len() > 0 ==> g.nodes@[0].state_entry is Some,
{
}

proof fn lemma_derived_children_same_views(a: Seq<Node>, b: Seq<Node>)
    requires
        a.len() == b.len(),
        forall|j: int|
            0 <= j < a.len() ==> #[trigger] node_parents(a[j]) == node_parents(b[j]) && a[j].hash@
                == b[j].hash@,
    ensures
        derived_children(a) == derived_children(b),
    decreases a.len(),
{
    if a.len() > 0 {
        assert(node_parents(a[a.len() - 1]) == node_parents(b[b.len() - 1]));
        lemma_derived_children_same_views(a.drop_last(), b.drop_last());
    }
}

} // verus!

use vstd::prelude::*;

use crate::address_map::{assoc_get, assoc_set, entries_model, keys_sorted, lemma_entries_model_push, lemma_set_sorted, AddressMap};
use crate::amount::{biguint_difference, biguint_sum, canonical_le, le_value, Amount};
use crate::bytes::{lemma_lex_irreflexive, lemma_lex_transitive, compare_bytes, append_len_prefixed, append_u64, len_prefixed, lex_lt, u64_le};
use crate::hash::{blake3_of, Address};

verus! {

/// Canonical bytes of a nonce list, in key order.
pub open spec fn encode_nonce_list(s: Seq<(Seq<u8>, u64)>) -> Seq<u8>
    decreases s.len(),
{
    if s.len() == 0 {
        Seq::empty()
    } else {
        encode_nonce_list(s.drop_last()) + len_prefixed(s.last().0) + u64_le(s.last().1)
    }
}

/// Canonical bytes of a balance list, in key order.
pub open spec fn encode_balance_list(s: Seq<(Seq<u8>, Seq<u8>)>) -> Seq<u8>
    decreases s.len(),
{
    if s.len() == 0 {
        Seq::empty()
    } else {
        encode_balance_list(s.drop_last()) + len_prefixed(s.last().0) + len_prefixed(s.last().1)
    }
}

/// Canonical bytes of a state: the nonces, then the balances, each preceded by its count.
pub open spec fn encode_state(nonces: Seq<(Seq<u8>, u64)>, balances: Seq<(Seq<u8>, Seq<u8>)>) -> Seq<
    u8,
> {
    u64_le(nonces.len() as u64) + encode_nonce_list(nonces) + u64_le(balances.len() as u64)
        + encode_balance_list(balances)
}

/// The content hash of a state.
pub open spec fn state_hash(nonces: Seq<(Seq<u8>, u64)>, balances: Seq<(Seq<u8>, Seq<u8>)>) -> Seq<
    u8,
> {
    blake3_of(encode_state(nonces, balances))
}

/// The bytes of a zero balance.
pub open spec fn zero_amount() -> Seq<u8> {
    seq![0u8]
}

/// A balance, zero where the address has none.
pub open spec fn balance_or_zero(balances: Seq<(Seq<u8>, Seq<u8>)>, a: Seq<u8>) -> Seq<u8> {
    match assoc_get(balances, a) {
        Some(b) => b,
        None => zero_amount(),
    }
}

/// Balances after moving `value` from `sender` to `recipient`.
pub open spec fn transfer_balances(
    balances: Seq<(Seq<u8>, Seq<u8>)>,
    sender: Seq<u8>,
    recipient: Seq<u8>,
    value: Seq<u8>,
) -> Seq<(Seq<u8>, Seq<u8>)> {
    let debited = assoc_set(
        balances,
        sender,
        biguint_difference(balance_or_zero(balances, sender), value),
    );
    assoc_set(debited, recipient, biguint_sum(balance_or_zero(debited, recipient), value))
}

/// The numbers a transfer leaves: the sender loses `value`, the recipient gains it (one
/// address that is both keeps its balance), and every other address keeps its binding.
pub open spec fn transfer_values(
    before: Seq<(Seq<u8>, Seq<u8>)>,
    after: Seq<(Seq<u8>, Seq<u8>)>,
    sender: Seq<u8>,
    recipient: Seq<u8>,
    value: Seq<u8>,
) -> bool {
    &&& sender != recipient ==> le_value(balance_or_zero(after, sender)) == le_value(
        balance_or_zero(before, sender),
    ) - le_value(value)
    &&& sender != recipient ==> le_value(balance_or_zero(after, recipient)) == le_value(
        balance_or_zero(before, recipient),
    ) + le_value(value)
    &&& sender == recipient ==> le_value(balance_or_zero(after, sender)) == le_value(
        balance_or_zero(before, sender),
    )
    &&& forall|a: Seq<u8>|
        a != sender && a != recipient ==> #[trigger] assoc_get(after, a) == assoc_get(before, a)
}

/// Whether `sender` holds at least `value`.
pub open spec fn covers(balances: Seq<(Seq<u8>, Seq<u8>)>, sender: Seq<u8>, value: Seq<u8>) -> bool {
    le_value(value) <= le_value(balance_or_zero(balances, sender))
}

/// A parent's balances folded into a table from address to (winning state hash, balance):
/// an address takes the balance of the parent whose state hash sorts last.
pub open spec fn fold_balances(
    table: Seq<(Seq<u8>, (Seq<u8>, Seq<u8>))>,
    h: Seq<u8>,
    entries: Seq<(Seq<u8>, Seq<u8>)>,
) -> Seq<(Seq<u8>, (Seq<u8>, Seq<u8>))>
    decreases entries.len(),
{
    if entries.len() == 0 {
        table
    } else {
        let prev = fold_balances(table, h, entries.drop_last());
        let e = entries.last();
        match assoc_get(prev, e.0) {
            Some(w) => if lex_lt(w.0, h) {
                assoc_set(prev, e.0, (h, e.1))
            } else {
                prev
            },
            None => assoc_set(prev, e.0, (h, e.1)),
        }
    }
}

/// A parent's nonces folded in: each address keeps the largest nonce seen.
pub open spec fn fold_nonces(table: Seq<(Seq<u8>, u64)>, entries: Seq<(Seq<u8>, u64)>) -> Seq<
    (Seq<u8>, u64),
>
    decreases entries.len(),
{
    if entries.len() == 0 {
        table
    } else {
        let prev = fold_nonces(table, entries.drop_last());
        let e = entries.last();
        match assoc_get(prev, e.0) {
            Some(n) => if n < e.1 {
                assoc_set(prev, e.0, e.1)
            } else {
                prev
            },
            None => assoc_set(prev, e.0, e.1),
        }
    }
}

/// The view of a state entry that merging reads: (hash, nonces, balances).
pub open spec fn entry_view(e: StateEntry) -> (Seq<u8>, Seq<(Seq<u8>, u64)>, Seq<(Seq<u8>, Seq<u8>)>) {
    (e.hash@, e.nonces.model(), e.balances.model())
}

/// The balance table after folding in every parent, in order.
pub open spec fn merged_table(parents: Seq<(Seq<u8>, Seq<(Seq<u8>, u64)>, Seq<(Seq<u8>, Seq<u8>)>)>) -> Seq<
    (Seq<u8>, (Seq<u8>, Seq<u8>)),
>
    decreases parents.len(),
{
    if parents.len() == 0 {
        Seq::empty()
    } else {
        fold_balances(merged_table(parents.drop_last()), parents.last().0, parents.last().2)
    }
}

/// The merged balances: the table without the winning hashes.
pub open spec fn merged_balances(parents: Seq<(Seq<u8>, Seq<(Seq<u8>, u64)>, Seq<(Seq<u8>, Seq<u8>)>)>) -> Seq<
    (Seq<u8>, Seq<u8>),
> {
    merged_table(parents).map_values(|p: (Seq<u8>, (Seq<u8>, Seq<u8>))| (p.0, p.1.1))
}

/// The merged nonces: the largest nonce of each address over all parents.
pub open spec fn merged_nonces(parents: Seq<(Seq<u8>, Seq<(Seq<u8>, u64)>, Seq<(Seq<u8>, Seq<u8>)>)>) -> Seq<
    (Seq<u8>, u64),
>
    decreases parents.len(),
{
    if parents.len() == 0 {
        Seq::empty()
    } else {
        fold_nonces(merged_nonces(parents.drop_last()), parents.last().1)
    }
}

/// An immutable snapshot of every address's nonce and balance, with its content hash.
pub struct StateEntry {
    pub nonces: AddressMap<u64>,
    pub balances: AddressMap<Amount>,
    pub hash: crate::hash::Hash,
}

fn copy_nonces(m: &AddressMap<u64>) -> (r: AddressMap<u64>)
    ensures
        r.model() == m.model(),
{
    let mut entries: Vec<(Address, u64)> = Vec::new();
    let mut i: usize = 0;
    while i < m.entries.len()
        invariant
            i <= m.entries.len(),
            entries_model(entries@) == m.model().take(i as int),
        decreases m.entries.len() - i,
    {
        assert(m.model()[i as int] == (m.entries@[i as int].0@, m.entries@[i as int].1@));
        let ghost prev = entries@;
        let item = (m.entries[i].0.copy(), m.entries[i].1);
        entries.push(item);
        proof {
            lemma_entries_model_push(prev, item);
            assert(m.model().take(i + 1) =~= m.model().take(i as int).push(m.model()[i as int]));
        }
        i = i + 1;
    }
    assert(m.model().take(i as int) =~= m.model());
    AddressMap { entries }
}

fn copy_balances(m: &AddressMap<Amount>) -> (r: AddressMap<Amount>)
    ensures
        r.model() == m.model(),
{
    let mut entries: Vec<(Address, Amount)> = Vec::new();
    let mut i: usize = 0;
    while i < m.entries.len()
        invariant
            i <= m.entries.len(),
            entries_model(entries@) == m.model().take(i as int),
        decreases m.entries.len() - i,
    {
        assert(m.model()[i as int] == (m.entries@[i as int].0@, m.entries@[i as int].1@));
        let ghost prev = entries@;
        let item = (m.entries[i].0.copy(), m.entries[i].1.copy());
        entries.push(item);
        proof {
            lemma_entries_model_push(prev, item);
            assert(m.model().take(i + 1) =~= m.model().take(i as int).push(m.model()[i as int]));
        }
        i = i + 1;
    }
    assert(m.model().take(i as int) =~= m.model());
    AddressMap { entries }
}

/// The canonical bytes of a state.
pub fn encode_state_bytes(nonces: &AddressMap<u64>, balances: &AddressMap<Amount>) -> (r: Vec<u8>)
    ensures
        r@ == encode_state(nonces.model(), balances.model()),
{
    let ghost nm = nonces.model();
    let ghost bm = balances.model();
    let mut out: Vec<u8> = Vec::new();
    append_u64(&mut out, nonces.entries.len() as u64);
    let mut i: usize = 0;
    while i < nonces.entries.len()
        invariant
            i <= nonces.entries.len(),
            nm == nonces.model(),
            out@ == u64_le(nm.len() as u64) + encode_nonce_list(nm.take(i as int)),
        decreases nonces.entries.len() - i,
    {
        append_len_prefixed(&mut out, &nonces.entries[i].0.bytes);
        append_u64(&mut out, nonces.entries[i].1);
        assert(nm.take(i + 1).drop_last() =~= nm.take(i as int));
        i = i + 1;
    }
    assert(nm.take(i as int) =~= nm);
    append_u64(&mut out, balances.entries.len() as u64);
    let ghost head = out@;
    let mut j: usize = 0;
    while j < balances.entries.len()
        invariant
            j <= balances.entries.len(),
            bm == balances.model(),
            out@ == head + encode_balance_list(bm.take(j as int)),
        decreases balances.entries.len() - j,
    {
        append_len_prefixed(&mut out, &balances.entries[j].0.bytes);
        append_len_prefixed(&mut out, &balances.entries[j].1.bytes);
        assert(bm.take(j + 1).drop_last() =~= bm.take(j as int));
        j = j + 1;
    }
    assert(bm.take(j as int) =~= bm);
    out
}

impl StateEntry {
    pub open spec fn wf(&self) -> bool {
        &&& self.nonces.wf()
        &&& self.balances.wf()
        &&& self.hash@ == state_hash(self.nonces.model(), self.balances.model())
    }

    /// An entry over the given maps, with its content hash.
    pub fn new(nonces: AddressMap<u64>, balances: AddressMap<Amount>) -> (r: StateEntry)
        requires
            nonces.wf(),
            balances.wf(),
        ensures
            r.wf(),
            r.nonces.model() == nonces.model(),
            r.balances.model() == balances.model(),
    {
        let bytes = encode_state_bytes(&nonces, &balances);
        StateEntry { nonces, balances, hash: crate::hash::Hash::of(&bytes) }
    }

    /// The bottom of the state lattice: no nonces, no balances.
    pub fn empty() -> (r: StateEntry)
        ensures
            r.wf(),
            r.nonces.model().len() == 0,
            r.balances.model().len() == 0,
    {
        StateEntry::new(AddressMap::new(), AddressMap::new())
    }

    pub fn copy(&self) -> (r: StateEntry)
        ensures
            r.nonces.model() == self.nonces.model(),
            r.balances.model() == self.balances.model(),
            r.hash@ == self.hash@,
    {
        StateEntry {
            nonces: copy_nonces(&self.nonces),
            balances: copy_balances(&self.balances),
            hash: self.hash.copy(),
        }
    }

    /// The state in which `recipient` holds `value`, `sender` has nonce `nonce`, and nothing
    /// else is recorded.
    pub fn bootstrap(sender: &Address, recipient: &Address, value: &Amount, nonce: u64) -> (r:
        StateEntry)
        ensures
            r.wf(),
            r.balances.model() == seq![(recipient@, value@)],
            r.nonces.model() == seq![(sender@, nonce)],
    {
        let mut balances: AddressMap<Amount> = AddressMap::new();
        balances.insert(recipient.copy(), value.copy());
        let mut nonces: AddressMap<u64> = AddressMap::new();
        nonces.insert(sender.copy(), nonce);
        StateEntry::new(nonces, balances)
    }

    /// The state after `sender` moves `value` to `recipient` and records `nonce`; `None` where
    /// the sender's balance is short of `value`.
    pub fn transfer(&self, sender: &Address, recipient: &Address, value: &Amount, nonce: u64) -> (r:
        Option<StateEntry>)
        requires
            self.wf(),
        ensures
            r is None <==> !covers(self.balances.model(), sender@, value@),
            r is Some ==> r->0.wf() && r->0.balances.model() == transfer_balances(
                self.balances.model(),
                sender@,
                recipient@,
                value@,
            ) && r->0.nonces.model() == assoc_set(self.nonces.model(), sender@, nonce),
            r is Some ==> transfer_values(
                self.balances.model(),
                r->0.balances.model(),
                sender@,
                recipient@,
                value@,
            ),
    {
        let zero = Amount::zero();
        let sender_balance = match self.balances.get(sender) {
            Some(b) => b.copy(),
            None => zero.copy(),
        };
        let debited_balance = match sender_balance.checked_sub(value) {
            Some(d) => d,
            None => {
                return None;
            },
        };
        let mut balances = copy_balances(&self.balances);
        balances.insert(sender.copy(), debited_balance);
        let recipient_balance = match balances.get(recipient) {
            Some(b) => b.copy(),
            None => zero.copy(),
        };
        let credited_balance = recipient_balance.add(value);
        balances.insert(recipient.copy(), credited_balance);
        proof {
            assert(zero.value() == 0);
        }
        let mut nonces = copy_nonces(&self.nonces);
        nonces.insert(sender.copy(), nonce);
        Some(StateEntry::new(nonces, balances))
    }
}

/// The sum of all balances.
pub open spec fn total_supply(s: Seq<(Seq<u8>, Seq<u8>)>) -> nat
    decreases s.len(),
{
    if s.len() == 0 {
        0
    } else {
        le_value(s[0].1) + total_supply(s.drop_first())
    }
}

proof fn lemma_canonical_value(n: nat)
    ensures
        le_value(canonical_le(n)) == n,
    decreases n,
{
    if n < 256 {
        let c = canonical_le(n);
        assert(c.drop_first() =~= Seq::<u8>::empty());
        assert(le_value(c.drop_first()) == 0);
    } else {
        lemma_canonical_value(n / 256);
        let c = canonical_le(n);
        assert(c.drop_first() =~= canonical_le(n / 256));
        assert(n == n % 256 + 256 * (n / 256)) by (nonlinear_arith);
    }
}

proof fn lemma_absent_below(s: Seq<(Seq<u8>, Seq<u8>)>, k: Seq<u8>)
    requires
        keys_sorted(s),
        s.len() > 0 ==> lex_lt(k, s[0].0),
    ensures
        assoc_get(s, k) is None,
    decreases s.len(),
{
    if s.len() > 0 {
        lemma_lex_irreflexive(k);
        if s.len() > 1 {
            assert(lex_lt(s[0].0, s[1].0));
            lemma_lex_transitive(k, s[0].0, s[1].0);
            assert(s.drop_first()[0] == s[1]);
        }
        assert(keys_sorted(s.drop_first())) by {
            assert forall|i: int, j: int| 0 <= i < j < s.drop_first().len() implies lex_lt(
                #[trigger] s.drop_first()[i].0,
                #[trigger] s.drop_first()[j].0,
            ) by {
                assert(lex_lt(s[i + 1].0, s[j + 1].0));
            }
        }
        lemma_absent_below(s.drop_first(), k);
    }
}

/// Binding `k` to `v` changes the total by the difference between `v` and the old balance.
proof fn lemma_set_total(s: Seq<(Seq<u8>, Seq<u8>)>, k: Seq<u8>, v: Seq<u8>)
    requires
        keys_sorted(s),
    ensures
        total_supply(assoc_set(s, k, v)) + le_value(balance_or_zero(s, k)) == total_supply(s)
            + le_value(v),
    decreases s.len(),
{
    let t = assoc_set(s, k, v);
    assert(le_value(zero_amount().drop_first()) == 0) by {
        assert(zero_amount().drop_first() =~= Seq::<u8>::empty());
    }
    assert(le_value(zero_amount()) == 0);
    if s.len() == 0 {
        assert(t.drop_first() =~= Seq::<(Seq<u8>, Seq<u8>)>::empty());
        assert(total_supply(t.drop_first()) == 0);
        assert(total_supply(t) == le_value(v));
    } else if s[0].0 == k {
        assert(t.drop_first() =~= s.drop_first());
        assert(total_supply(t) == le_value(v) + total_supply(s.drop_first()));
    } else if lex_lt(k, s[0].0) {
        assert(t.drop_first() =~= s);
        lemma_absent_below(s, k);
        assert(total_supply(t) == le_value(v) + total_supply(s));
    } else {
        assert(keys_sorted(s.drop_first())) by {
            assert forall|i: int, j: int| 0 <= i < j < s.drop_first().len() implies lex_lt(
                #[trigger] s.drop_first()[i].0,
                #[trigger] s.drop_first()[j].0,
            ) by {
                assert(lex_lt(s[i + 1].0, s[j + 1].0));
            }
        }
        lemma_set_total(s.drop_first(), k, v);
        assert(t.drop_first() =~= assoc_set(s.drop_first(), k, v));
    }
}

/// A transfer conserves the total supply.
pub proof fn lemma_transfer_conserves_supply(
    balances: Seq<(Seq<u8>, Seq<u8>)>,
    sender: Seq<u8>,
    recipient: Seq<u8>,
    value: Seq<u8>,
)
    requires
        keys_sorted(balances),
        covers(balances, sender, value),
    ensures
        total_supply(transfer_balances(balances, sender, recipient, value)) == total_supply(balances),
{
    let old_s = balance_or_zero(balances, sender);
    let debited = assoc_set(balances, sender, biguint_difference(old_s, value));
    lemma_canonical_value((le_value(old_s) - le_value(value)) as nat);
    lemma_set_total(balances, sender, biguint_difference(old_s, value));
    lemma_set_sorted(balances, sender, biguint_difference(old_s, value));
    let old_r = balance_or_zero(debited, recipient);
    lemma_canonical_value(le_value(old_r) + le_value(value));
    lemma_set_total(debited, recipient, biguint_sum(old_r, value));
}

/// The merge views of a list of parent entries.
pub open spec fn parent_views(parents: Seq<StateEntry>) -> Seq<
    (Seq<u8>, Seq<(Seq<u8>, u64)>, Seq<(Seq<u8>, Seq<u8>)>),
> {
    parents.map_values(|e: StateEntry| entry_view(e))
}

/// The balances of a table without the winning hashes.
fn strip_winners(table: &AddressMap<(crate::hash::Hash, Amount)>) -> (r: AddressMap<Amount>)
    requires
        table.wf(),
    ensures
        r.wf(),
        r.model() == table.model().map_values(|p: (Seq<u8>, (Seq<u8>, Seq<u8>))| (p.0, p.1.1)),
{
    let ghost t = table.model();
    let ghost stripped = t.map_values(|p: (Seq<u8>, (Seq<u8>, Seq<u8>))| (p.0, p.1.1));
    let mut entries: Vec<(Address, Amount)> = Vec::new();
    let mut i: usize = 0;
    while i < table.entries.len()
        invariant
            i <= table.entries.len(),
            t == table.model(),
            stripped == t.map_values(|p: (Seq<u8>, (Seq<u8>, Seq<u8>))| (p.0, p.1.1)),
            entries_model(entries@) == stripped.take(i as int),
        decreases table.entries.len() - i,
    {
        assert(t[i as int] == (table.entries@[i as int].0@, table.entries@[i as int].1@));
        let ghost prev = entries@;
        let item = (table.entries[i].0.copy(), table.entries[i].1.1.copy());
        entries.push(item);
        proof {
            lemma_entries_model_push(prev, item);
            assert(stripped.take(i + 1) =~= stripped.take(i as int).push(stripped[i as int]));
        }
        i = i + 1;
    }
    assert(stripped.take(i as int) =~= stripped);
    let r = AddressMap { entries };
    assert forall|a: int, b: int| 0 <= a < b < r.model().len() implies lex_lt(
        #[trigger] r.model()[a].0,
        #[trigger] r.model()[b].0,
    ) by {
        assert(lex_lt(t[a].0, t[b].0));
    }
    r
}

impl StateEntry {
    /// The merged parental state: each address takes its balance from the parent whose state
    /// hash sorts last, and its nonce as the largest over all parents.
    pub fn merge(parents: &Vec<StateEntry>) -> (r: StateEntry)
        ensures
            r.wf(),
            r.balances.model() == merged_balances(parent_views(parents@)),
            r.nonces.model() == merged_nonces(parent_views(parents@)),
    {
        let ghost ps = parent_views(parents@);
        let mut table: AddressMap<(crate::hash::Hash, Amount)> = AddressMap::new();
        let mut nonces: AddressMap<u64> = AddressMap::new();
        let mut i: usize = 0;
        assert(ps.take(0) =~= Seq::<(Seq<u8>, Seq<(Seq<u8>, u64)>, Seq<(Seq<u8>, Seq<u8>)>)>::empty());
        while i < parents.len()
            invariant
                i <= parents.len(),
                ps == parent_views(parents@),
                table.wf(),
                nonces.wf(),
                table.model() == merged_table(ps.take(i as int)),
                nonces.model() == merged_nonces(ps.take(i as int)),
            decreases parents.len() - i,
        {
            let parent = &parents[i];
            let ghost pb = parent.balances.model();
            let ghost pn = parent.nonces.model();
            let ghost table0 = table.model();
            let ghost nonces0 = nonces.model();
            let mut j: usize = 0;
            assert(pb.take(0) =~= Seq::<(Seq<u8>, Seq<u8>)>::empty());
            while j < parent.balances.entries.len()
                invariant
                    j <= parent.balances.entries.len(),
                    pb == parent.balances.model(),
                    table.wf(),
                    table.model() == fold_balances(table0, parent.hash@, pb.take(j as int)),
                decreases parent.balances.entries.len() - j,
            {
                assert(pb[j as int] == (
                    parent.balances.entries@[j as int].0@,
                    parent.balances.entries@[j as int].1@,
                ));
                assert(pb.take(j + 1).drop_last() =~= pb.take(j as int));
                let address = &parent.balances.entries[j].0;
                let take = match table.get(address) {
                    Some(w) => compare_bytes(&w.0.bytes, &parent.hash.bytes) < 0,
                    None => true,
                };
                if take {
                    table.insert(
                        address.copy(),
                        (parent.hash.copy(), parent.balances.entries[j].1.copy()),
                    );
                }
                j = j + 1;
            }
            assert(pb.take(j as int) =~= pb);
            let mut j: usize = 0;
            assert(pn.take(0) =~= Seq::<(Seq<u8>, u64)>::empty());
            while j < parent.nonces.entries.len()
                invariant
                    j <= parent.nonces.entries.len(),
                    pn == parent.nonces.model(),
                    nonces.wf(),
                    nonces.model() == fold_nonces(nonces0, pn.take(j as int)),
                decreases parent.nonces.entries.len() - j,
            {
                assert(pn[j as int] == (
                    parent.nonces.entries@[j as int].0@,
                    parent.nonces.entries@[j as int].1@,
                ));
                assert(pn.take(j + 1).drop_last() =~= pn.take(j as int));
                let address = &parent.nonces.entries[j].0;
                let n = parent.nonces.entries[j].1;
                let take = match nonces.get(address) {
                    Some(m) => *m < n,
                    None => true,
                };
                if take {
                    nonces.insert(address.copy(), n);
                }
                j = j + 1;
            }
            assert(pn.take(j as int) =~= pn);
            assert(ps.take(i + 1).drop_last() =~= ps.take(i as int));
            assert(ps[i as int] == entry_view(parents@[i as int]));
            i = i + 1;
        }
        assert(ps.take(i as int) =~= ps);
        let balances = strip_winners(&table);
        StateEntry::new(nonces, balances)
    }
}

} // verus!

use vstd::prelude::*;

use crate::bytes::{
    compare_bytes, lemma_lex_asymmetric, lemma_lex_irreflexive, lemma_lex_total,
    lemma_lex_transitive, lex_lt,
};
use crate::hash::Address;

verus! {

/// The value stored under key `k` in an association list, if any.
pub open spec fn assoc_get<V>(s: Seq<(Seq<u8>, V)>, k: Seq<u8>) -> Option<V>
    decreases s.len(),
{
    if s.len() == 0 {
        None
    } else if s[0].0 == k {
        Some(s[0].1)
    } else {
        assoc_get(s.drop_first(), k)
    }
}

/// The association list with `k` bound to `v`: an existing binding is replaced in place,
/// otherwise the pair goes before the first larger key.
pub open spec fn assoc_set<V>(s: Seq<(Seq<u8>, V)>, k: Seq<u8>, v: V) -> Seq<(Seq<u8>, V)>
    decreases s.len(),
{
    if s.len() == 0 {
        seq![(k, v)]
    } else if s[0].0 == k {
        seq![(k, v)] + s.drop_first()
    } else if lex_lt(k, s[0].0) {
        seq![(k, v)] + s
    } else {
        seq![s[0]] + assoc_set(s.drop_first(), k, v)
    }
}

/// Keys strictly ascending in byte order.
pub open spec fn keys_sorted<V>(s: Seq<(Seq<u8>, V)>) -> bool {
    forall|i: int, j: int| 0 <= i < j < s.len() ==> lex_lt(#[trigger] s[i].0, #[trigger] s[j].0)
}

pub proof fn lemma_set_get<V>(s: Seq<(Seq<u8>, V)>, k: Seq<u8>, v: V, q: Seq<u8>)
    ensures
        assoc_get(assoc_set(s, k, v), q) == if q == k {
            Some(v)
        } else {
            assoc_get(s, q)
        },
    decreases s.len(),
{
    let t = assoc_set(s, k, v);
    if s.len() == 0 {
        assert(t.drop_first() =~= Seq::<(Seq<u8>, V)>::empty());
        assert(t[0] == (k, v));
        assert(assoc_get(t.drop_first(), q) is None);
    } else if s[0].0 == k {
        assert(t.drop_first() =~= s.drop_first());
        assert(t[0] == (k, v));
    } else if lex_lt(k, s[0].0) {
        assert(t.drop_first() =~= s);
        assert(t[0] == (k, v));
    } else {
        assert(t[0] == s[0]);
        lemma_set_get(s.drop_first(), k, v, q);
        assert(t.drop_first() =~= assoc_set(s.drop_first(), k, v));
    }
}

proof fn lemma_set_bounded_below<V>(s: Seq<(Seq<u8>, V)>, k: Seq<u8>, v: V, b: Seq<u8>)
    requires
        lex_lt(b, k),
        forall|i: int| 0 <= i < s.len() ==> lex_lt(b, #[trigger] s[i].0),
    ensures
        forall|i: int|
            0 <= i < assoc_set(s, k, v).len() ==> lex_lt(b, #[trigger] assoc_set(s, k, v)[i].0),
    decreases s.len(),
{
    let t = assoc_set(s, k, v);
    if s.len() == 0 {
    } else if s[0].0 == k {
        assert forall|i: int| 0 <= i < t.len() implies lex_lt(b, #[trigger] t[i].0) by {
            if i > 0 {
                assert(t[i] == s[i]);
            }
        }
    } else if lex_lt(k, s[0].0) {
        assert forall|i: int| 0 <= i < t.len() implies lex_lt(b, #[trigger] t[i].0) by {
            if i > 0 {
                assert(t[i] == s[i - 1]);
            }
        }
    } else {
        let r = assoc_set(s.drop_first(), k, v);
        lemma_set_bounded_below(s.drop_first(), k, v, b);
        assert forall|i: int| 0 <= i < t.len() implies lex_lt(b, #[trigger] t[i].0) by {
            if i > 0 {
                assert(t[i] == r[i - 1]);
            }
        }
    }
}

pub proof fn lemma_set_sorted<V>(s: Seq<(Seq<u8>, V)>, k: Seq<u8>, v: V)
    requires
        keys_sorted(s),
    ensures
        keys_sorted(assoc_set(s, k, v)),
    decreases s.len(),
{
    let t = assoc_set(s, k, v);
    if s.len() == 0 {
    } else if s[0].0 == k {
        assert forall|i: int, j: int| 0 <= i < j < t.len() implies lex_lt(
            #[trigger] t[i].0,
            #[trigger] t[j].0,
        ) by {
            assert(t[j] == s[j]);
            if i > 0 {
                assert(t[i] == s[i]);
            }
        }
    } else if lex_lt(k, s[0].0) {
        assert forall|i: int, j: int| 0 <= i < j < t.len() implies lex_lt(
            #[trigger] t[i].0,
            #[trigger] t[j].0,
        ) by {
            assert(t[j] == s[j - 1]);
            if i > 0 {
                assert(t[i] == s[i - 1]);
            } else if j > 1 {
                assert(lex_lt(s[0].0, s[j - 1].0));
                lemma_lex_transitive(k, s[0].0, s[j - 1].0);
            }
        }
    } else {
        lemma_lex_total(k, s[0].0);
        let r = assoc_set(s.drop_first(), k, v);
        assert(keys_sorted(s.drop_first())) by {
            assert forall|i: int, j: int| 0 <= i < j < s.drop_first().len() implies lex_lt(
                #[trigger] s.drop_first()[i].0,
                #[trigger] s.drop_first()[j].0,
            ) by {
                assert(lex_lt(s[i + 1].0, s[j + 1].0));
            }
        }
        lemma_set_sorted(s.drop_first(), k, v);
        assert forall|i: int| 0 <= i < s.drop_first().len() implies lex_lt(
            s[0].0,
            #[trigger] s.drop_first()[i].0,
        ) by {
            assert(lex_lt(s[0].0, s[i + 1].0));
        }
        lemma_set_bounded_below(s.drop_first(), k, v, s[0].0);
        assert forall|i: int, j: int| 0 <= i < j < t.len() implies lex_lt(
            #[trigger] t[i].0,
            #[trigger] t[j].0,
        ) by {
            assert(t[j] == r[j - 1]);
            if i > 0 {
                assert(t[i] == r[i - 1]);
            }
        }
    }
}

/// Where every key before `p` sorts below `k` and the key at `p` does not, binding `k`
/// replaces position `p` or inserts there.
proof fn lemma_set_at<V>(s: Seq<(Seq<u8>, V)>, k: Seq<u8>, v: V, p: int)
    requires
        0 <= p <= s.len(),
        forall|j: int| 0 <= j < p ==> lex_lt(#[trigger] s[j].0, k),
        p < s.len() ==> !lex_lt(s[p].0, k),
    ensures
        assoc_set(s, k, v) == if p < s.len() && s[p].0 == k {
            s.update(p, (k, v))
        } else {
            s.insert(p, (k, v))
        },
    decreases p,
{
    if p == 0 {
        if s.len() == 0 {
            assert(s.insert(0, (k, v)) =~= seq![(k, v)]);
        } else if s[0].0 == k {
            assert(s.update(0, (k, v)) =~= seq![(k, v)] + s.drop_first());
        } else {
            lemma_lex_total(k, s[0].0);
            assert(s.insert(0, (k, v)) =~= seq![(k, v)] + s);
        }
    } else {
        lemma_lex_irreflexive(k);
        lemma_lex_asymmetric(k, s[0].0);
        assert(lex_lt(s[0].0, k));
        lemma_set_at(s.drop_first(), k, v, p - 1);
        if p < s.len() && s[p].0 == k {
            assert(s.update(p, (k, v)) =~= seq![s[0]] + s.drop_first().update(p - 1, (k, v)));
        } else {
            assert(s.insert(p, (k, v)) =~= seq![s[0]] + s.drop_first().insert(p - 1, (k, v)));
        }
    }
}

/// The (address bytes, value) pairs of a list of entries.
pub open spec fn entries_model<V: View>(s: Seq<(Address, V)>) -> Seq<(Seq<u8>, V::V)> {
    s.map_values(|e: (Address, V)| (e.0@, e.1@))
}

pub proof fn lemma_entries_model_push<V: View>(s: Seq<(Address, V)>, x: (Address, V))
    ensures
        entries_model(s.push(x)) == entries_model(s).push((x.0@, x.1@)),
{
    assert(entries_model(s.push(x)) =~= entries_model(s).push((x.0@, x.1@)));
}

/// A finite map from addresses to values, kept as a list sorted by address bytes.
pub struct AddressMap<V> {
    pub entries: Vec<(Address, V)>,
}

impl<V: View> AddressMap<V> {
    /// The bindings as (address bytes, value) pairs, in order.
    pub open spec fn model(&self) -> Seq<(Seq<u8>, V::V)> {
        entries_model(self.entries@)
    }

    pub open spec fn wf(&self) -> bool {
        keys_sorted(self.model())
    }

    pub fn new() -> (r: AddressMap<V>)
        ensures
            r.model() == Seq::<(Seq<u8>, V::V)>::empty(),
            r.wf(),
    {
        let r = AddressMap { entries: Vec::new() };
        assert(r.model() =~= Seq::<(Seq<u8>, V::V)>::empty());
        r
    }

    pub fn len(&self) -> (r: usize)
        ensures
            r == self.model().len(),
    {
        self.entries.len()
    }

    pub fn is_empty(&self) -> (r: bool)
        ensures
            r == (self.model().len() == 0),
    {
        self.entries.len() == 0
    }

    /// The value bound to `key`.
    pub fn get(&self, key: &Address) -> (r: Option<&V>)
        ensures
            r is None <==> assoc_get(self.model(), key@) is None,
            r is Some ==> assoc_get(self.model(), key@) == Some(r->0@),
    {
        let ghost m = self.model();
        let mut i: usize = 0;
        assert(m.skip(0) =~= m);
        while i < self.entries.len()
            invariant
                i <= self.entries.len(),
                m == self.model(),
                m.len() == self.entries.len(),
                assoc_get(m, key@) == assoc_get(m.skip(i as int), key@),
            decreases self.entries.len() - i,
        {
            assert(m.skip(i as int)[0] == m[i as int]);
            if compare_bytes(&self.entries[i].0.bytes, &key.bytes) == 0 {
                return Some(&self.entries[i].1);
            }
            assert(m.skip(i as int).drop_first() =~= m.skip(i + 1));
            i = i + 1;
        }
        None
    }

    /// Binds `key` to `value`, replacing any earlier binding.
    pub fn insert(&mut self, key: Address, value: V)
        requires
            old(self).wf(),
        ensures
            final(self).wf(),
            final(self).model() == assoc_set(old(self).model(), key@, value@),
            forall|q: Seq<u8>|
                #[trigger] assoc_get(final(self).model(), q) == if q == key@ {
                    Some(value@)
                } else {
                    assoc_get(old(self).model(), q)
                },
    {
        let ghost m = self.model();
        let ghost k = key@;
        let mut i: usize = 0;
        while i < self.entries.len()
            invariant
                i <= self.entries.len(),
                m == self.model(),
                m.len() == self.entries.len(),
                k == key@,
                forall|j: int| 0 <= j < i ==> lex_lt(#[trigger] m[j].0, k),
            ensures
                i <= self.entries.len(),
                forall|j: int| 0 <= j < i ==> lex_lt(#[trigger] m[j].0, k),
                i < self.entries.len() ==> !lex_lt(m[i as int].0, k),
            decreases self.entries.len() - i,
        {
            if compare_bytes(&self.entries[i].0.bytes, &key.bytes) >= 0 {
                break;
            }
            i = i + 1;
        }
        proof {
            lemma_set_at(m, k, value@, i as int);
            lemma_set_sorted(m, k, value@);
            assert forall|q: Seq<u8>| #[trigger] assoc_get(assoc_set(m, k, value@), q) == if q == k {
                Some(value@)
            } else {
                assoc_get(m, q)
            } by {
                lemma_set_get(m, k, value@, q);
            }
        }
        if i < self.entries.len() && compare_bytes(&self.entries[i].0.bytes, &key.bytes) == 0 {
            self.entries.set(i, (key, value));
            assert(self.model() =~= m.update(i as int, (k, value@)));
        } else {
            self.entries.insert(i, (key, value));
            assert(self.model() =~= m.insert(i as int, (k, value@)));
        }
    }
}

} // verus!

use vstd::prelude::*;

use crate::address_map::{entries_model, keys_sorted, lemma_entries_model_push, AddressMap};
use crate::amount::Amount;
use crate::bytes::{compare_bytes, lemma_lex_transitive, lex_lt};
use crate::graph::{
    encode_node, encode_option_state, hash_views, lemma_hash_views_push, signature_view, tx_view, Node,
};
use crate::state::{encode_balance_list, encode_nonce_list, encode_state, StateEntry};
use crate::bytes::{len_prefixed, u64_le};
use crate::hash::Address;
use crate::signature::Signature;
use crate::transaction::{
    encode_bool, encode_data, encode_hash_list, encode_log_list, encode_option_bytes,
    encode_option_receipts, encode_option_signature, encode_receipt, encode_receipt_list,
    encode_receipt_map, encode_transaction, option_address_view, option_hash_view, Receipt,
    ReceiptMap, Transaction, TransactionData,
};

verus! {

proof fn lemma_u64_bytes(x: u64, b0: u8, b1: u8, b2: u8, b3: u8, b4: u8, b5: u8, b6: u8, b7: u8)
    requires
        x == (b0 as u64) | ((b1 as u64) << 8u64) | ((b2 as u64) << 16u64) | ((b3 as u64) << 24u64)
            | ((b4 as u64) << 32u64) | ((b5 as u64) << 40u64) | ((b6 as u64) << 48u64) | ((
        b7 as u64) << 56u64),
    ensures
        u64_le(x) == seq![b0, b1, b2, b3, b4, b5, b6, b7],
{
    assert((x & 0xff) as u8 == b0) by (bit_vector)
        requires
            x == (b0 as u64) | ((b1 as u64) << 8u64) | ((b2 as u64) << 16u64) | ((b3 as u64)
                << 24u64) | ((b4 as u64) << 32u64) | ((b5 as u64) << 40u64) | ((b6 as u64)
                << 48u64) | ((b7 as u64) << 56u64),
    ;
    assert(((x >> 8u64) & 0xff) as u8 == b1) by (bit_vector)
        requires
            x == (b0 as u64) | ((b1 as u64) << 8u64) | ((b2 as u64) << 16u64) | ((b3 as u64)
                << 24u64) | ((b4 as u64) << 32u64) | ((b5 as u64) << 40u64) | ((b6 as u64)
                << 48u64) | ((b7 as u64) << 56u64),
    ;
    assert(((x >> 16u64) & 0xff) as u8 == b2) by (bit_vector)
        requires
            x == (b0 as u64) | ((b1 as u64) << 8u64) | ((b2 as u64) << 16u64) | ((b3 as u64)
                << 24u64) | ((b4 as u64) << 32u64) | ((b5 as u64) << 40u64) | ((b6 as u64)
                << 48u64) | ((b7 as u64) << 56u64),
    ;
    assert(((x >> 24u64) & 0xff) as u8 == b3) by (bit_vector)
        requires
            x == (b0 as u64) | ((b1 as u64) << 8u64) | ((b2 as u64) << 16u64) | ((b3 as u64)
                << 24u64) | ((b4 as u64) << 32u64) | ((b5 as u64) << 40u64) | ((b6 as u64)
                << 48u64) | ((b7 as u64) << 56u64),
    ;
    assert(((x >> 32u64) & 0xff) as u8 == b4) by (bit_vector)
        requires
            x == (b0 as u64) | ((b1 as u64) << 8u64) | ((b2 as u64) << 16u64) | ((b3 as u64)
                << 24u64) | ((b4 as u64) << 32u64) | ((b5 as u64) << 40u64) | ((b6 as u64)
                << 48u64) | ((b7 as u64) << 56u64),
    ;
    assert(((x >> 40u64) & 0xff) as u8 == b5) by (bit_vector)
        requires
            x == (b0 as u64) | ((b1 as u64) << 8u64) | ((b2 as u64) << 16u64) | ((b3 as u64)
                << 24u64) | ((b4 as u64) << 32u64) | ((b5 as u64) << 40u64) | ((b6 as u64)
                << 48u64) | ((b7 as u64) << 56u64),
    ;
    assert(((x >> 48u64) & 0xff) as u8 == b6) by (bit_vector)
        requires
            x == (b0 as u64) | ((b1 as u64) << 8u64) | ((b2 as u64) << 16u64) | ((b3 as u64)
                << 24u64) | ((b4 as u64) << 32u64) | ((b5 as u64) << 40u64) | ((b6 as u64)
                << 48u64) | ((b7 as u64) << 56u64),
    ;
    assert(((x >> 56u64) & 0xff) as u8 == b7) by (bit_vector)
        requires
            x == (b0 as u64) | ((b1 as u64) << 8u64) | ((b2 as u64) << 16u64) | ((b3 as u64)
                << 24u64) | ((b4 as u64) << 32u64) | ((b5 as u64) << 40u64) | ((b6 as u64)
                << 48u64) | ((b7 as u64) << 56u64),
    ;
    assert(u64_le(x) =~= seq![b0, b1, b2, b3, b4, b5, b6, b7]);
}

proof fn lemma_split(b: Seq<u8>, i: int, j: int, k: int)
    requires
        0 <= i <= j <= k <= b.len(),
    ensures
        b.subrange(i, k) == b.subrange(i, j) + b.subrange(j, k),
{
    assert(b.subrange(i, k) =~= b.subrange(i, j) + b.subrange(j, k));
}

/// `e` stands in `b` at `pos`.
pub open spec fn bytes_at(b: Seq<u8>, pos: int, e: Seq<u8>) -> bool {
    0 <= pos && pos + e.len() <= b.len() && b.subrange(pos, pos + e.len()) == e
}

proof fn lemma_at_split(b: Seq<u8>, pos: int, p: Seq<u8>, q: Seq<u8>)
    ensures
        bytes_at(b, pos, p + q) ==> bytes_at(b, pos, p) && bytes_at(b, pos + p.len(), q),
{
    if bytes_at(b, pos, p + q) {
        assert(b.subrange(pos, pos + p.len()) =~= (p + q).subrange(0, p.len() as int));
        assert((p + q).subrange(0, p.len() as int) =~= p);
        assert(b.subrange(pos + p.len(), pos + p.len() + q.len()) =~= (p + q).subrange(
            p.len() as int,
            (p.len() + q.len()) as int,
        ));
        assert((p + q).subrange(p.len() as int, (p.len() + q.len()) as int) =~= q);
    }
}

proof fn lemma_at_join(b: Seq<u8>, pos: int, p: Seq<u8>, q: Seq<u8>)
    ensures
        bytes_at(b, pos, p) && bytes_at(b, pos + p.len(), q) ==> bytes_at(b, pos, p + q),
{
    if bytes_at(b, pos, p) && bytes_at(b, pos + p.len(), q) {
        assert(b.subrange(pos, pos + p.len() + q.len()) =~= b.subrange(pos, pos + p.len())
            + b.subrange(pos + p.len(), pos + p.len() + q.len()));
    }
}

proof fn lemma_u64_le_injective(x: u64, y: u64)
    requires
        u64_le(x) == u64_le(y),
    ensures
        x == y,
{
    assert(u64_le(x)[0] == u64_le(y)[0]);
    assert(u64_le(x)[1] == u64_le(y)[1]);
    assert(u64_le(x)[2] == u64_le(y)[2]);
    assert(u64_le(x)[3] == u64_le(y)[3]);
    assert(u64_le(x)[4] == u64_le(y)[4]);
    assert(u64_le(x)[5] == u64_le(y)[5]);
    assert(u64_le(x)[6] == u64_le(y)[6]);
    assert(u64_le(x)[7] == u64_le(y)[7]);
    assert(x == y) by (bit_vector)
        requires
            (x & 0xff) as u8 == (y & 0xff) as u8,
            ((x >> 8u64) & 0xff) as u8 == ((y >> 8u64) & 0xff) as u8,
            ((x >> 16u64) & 0xff) as u8 == ((y >> 16u64) & 0xff) as u8,
            ((x >> 24u64) & 0xff) as u8 == ((y >> 24u64) & 0xff) as u8,
            ((x >> 32u64) & 0xff) as u8 == ((y >> 32u64) & 0xff) as u8,
            ((x >> 40u64) & 0xff) as u8 == ((y >> 40u64) & 0xff) as u8,
            ((x >> 48u64) & 0xff) as u8 == ((y >> 48u64) & 0xff) as u8,
            ((x >> 56u64) & 0xff) as u8 == ((y >> 56u64) & 0xff) as u8,
    ;
}

proof fn lemma_hash_list_concat(s: Seq<crate::hash::Hash>, j: int)
    requires
        0 <= j <= s.len(),
    ensures
        encode_hash_list(s) == encode_hash_list(s.take(j)) + encode_hash_list(s.skip(j)),
    decreases s.len(),
{
    if j == s.len() {
        assert(s.take(j) =~= s);
        assert(s.skip(j) =~= Seq::<crate::hash::Hash>::empty());
        assert(encode_hash_list(s) + Seq::<u8>::empty() =~= encode_hash_list(s));
    } else {
        let d = s.drop_last();
        lemma_hash_list_concat(d, j);
        assert(d.take(j) =~= s.take(j));
        assert(s.skip(j).drop_last() =~= d.skip(j));
        assert(s.skip(j).last() == s.last());
        assert(encode_hash_list(s) =~= encode_hash_list(s.take(j)) + encode_hash_list(s.skip(j)));
    }
}

proof fn lemma_hash_list_step(s: Seq<crate::hash::Hash>, k: int)
    requires
        0 <= k < s.len(),
    ensures
        ({
            let x = s[k];
            encode_hash_list(s.skip(k)) == len_prefixed(x@) + encode_hash_list(s.skip(k + 1))
        }),
{
    let t = s.skip(k);
    lemma_hash_list_concat(t, 1);
    assert(t.take(1).drop_last() =~= Seq::<crate::hash::Hash>::empty());
    assert(encode_hash_list(t.take(1).drop_last()) =~= Seq::<u8>::empty());
    assert(t.take(1).last() == s[k]);
    assert(t.skip(1) =~= s.skip(k + 1));
    let x = s[k];
    assert(encode_hash_list(t.take(1)) =~= len_prefixed(x@));
}

proof fn lemma_log_list_concat(s: Seq<Vec<u8>>, j: int)
    requires
        0 <= j <= s.len(),
    ensures
        encode_log_list(s) == encode_log_list(s.take(j)) + encode_log_list(s.skip(j)),
    decreases s.len(),
{
    if j == s.len() {
        assert(s.take(j) =~= s);
        assert(s.skip(j) =~= Seq::<Vec<u8>>::empty());
        assert(encode_log_list(s) + Seq::<u8>::empty() =~= encode_log_list(s));
    } else {
        let d = s.drop_last();
        lemma_log_list_concat(d, j);
        assert(d.take(j) =~= s.take(j));
        assert(s.skip(j).drop_last() =~= d.skip(j));
        assert(s.skip(j).last() == s.last());
        assert(encode_log_list(s) =~= encode_log_list(s.take(j)) + encode_log_list(s.skip(j)));
    }
}

proof fn lemma_log_list_step(s: Seq<Vec<u8>>, k: int)
    requires
        0 <= k < s.len(),
    ensures
        ({
            let x = s[k];
            encode_log_list(s.skip(k)) == len_prefixed(x@) + encode_log_list(s.skip(k + 1))
        }),
{
    let t = s.skip(k);
    lemma_log_list_concat(t, 1);
    assert(t.take(1).drop_last() =~= Seq::<Vec<u8>>::empty());
    assert(encode_log_list(t.take(1).drop_last()) =~= Seq::<u8>::empty());
    assert(t.take(1).last() == s[k]);
    assert(t.skip(1) =~= s.skip(k + 1));
    let x = s[k];
    assert(encode_log_list(t.take(1)) =~= len_prefixed(x@));
}

proof fn lemma_receipt_list_concat(s: Seq<Receipt>, j: int)
    requires
        0 <= j <= s.len(),
    ensures
        encode_receipt_list(s) == encode_receipt_list(s.take(j)) + encode_receipt_list(s.skip(j)),
    decreases s.len(),
{
    if j == s.len() {
        assert(s.take(j) =~= s);
        assert(s.skip(j) =~= Seq::<Receipt>::empty());
        assert(encode_receipt_list(s) + Seq::<u8>::empty() =~= encode_receipt_list(s));
    } else {
        let d = s.drop_last();
        lemma_receipt_list_concat(d, j);
        assert(d.take(j) =~= s.take(j));
        assert(s.skip(j).drop_last() =~= d.skip(j));
        assert(s.skip(j).last() == s.last());
        assert(encode_receipt_list(s) =~= encode_receipt_list(s.take(j)) + encode_receipt_list(s.skip(j)));
    }
}

proof fn lemma_receipt_list_step(s: Seq<Receipt>, k: int)
    requires
        0 <= k < s.len(),
    ensures
        ({
            let x = s[k];
            encode_receipt_list(s.skip(k)) == encode_receipt(x) + encode_receipt_list(s.skip(k + 1))
        }),
{
    let t = s.skip(k);
    lemma_receipt_list_concat(t, 1);
    assert(t.take(1).drop_last() =~= Seq::<Receipt>::empty());
    assert(encode_receipt_list(t.take(1).drop_last()) =~= Seq::<u8>::empty());
    assert(t.take(1).last() == s[k]);
    assert(t.skip(1) =~= s.skip(k + 1));
    let x = s[k];
    assert(encode_receipt_list(t.take(1)) =~= encode_receipt(x));
}

proof fn lemma_nonce_list_concat(s: Seq<(Seq<u8>, u64)>, j: int)
    requires
        0 <= j <= s.len(),
    ensures
        encode_nonce_list(s) == encode_nonce_list(s.take(j)) + encode_nonce_list(s.skip(j)),
    decreases s.len(),
{
    if j == s.len() {
        assert(s.take(j) =~= s);
        assert(s.skip(j) =~= Seq::<(Seq<u8>, u64)>::empty());
        assert(encode_nonce_list(s) + Seq::<u8>::empty() =~= encode_nonce_list(s));
    } else {
        let d = s.drop_last();
        lemma_nonce_list_concat(d, j);
        assert(d.take(j) =~= s.take(j));
        assert(s.skip(j).drop_last() =~= d.skip(j));
        assert(s.skip(j).last() == s.last());
        assert(encode_nonce_list(s) =~= encode_nonce_list(s.take(j)) + encode_nonce_list(s.skip(j)));
    }
}

proof fn lemma_nonce_list_step(s: Seq<(Seq<u8>, u64)>, k: int)
    requires
        0 <= k < s.len(),
    ensures
        ({
            let x = s[k];
            encode_nonce_list(s.skip(k)) == len_prefixed(x.0) + u64_le(x.1) + encode_nonce_list(s.skip(k + 1))
        }),
{
    let t = s.skip(k);
    lemma_nonce_list_concat(t, 1);
    assert(t.take(1).drop_last() =~= Seq::<(Seq<u8>, u64)>::empty());
    assert(encode_nonce_list(t.take(1).drop_last()) =~= Seq::<u8>::empty());
    assert(t.take(1).last() == s[k]);
    assert(t.skip(1) =~= s.skip(k + 1));
    let x = s[k];
    assert(encode_nonce_list(t.take(1)) =~= len_prefixed(x.0) + u64_le(x.1));
}

proof fn lemma_balance_list_concat(s: Seq<(Seq<u8>, Seq<u8>)>, j: int)
    requires
        0 <= j <= s.len(),
    ensures
        encode_balance_list(s) == encode_balance_list(s.take(j)) + encode_balance_list(s.skip(j)),
    decreases s.len(),
{
    if j == s.len() {
        assert(s.take(j) =~= s);
        assert(s.skip(j) =~= Seq::<(Seq<u8>, Seq<u8>)>::empty());
        assert(encode_balance_list(s) + Seq::<u8>::empty() =~= encode_balance_list(s));
    } else {
        let d = s.drop_last();
        lemma_balance_list_concat(d, j);
        assert(d.take(j) =~= s.take(j));
        assert(s.skip(j).drop_last() =~= d.skip(j));
        assert(s.skip(j).last() == s.last());
        assert(encode_balance_list(s) =~= encode_balance_list(s.take(j)) + encode_balance_list(s.skip(j)));
    }
}

proof fn lemma_balance_list_step(s: Seq<(Seq<u8>, Seq<u8>)>, k: int)
    requires
        0 <= k < s.len(),
    ensures
        ({
            let x = s[k];
            encode_balance_list(s.skip(k)) == len_prefixed(x.0) + len_prefixed(x.1) + encode_balance_list(s.skip(k + 1))
        }),
{
    let t = s.skip(k);
    lemma_balance_list_concat(t, 1);
    assert(t.take(1).drop_last() =~= Seq::<(Seq<u8>, Seq<u8>)>::empty());
    assert(encode_balance_list(t.take(1).drop_last()) =~= Seq::<u8>::empty());
    assert(t.take(1).last() == s[k]);
    assert(t.skip(1) =~= s.skip(k + 1));
    let x = s[k];
    assert(encode_balance_list(t.take(1)) =~= len_prefixed(x.0) + len_prefixed(x.1));
}

/// Reads eight little-endian bytes at `pos`.
pub fn read_u64(b: &Vec<u8>, pos: usize) -> (r: Option<(u64, usize)>)
    ensures
        r is Some ==> (r->0).1 == pos + 8 && (r->0).1 <= b@.len() && b@.subrange(pos as int, (r->0).1 as int)
            == u64_le((r->0).0),
        pos + 8 <= b@.len() ==> r is Some,
        forall|v: u64| #[trigger] bytes_at(b@, pos as int, u64_le(v)) ==> r == Some((v, (pos + 8) as usize)),
{
    if b.len() < 8 || pos > b.len() - 8 {
        return None;
    }
    let x: u64 = (b[pos] as u64) | ((b[pos + 1] as u64) << 8u64) | ((b[pos + 2] as u64) << 16u64)
        | ((b[pos + 3] as u64) << 24u64) | ((b[pos + 4] as u64) << 32u64) | ((b[pos + 5] as u64)
        << 40u64) | ((b[pos + 6] as u64) << 48u64) | ((b[pos + 7] as u64) << 56u64);
    proof {
        lemma_u64_bytes(
            x,
            b@[pos as int],
            b@[pos + 1],
            b@[pos + 2],
            b@[pos + 3],
            b@[pos + 4],
            b@[pos + 5],
            b@[pos + 6],
            b@[pos + 7],
        );
        assert(b@.subrange(pos as int, pos + 8) =~= seq![
            b@[pos as int],
            b@[pos + 1],
            b@[pos + 2],
            b@[pos + 3],
            b@[pos + 4],
            b@[pos + 5],
            b@[pos + 6],
            b@[pos + 7],
        ]);
        assert forall|v: u64| #[trigger] bytes_at(b@, pos as int, u64_le(v)) implies v == x by {
            lemma_u64_le_injective(v, x);
        }
    }
    Some((x, pos + 8))
}

/// Reads one byte at `pos`.
pub fn read_byte(b: &Vec<u8>, pos: usize) -> (r: Option<(u8, usize)>)
    ensures
        r is Some ==> (r->0).1 == pos + 1 && (r->0).1 <= b@.len() && b@.subrange(pos as int, (r->0).1 as int)
            == seq![(r->0).0],
        forall|v: u8| #[trigger] bytes_at(b@, pos as int, seq![v]) ==> r == Some((v, (pos + 1) as usize)),
{
    if pos >= b.len() {
        return None;
    }
    assert(b@.subrange(pos as int, pos + 1) =~= seq![b@[pos as int]]);
    proof {
        assert forall|v: u8| #[trigger] bytes_at(b@, pos as int, seq![v]) implies v == b@[pos as int] by {
            assert(b@.subrange(pos as int, pos + 1)[0] == b@[pos as int]);
        }
    }
    Some((b[pos], pos + 1))
}

/// Reads a length-prefixed byte string at `pos`.
pub fn read_bytes(b: &Vec<u8>, pos: usize) -> (r: Option<(Vec<u8>, usize)>)
    ensures
        r is Some ==> pos <= (r->0).1 <= b@.len() && b@.subrange(pos as int, (r->0).1 as int)
            == len_prefixed((r->0).0@),
        forall|v: Seq<u8>|
            #[trigger] bytes_at(b@, pos as int, len_prefixed(v)) ==> r is Some && (r->0).0@ == v
                && (r->0).1 == pos + len_prefixed(v).len(),
{
    proof {
        assert forall|v: Seq<u8>| #[trigger] bytes_at(b@, pos as int, len_prefixed(v)) implies bytes_at(
            b@,
            pos as int,
            u64_le(v.len() as u64),
        ) && bytes_at(b@, pos + 8, v) by {
            lemma_at_split(b@, pos as int, u64_le(v.len() as u64), v);
        }
    }
    let (n, start) = match read_u64(b, pos) {
        Some(x) => x,
        None => {
            return None;
        },
    };
    let blen = b.len();
    proof {
        assert forall|v: Seq<u8>| #[trigger] bytes_at(b@, pos as int, len_prefixed(v)) implies n
            == v.len() by {
            lemma_at_split(b@, pos as int, u64_le(v.len() as u64), v);
            assert(bytes_at(b@, pos as int, u64_le(v.len() as u64)));
            assert(v.len() <= b@.len());
            assert(b@.len() == blen as int);
            assert(usize::MAX as int <= u64::MAX as int);
        }
    }
    if n > (b.len() - start) as u64 {
        return None;
    }
    let end = start + n as usize;
    let mut out: Vec<u8> = Vec::new();
    let mut i: usize = start;
    while i < end
        invariant
            start <= i <= end,
            end <= b@.len(),
            out@ == b@.subrange(start as int, i as int),
        decreases end - i,
    {
        out.push(b[i]);
        assert(b@.subrange(start as int, i + 1) =~= b@.subrange(start as int, i as int).push(
            b@[i as int],
        ));
        i = i + 1;
    }
    assert(out@.len() == n);
    assert(b@.subrange(pos as int, end as int) =~= b@.subrange(pos as int, start as int)
        + b@.subrange(start as int, end as int));
    proof {
        assert forall|v: Seq<u8>| #[trigger] bytes_at(b@, pos as int, len_prefixed(v)) implies out@
            == v by {
            assert(bytes_at(b@, pos + 8, v));
        }
    }
    Some((out, end))
}

fn read_hash_list(b: &Vec<u8>, pos: usize, expected: Ghost<Seq<crate::hash::Hash>>) -> (r: Option<
    (Vec<crate::hash::Hash>, usize),
>)
    ensures
        r is Some ==> pos <= (r->0).1 <= b@.len() && b@.subrange(pos as int, (r->0).1 as int) == u64_le(
            (r->0).0.len() as u64,
        ) + encode_hash_list((r->0).0@),
        bytes_at(b@, pos as int, u64_le(expected@.len() as u64) + encode_hash_list(expected@))
            && expected@.len() <= u64::MAX ==> r is Some && (r->0).1 == pos + (u64_le(
            expected@.len() as u64,
        ) + encode_hash_list(expected@)).len() && hash_views((r->0).0@) == hash_views(expected@),
{
    let ghost s = expected@;
    let ghost h = bytes_at(b@, pos as int, u64_le(s.len() as u64) + encode_hash_list(s))
        && s.len() <= u64::MAX;
    proof {
        lemma_at_split(b@, pos as int, u64_le(s.len() as u64), encode_hash_list(s));
        assert(s.skip(0) =~= s);
        assert(s.take(0) =~= Seq::<crate::hash::Hash>::empty());
        assert(hash_views(Seq::<crate::hash::Hash>::empty()) =~= Seq::<Seq<u8>>::empty());
    }
    let (n, start) = match read_u64(b, pos) {
        Some(x) => x,
        None => {
            return None;
        },
    };
    let mut out: Vec<crate::hash::Hash> = Vec::new();
    let mut p: usize = start;
    let mut k: u64 = 0;
    while k < n
        invariant
            start <= p <= b@.len(),
            start == pos + 8,
            k <= n,
            out.len() == k,
            s == expected@,
            h == (bytes_at(b@, pos as int, u64_le(s.len() as u64) + encode_hash_list(s)) && s.len()
                <= u64::MAX),
            b@.subrange(start as int, p as int) == encode_hash_list(out@),
            h ==> n == s.len() && bytes_at(b@, p as int, encode_hash_list(s.skip(k as int))) && p
                + encode_hash_list(s.skip(k as int)).len() == start + encode_hash_list(s).len(),
            h ==> hash_views(out@) == hash_views(s.take(k as int)),
        decreases n - k,
    {
        proof {
            if h {
                lemma_hash_list_step(s, k as int);
                lemma_at_split(b@, p as int, len_prefixed(s[k as int]@), encode_hash_list(s.skip(k + 1)));
            }
        }
        let (bytes, next) = match read_bytes(b, p) {
            Some(x) => x,
            None => {
                return None;
            },
        };
        let ghost prev = out@;
        let item = crate::hash::Hash::new(bytes);
        out.push(item);
        assert(out@.drop_last() =~= prev);
        proof {
            lemma_hash_views_push(prev, item);
            if h {
                lemma_hash_views_push(s.take(k as int), s[k as int]);
                assert(s.take(k + 1) =~= s.take(k as int).push(s[k as int]));
            }
        }
        assert(b@.subrange(start as int, next as int) =~= b@.subrange(start as int, p as int)
            + b@.subrange(p as int, next as int));
        p = next;
        k = k + 1;
    }
    proof {
        if h {
            assert(s.take(k as int) =~= s);
            assert(s.skip(k as int) =~= Seq::<crate::hash::Hash>::empty());
            assert(encode_hash_list(s.skip(k as int)).len() == 0);
            assert(p == start + encode_hash_list(s).len());
        }
    }
    assert(b@.subrange(pos as int, p as int) =~= b@.subrange(pos as int, start as int)
        + b@.subrange(start as int, p as int));
    Some((out, p))
}

fn read_receipt(b: &Vec<u8>, pos: usize, expected: Ghost<Receipt>) -> (r: Option<(Receipt, usize)>)
    ensures
        r is Some ==> pos <= (r->0).1 <= b@.len() && b@.subrange(pos as int, (r->0).1 as int)
            == encode_receipt((r->0).0),
        bytes_at(b@, pos as int, encode_receipt(expected@)) ==> r is Some && (r->0).1 == pos
            + encode_receipt(expected@).len(),
{
    let ghost e = expected@;
    let ghost s = e.logs@;
    let ghost h = bytes_at(b@, pos as int, encode_receipt(e));
    proof {
        lemma_at_split(b@, pos as int, len_prefixed(e.state_hash@) + u64_le(s.len() as u64), encode_log_list(s));
        lemma_at_split(b@, pos as int, len_prefixed(e.state_hash@), u64_le(s.len() as u64));
        assert(s.skip(0) =~= s);
        assert(s.len() <= u64::MAX) by {
            assert(e.logs@.len() == e.logs.len());
        }
    }
    let (state_hash, c0) = match read_bytes(b, pos) {
        Some(x) => x,
        None => {
            return None;
        },
    };
    let (n, start) = match read_u64(b, c0) {
        Some(x) => x,
        None => {
            return None;
        },
    };
    let mut logs: Vec<Vec<u8>> = Vec::new();
    let mut p: usize = start;
    let mut k: u64 = 0;
    while k < n
        invariant
            start <= p <= b@.len(),
            k <= n,
            logs.len() == k,
            s == e.logs@,
            e == expected@,
            h == bytes_at(b@, pos as int, encode_receipt(e)),
            b@.subrange(start as int, p as int) == encode_log_list(logs@),
            h ==> n == s.len() && bytes_at(b@, p as int, encode_log_list(s.skip(k as int))) && p
                + encode_log_list(s.skip(k as int)).len() == start + encode_log_list(s).len(),
        decreases n - k,
    {
        proof {
            if h {
                lemma_log_list_step(s, k as int);
                lemma_at_split(b@, p as int, len_prefixed(s[k as int]@), encode_log_list(s.skip(k + 1)));
            }
        }
        let (bytes, next) = match read_bytes(b, p) {
            Some(x) => x,
            None => {
                return None;
            },
        };
        let ghost prev = logs@;
        logs.push(bytes);
        assert(logs@.drop_last() =~= prev);
        assert(b@.subrange(start as int, next as int) =~= b@.subrange(start as int, p as int)
            + b@.subrange(p as int, next as int));
        p = next;
        k = k + 1;
    }
    proof {
        if h {
            assert(s.skip(k as int) =~= Seq::<Vec<u8>>::empty());
        }
    }
    let receipt = Receipt { state_hash: crate::hash::Hash::new(state_hash), logs };
    assert(b@.subrange(pos as int, p as int) =~= b@.subrange(pos as int, c0 as int) + b@.subrange(
        c0 as int,
        start as int,
    ) + b@.subrange(start as int, p as int));
    Some((receipt, p))
}

fn read_receipt_map(b: &Vec<u8>, pos: usize, expected: Ghost<ReceiptMap>) -> (r: Option<
    (ReceiptMap, usize),
>)
    ensures
        r is Some ==> pos <= (r->0).1 <= b@.len() && b@.subrange(pos as int, (r->0).1 as int)
            == encode_receipt_map((r->0).0),
        bytes_at(b@, pos as int, encode_receipt_map(expected@)) ==> r is Some && (r->0).1 == pos
            + encode_receipt_map(expected@).len(),
{
    let ghost e = expected@;
    let ghost hs = e.associated_transactions@;
    let ghost s = e.receipts@;
    let ghost head = u64_le(hs.len() as u64) + encode_hash_list(hs);
    let ghost h = bytes_at(b@, pos as int, encode_receipt_map(e));
    proof {
        lemma_at_split(b@, pos as int, head + u64_le(s.len() as u64), encode_receipt_list(s));
        lemma_at_split(b@, pos as int, head, u64_le(s.len() as u64));
        assert(encode_receipt_map(e) =~= head + u64_le(s.len() as u64) + encode_receipt_list(s));
        assert(s.skip(0) =~= s);
        assert(hs.len() == e.associated_transactions.len());
        assert(s.len() == e.receipts.len());
    }
    let (associated_transactions, c0) = match read_hash_list(b, pos, Ghost(hs)) {
        Some(x) => x,
        None => {
            return None;
        },
    };
    let (n, start) = match read_u64(b, c0) {
        Some(x) => x,
        None => {
            return None;
        },
    };
    let mut receipts: Vec<Receipt> = Vec::new();
    let mut p: usize = start;
    let mut k: u64 = 0;
    while k < n
        invariant
            start <= p <= b@.len(),
            k <= n,
            receipts.len() == k,
            s == e.receipts@,
            e == expected@,
            h == bytes_at(b@, pos as int, encode_receipt_map(e)),
            b@.subrange(start as int, p as int) == encode_receipt_list(receipts@),
            h ==> n == s.len() && bytes_at(b@, p as int, encode_receipt_list(s.skip(k as int))) && p
                + encode_receipt_list(s.skip(k as int)).len() == start + encode_receipt_list(s).len(),
        decreases n - k,
    {
        proof {
            if h {
                lemma_receipt_list_step(s, k as int);
                lemma_at_split(b@, p as int, encode_receipt(s[k as int]), encode_receipt_list(s.skip(k + 1)));
            }
        }
        let (receipt, next) = match read_receipt(b, p, Ghost(s[k as int])) {
            Some(x) => x,
            None => {
                return None;
            },
        };
        let ghost prev = receipts@;
        receipts.push(receipt);
        assert(receipts@.drop_last() =~= prev);
        assert(b@.subrange(start as int, next as int) =~= b@.subrange(start as int, p as int)
            + b@.subrange(p as int, next as int));
        p = next;
        k = k + 1;
    }
    proof {
        if h {
            assert(s.skip(k as int) =~= Seq::<Receipt>::empty());
        }
    }
    let m = ReceiptMap { associated_transactions, receipts };
    assert(b@.subrange(pos as int, p as int) =~= b@.subrange(pos as int, c0 as int) + b@.subrange(
        c0 as int,
        start as int,
    ) + b@.subrange(start as int, p as int));
    Some((m, p))
}

fn read_option_bytes(b: &Vec<u8>, pos: usize, expected: Ghost<Option<Seq<u8>>>) -> (r: Option<
    (Option<Vec<u8>>, usize),
>)
    ensures
        r is Some ==> pos <= (r->0).1 <= b@.len() && b@.subrange(pos as int, (r->0).1 as int)
            == encode_option_bytes(
            match (r->0).0 {
                None => None,
                Some(v) => Some(v@),
            },
        ),
        bytes_at(b@, pos as int, encode_option_bytes(expected@)) ==> r is Some && (r->0).1 == pos
            + encode_option_bytes(expected@).len(),
{
    proof {
        if let Some(v) = expected@ {
            lemma_at_split(b@, pos as int, seq![1u8], len_prefixed(v));
        }
    }
    let (tag, c0) = match read_byte(b, pos) {
        Some(x) => x,
        None => {
            return None;
        },
    };
    if tag == 0 {
        Some((None, c0))
    } else if tag == 1 {
        let (v, c1) = match read_bytes(b, c0) {
            Some(x) => x,
            None => {
                return None;
            },
        };
        assert(b@.subrange(pos as int, c1 as int) =~= b@.subrange(pos as int, c0 as int)
            + b@.subrange(c0 as int, c1 as int));
        Some((Some(v), c1))
    } else {
        None
    }
}

fn read_bool(b: &Vec<u8>, pos: usize, expected: Ghost<bool>) -> (r: Option<(bool, usize)>)
    ensures
        r is Some ==> pos <= (r->0).1 <= b@.len() && b@.subrange(pos as int, (r->0).1 as int)
            == encode_bool((r->0).0),
        bytes_at(b@, pos as int, encode_bool(expected@)) ==> r is Some && (r->0).1 == pos + 1,
{
    let (tag, c0) = match read_byte(b, pos) {
        Some(x) => x,
        None => {
            return None;
        },
    };
    if tag == 0 {
        Some((false, c0))
    } else if tag == 1 {
        Some((true, c0))
    } else {
        None
    }
}

proof fn lemma_peel_data(b: Seq<u8>, pos: int, d: TransactionData)
    ensures
        bytes_at(b, pos, encode_data(d)) ==> ({
            let a1 = u64_le(d.nonce);
            let a2 = len_prefixed(d.sender@);
            let a3 = len_prefixed(d.recipient@);
            let a4 = len_prefixed(d.value@);
            let a5 = len_prefixed(d.payload@);
            let a6 = u64_le(d.parents.len() as u64);
            let a7 = encode_hash_list(d.parents@);
            let a8 = encode_option_receipts(d.parent_receipts);
            let a9 = encode_option_bytes(option_hash_view(d.parent_state_hash));
            let a10 = u64_le(d.timestamp as u64);
            let o5 = pos + a1.len() + a2.len() + a3.len() + a4.len() + a5.len();
            let o7 = o5 + a6.len() + a7.len();
            &&& bytes_at(b, pos, a1)
            &&& bytes_at(b, pos + a1.len(), a2)
            &&& bytes_at(b, pos + a1.len() + a2.len(), a3)
            &&& bytes_at(b, pos + a1.len() + a2.len() + a3.len(), a4)
            &&& bytes_at(b, pos + a1.len() + a2.len() + a3.len() + a4.len(), a5)
            &&& bytes_at(b, o5, a6 + a7)
            &&& bytes_at(b, o7, a8)
            &&& bytes_at(b, o7 + a8.len(), a9)
            &&& bytes_at(b, o7 + a8.len() + a9.len(), a10)
        }),
{
    let a1 = u64_le(d.nonce);
    let a2 = len_prefixed(d.sender@);
    let a3 = len_prefixed(d.recipient@);
    let a4 = len_prefixed(d.value@);
    let a5 = len_prefixed(d.payload@);
    let a6 = u64_le(d.parents.len() as u64);
    let a7 = encode_hash_list(d.parents@);
    let a8 = encode_option_receipts(d.parent_receipts);
    let a9 = encode_option_bytes(option_hash_view(d.parent_state_hash));
    let a10 = u64_le(d.timestamp as u64);
    let pre1 = a1;
    let pre2 = pre1 + a2;
    let pre3 = pre2 + a3;
    let pre4 = pre3 + a4;
    let pre5 = pre4 + a5;
    let pre6 = pre5 + a6;
    let pre7 = pre6 + a7;
    let pre8 = pre7 + a8;
    let pre9 = pre8 + a9;
    assert(encode_data(d) == pre9 + a10);
    lemma_at_split(b, pos, pre9, a10);
    lemma_at_split(b, pos, pre8, a9);
    lemma_at_split(b, pos, pre7, a8);
    lemma_at_split(b, pos, pre6, a7);
    lemma_at_split(b, pos, pre5, a6);
    lemma_at_split(b, pos, pre4, a5);
    lemma_at_split(b, pos, pre3, a4);
    lemma_at_split(b, pos, pre2, a3);
    lemma_at_split(b, pos, pre1, a2);
    lemma_at_join(b, pos + pre5.len(), a6, a7);
}

proof fn lemma_peel_transaction(b: Seq<u8>, pos: int, t: Transaction)
    ensures
        bytes_at(b, pos, encode_transaction(t)) ==> ({
            let a1 = encode_data(t.transaction_data);
            let a2 = len_prefixed(t.hash@);
            let a3 = encode_option_signature(t.signature);
            let a4 = encode_option_bytes(option_address_view(t.deployed_contract_address));
            let a5 = encode_bool(t.contract_creation);
            let a6 = encode_bool(t.genesis);
            &&& bytes_at(b, pos, a1)
            &&& bytes_at(b, pos + a1.len(), a2)
            &&& bytes_at(b, pos + a1.len() + a2.len(), a3)
            &&& bytes_at(b, pos + a1.len() + a2.len() + a3.len(), a4)
            &&& bytes_at(b, pos + a1.len() + a2.len() + a3.len() + a4.len(), a5)
            &&& bytes_at(b, pos + a1.len() + a2.len() + a3.len() + a4.len() + a5.len(), a6)
        }),
{
    let a1 = encode_data(t.transaction_data);
    let a2 = len_prefixed(t.hash@);
    let a3 = encode_option_signature(t.signature);
    let a4 = encode_option_bytes(option_address_view(t.deployed_contract_address));
    let a5 = encode_bool(t.contract_creation);
    let a6 = encode_bool(t.genesis);
    let pre1 = a1;
    let pre2 = pre1 + a2;
    let pre3 = pre2 + a3;
    let pre4 = pre3 + a4;
    let pre5 = pre4 + a5;
    assert(encode_transaction(t) == pre5 + a6);
    lemma_at_split(b, pos, pre5, a6);
    lemma_at_split(b, pos, pre4, a5);
    lemma_at_split(b, pos, pre3, a4);
    lemma_at_split(b, pos, pre2, a3);
    lemma_at_split(b, pos, pre1, a2);
}

fn read_option_receipts(b: &Vec<u8>, pos: usize, expected: Ghost<Option<ReceiptMap>>) -> (r: Option<
    (Option<ReceiptMap>, usize),
>)
    ensures
        r is Some ==> pos <= (r->0).1 <= b@.len() && b@.subrange(pos as int, (r->0).1 as int)
            == encode_option_receipts((r->0).0),
        bytes_at(b@, pos as int, encode_option_receipts(expected@)) ==> r is Some && (r->0).1
            == pos + encode_option_receipts(expected@).len(),
{
    proof {
        if let Some(m) = expected@ {
            lemma_at_split(b@, pos as int, seq![1u8], encode_receipt_map(m));
        }
    }
    let (tag, c0) = match read_byte(b, pos) {
        Some(x) => x,
        None => {
            return None;
        },
    };
    if tag == 0 {
        Some((None, c0))
    } else if tag == 1 {
        let ghost m = match expected@ {
            Some(m) => m,
            None => arbitrary(),
        };
        match read_receipt_map(b, c0, Ghost(m)) {
            Some((m, c1)) => {
                assert(b@.subrange(pos as int, c1 as int) =~= b@.subrange(pos as int, c0 as int)
                    + b@.subrange(c0 as int, c1 as int));
                Some((Some(m), c1))
            },
            None => None,
        }
    } else {
        None
    }
}

#[verifier::rlimit(100)]
fn read_data(b: &Vec<u8>, pos: usize, expected: Ghost<TransactionData>) -> (r: Option<
    (TransactionData, usize),
>)
    ensures
        r is Some ==> pos <= (r->0).1 <= b@.len() && b@.subrange(pos as int, (r->0).1 as int)
            == encode_data((r->0).0),
        bytes_at(b@, pos as int, encode_data(expected@)) ==> r is Some && (r->0).1 == pos
            + encode_data(expected@).len() && encode_data((r->0).0) == encode_data(expected@)
            && (r->0).0.nonce == expected@.nonce && (r->0).0.sender@ == expected@.sender@
            && (r->0).0.recipient@ == expected@.recipient@ && (r->0).0.value@ == expected@.value@
            && hash_views((r->0).0.parents@) == hash_views(expected@.parents@),
{
    let ghost e = expected@;
    proof {
        lemma_peel_data(b@, pos as int, e);
        assert(e.parents@.len() == e.parents.len());
    }
    let (nonce, c1) = match read_u64(b, pos) {
        Some(x) => x,
        None => {
            return None;
        },
    };
    let (sender, c2) = match read_bytes(b, c1) {
        Some(x) => x,
        None => {
            return None;
        },
    };
    let (recipient, c3) = match read_bytes(b, c2) {
        Some(x) => x,
        None => {
            return None;
        },
    };
    let (value, c4) = match read_bytes(b, c3) {
        Some(x) => x,
        None => {
            return None;
        },
    };
    let (payload, c5) = match read_bytes(b, c4) {
        Some(x) => x,
        None => {
            return None;
        },
    };
    let (parents, c6) = match read_hash_list(b, c5, Ghost(expected@.parents@)) {
        Some(x) => x,
        None => {
            return None;
        },
    };
    let (parent_receipts, c7) = match read_option_receipts(b, c6, Ghost(e.parent_receipts)) {
        Some(x) => x,
        None => {
            return None;
        },
    };
    let (state_hash, c8) = match read_option_bytes(b, c7, Ghost(option_hash_view(e.parent_state_hash))) {
        Some(x) => x,
        None => {
            return None;
        },
    };
    let (timestamp, c9) = match read_u64(b, c8) {
        Some(x) => x,
        None => {
            return None;
        },
    };
    let parent_state_hash = match state_hash {
        None => None,
        Some(h) => Some(crate::hash::Hash::new(h)),
    };
    let d = TransactionData {
        nonce,
        sender: Address::new(sender),
        recipient: Address::new(recipient),
        value: Amount::from_le_bytes(value),
        payload,
        parents,
        parent_receipts,
        parent_state_hash,
        timestamp: timestamp as i64,
    };
    assert((timestamp as i64) as u64 == timestamp) by (bit_vector);
    proof {
        let bb = b@;
        lemma_split(bb, pos as int, c1 as int, c2 as int);
        lemma_split(bb, pos as int, c2 as int, c3 as int);
        lemma_split(bb, pos as int, c3 as int, c4 as int);
        lemma_split(bb, pos as int, c4 as int, c5 as int);
        lemma_split(bb, pos as int, c5 as int, c6 as int);
        lemma_split(bb, pos as int, c6 as int, c7 as int);
        lemma_split(bb, pos as int, c7 as int, c8 as int);
        lemma_split(bb, pos as int, c8 as int, c9 as int);
        assert(bb.subrange(c5 as int, c6 as int) == u64_le(d.parents.len() as u64) + encode_hash_list(d.parents@));
        assert(bb.subrange(pos as int, c6 as int) == u64_le(d.nonce) + len_prefixed(d.sender@) + len_prefixed(d.recipient@) + len_prefixed(d.value@) + len_prefixed(d.payload@) + (u64_le(d.parents.len() as u64) + encode_hash_list(d.parents@)));
        assert(bb.subrange(pos as int, c6 as int) =~= u64_le(d.nonce) + len_prefixed(d.sender@) + len_prefixed(d.recipient@) + len_prefixed(d.value@) + len_prefixed(d.payload@) + u64_le(d.parents.len() as u64) + encode_hash_list(d.parents@));
    }
    Some((d, c9))
}

fn read_option_signature(b: &Vec<u8>, pos: usize, expected: Ghost<Option<Signature>>) -> (r: Option<
    (Option<Signature>, usize),
>)
    ensures
        r is Some ==> pos <= (r->0).1 <= b@.len() && b@.subrange(pos as int, (r->0).1 as int)
            == encode_option_signature((r->0).0),
        bytes_at(b@, pos as int, encode_option_signature(expected@)) ==> r is Some && (r->0).1
            == pos + encode_option_signature(expected@).len() && signature_view((r->0).0)
            == signature_view(expected@),
{
    proof {
        if let Some(sig) = expected@ {
            lemma_at_split(
                b@,
                pos as int,
                seq![1u8] + len_prefixed(sig.public_key_bytes@),
                len_prefixed(sig.signature_bytes@),
            );
            lemma_at_split(b@, pos as int, seq![1u8], len_prefixed(sig.public_key_bytes@));
        }
    }
    let (tag, c0) = match read_byte(b, pos) {
        Some(x) => x,
        None => {
            return None;
        },
    };
    if tag == 0 {
        Some((None, c0))
    } else if tag == 1 {
        let (public_key_bytes, c1) = match read_bytes(b, c0) {
            Some(x) => x,
            None => {
                return None;
            },
        };
        let (signature_bytes, c2) = match read_bytes(b, c1) {
            Some(x) => x,
            None => {
                return None;
            },
        };
        assert(b@.subrange(pos as int, c2 as int) =~= b@.subrange(pos as int, c0 as int)
            + b@.subrange(c0 as int, c1 as int) + b@.subrange(c1 as int, c2 as int));
        Some((Some(Signature { public_key_bytes, signature_bytes }), c2))
    } else {
        None
    }
}

/// Reads a transaction at `pos`: the result re-encodes to exactly the bytes consumed.
pub fn read_transaction(b: &Vec<u8>, pos: usize, expected: Ghost<Transaction>) -> (r: Option<
    (Transaction, usize),
>)
    ensures
        r is Some ==> pos <= (r->0).1 <= b@.len() && b@.subrange(pos as int, (r->0).1 as int)
            == encode_transaction((r->0).0),
        bytes_at(b@, pos as int, encode_transaction(expected@)) ==> r is Some && (r->0).1 == pos
            + encode_transaction(expected@).len() && tx_view((r->0).0) == tx_view(expected@),
{
    let ghost e = expected@;
    proof {
        lemma_peel_transaction(b@, pos as int, e);
    }
    let (transaction_data, c1) = match read_data(b, pos, Ghost(e.transaction_data)) {
        Some(x) => x,
        None => {
            return None;
        },
    };
    let (hash, c2) = match read_bytes(b, c1) {
        Some(x) => x,
        None => {
            return None;
        },
    };
    let (signature, c3) = match read_option_signature(b, c2, Ghost(e.signature)) {
        Some(x) => x,
        None => {
            return None;
        },
    };
    let (contract, c4) = match read_option_bytes(b, c3, Ghost(option_address_view(e.deployed_contract_address))) {
        Some(x) => x,
        None => {
            return None;
        },
    };
    let (contract_creation, c5) = match read_bool(b, c4, Ghost(e.contract_creation)) {
        Some(x) => x,
        None => {
            return None;
        },
    };
    let (genesis, c6) = match read_bool(b, c5, Ghost(e.genesis)) {
        Some(x) => x,
        None => {
            return None;
        },
    };
    let deployed_contract_address = match contract {
        None => None,
        Some(a) => Some(Address::new(a)),
    };
    let t = Transaction {
        transaction_data,
        hash: crate::hash::Hash::new(hash),
        signature,
        deployed_contract_address,
        contract_creation,
        genesis,
    };
    proof {
        let bb = b@;
        lemma_split(bb, pos as int, c1 as int, c2 as int);
        lemma_split(bb, pos as int, c2 as int, c3 as int);
        lemma_split(bb, pos as int, c3 as int, c4 as int);
        lemma_split(bb, pos as int, c4 as int, c5 as int);
        lemma_split(bb, pos as int, c5 as int, c6 as int);
    }
    Some((t, c6))
}

/// The transaction that some bytes encode, where they encode one.
pub open spec fn decoded(b: Seq<u8>) -> Transaction {
    choose|t: Transaction| encode_transaction(t) == b
}

impl Transaction {
    /// Decodes a whole transaction; `None` where the bytes are not one canonical encoding.
    pub fn from_bytes(b: &Vec<u8>) -> (r: Option<Transaction>)
        ensures
            r is Some ==> encode_transaction(r->0) == b@,
            (exists|t: Transaction| encode_transaction(t) == b@) ==> r is Some,
            r is Some ==> tx_view(r->0) == tx_view(decoded(b@)),
    {
        let ghost t = decoded(b@);
        proof {
            if exists|t: Transaction| encode_transaction(t) == b@ {
                assert(b@.subrange(0, b@.len() as int) =~= b@);
                assert(bytes_at(b@, 0, encode_transaction(t)));
            }
        }
        match read_transaction(b, 0, Ghost(t)) {
            Some((t, end)) => {
                if end == b.len() {
                    assert(b@.subrange(0, end as int) =~= b@);
                    Some(t)
                } else {
                    None
                }
            },
            None => None,
        }
    }
}

fn read_nonce_list(b: &Vec<u8>, pos: usize, expected: Ghost<Seq<(Seq<u8>, u64)>>) -> (r: Option<
    (AddressMap<u64>, usize),
>)
    ensures
        r is Some ==> pos <= (r->0).1 <= b@.len() && (r->0).0.wf() && b@.subrange(pos as int, (r->0).1 as int)
            == u64_le((r->0).0.model().len() as u64) + encode_nonce_list((r->0).0.model()),
        bytes_at(b@, pos as int, u64_le(expected@.len() as u64) + encode_nonce_list(expected@))
            && expected@.len() <= u64::MAX && keys_sorted(expected@) ==> r is Some && (r->0).0.model()
            == expected@ && (r->0).1 == pos + (u64_le(expected@.len() as u64) + encode_nonce_list(
            expected@,
        )).len(),
{
    let ghost s = expected@;
    let ghost h = bytes_at(b@, pos as int, u64_le(s.len() as u64) + encode_nonce_list(s)) && s.len()
        <= u64::MAX && keys_sorted(s);
    proof {
        lemma_at_split(b@, pos as int, u64_le(s.len() as u64), encode_nonce_list(s));
        assert(s.skip(0) =~= s);
        assert(s.take(0) =~= Seq::<(Seq<u8>, u64)>::empty());
        assert(entries_model(Seq::<(Address, u64)>::empty()) =~= Seq::<(Seq<u8>, u64)>::empty());
    }
    let (n, start) = match read_u64(b, pos) {
        Some(x) => x,
        None => {
            return None;
        },
    };
    let mut entries: Vec<(Address, u64)> = Vec::new();
    let mut p: usize = start;
    let mut k: u64 = 0;
    while k < n
        invariant
            start <= p <= b@.len(),
            start == pos + 8,
            k <= n,
            entries.len() == k,
            s == expected@,
            h == (bytes_at(b@, pos as int, u64_le(s.len() as u64) + encode_nonce_list(s)) && s.len()
                <= u64::MAX && keys_sorted(s)),
            keys_sorted(entries_model(entries@)),
            b@.subrange(start as int, p as int) == encode_nonce_list(entries_model(entries@)),
            h ==> n == s.len() && entries_model(entries@) == s.take(k as int) && bytes_at(
                b@,
                p as int,
                encode_nonce_list(s.skip(k as int)),
            ) && p + encode_nonce_list(s.skip(k as int)).len() == start + encode_nonce_list(s).len(),
        decreases n - k,
    {
        proof {
            if h {
                let x = s[k as int];
                lemma_nonce_list_step(s, k as int);
                lemma_at_split(b@, p as int, (len_prefixed(x.0) + u64_le(x.1)), encode_nonce_list(s.skip(k + 1)));
                lemma_at_split(b@, p as int, len_prefixed(x.0), u64_le(x.1));
            }
        }
        let (key, c1) = match read_bytes(b, p) {
            Some(x) => x,
            None => {
                return None;
            },
        };
        let (nonce, c2) = match read_u64(b, c1) {
            Some(x) => x,
            None => {
                return None;
            },
        };
        if entries.len() > 0 && compare_bytes(&entries[entries.len() - 1].0.bytes, &key) >= 0 {
            proof {
                if h {
                    assert(entries_model(entries@)[k - 1] == s[k - 1]);
                    assert(lex_lt(s[k - 1].0, s[k as int].0));
                }
            }
            return None;
        }
        let ghost prev = entries@;
        let ghost m0 = entries_model(prev);
        let item = (Address::new(key), nonce);
        entries.push(item);
        proof {
            lemma_entries_model_push(prev, item);
            let m = entries_model(entries@);
            assert forall|x: int, y: int| 0 <= x < y < m.len() implies lex_lt(
                #[trigger] m[x].0,
                #[trigger] m[y].0,
            ) by {
                if y == m.len() - 1 && x < y - 1 {
                    lemma_lex_transitive(m[x].0, m[y - 1].0, m[y].0);
                }
            }
            assert(m.drop_last() =~= m0);
            lemma_split(b@, start as int, p as int, c1 as int);
            lemma_split(b@, start as int, c1 as int, c2 as int);
            if h {
                assert(s.take(k + 1) =~= s.take(k as int).push(s[k as int]));
            }
        }
        p = c2;
        k = k + 1;
    }
    proof {
        lemma_split(b@, pos as int, start as int, p as int);
        if h {
            assert(s.skip(k as int) =~= Seq::<(Seq<u8>, u64)>::empty());
            assert(s.take(k as int) =~= s);
        }
    }
    Some((AddressMap { entries }, p))
}

fn read_balance_list(b: &Vec<u8>, pos: usize, expected: Ghost<Seq<(Seq<u8>, Seq<u8>)>>) -> (r: Option<
    (AddressMap<Amount>, usize),
>)
    ensures
        r is Some ==> pos <= (r->0).1 <= b@.len() && (r->0).0.wf() && b@.subrange(pos as int, (r->0).1 as int)
            == u64_le((r->0).0.model().len() as u64) + encode_balance_list((r->0).0.model()),
        bytes_at(b@, pos as int, u64_le(expected@.len() as u64) + encode_balance_list(expected@))
            && expected@.len() <= u64::MAX && keys_sorted(expected@) ==> r is Some && (r->0).0.model()
            == expected@ && (r->0).1 == pos + (u64_le(expected@.len() as u64) + encode_balance_list(
            expected@,
        )).len(),
{
    let ghost s = expected@;
    let ghost h = bytes_at(b@, pos as int, u64_le(s.len() as u64) + encode_balance_list(s)) && s.len()
        <= u64::MAX && keys_sorted(s);
    proof {
        lemma_at_split(b@, pos as int, u64_le(s.len() as u64), encode_balance_list(s));
        assert(s.skip(0) =~= s);
        assert(s.take(0) =~= Seq::<(Seq<u8>, Seq<u8>)>::empty());
        assert(entries_model(Seq::<(Address, Amount)>::empty()) =~= Seq::<(Seq<u8>, Seq<u8>)>::empty());
    }
    let (n, start) = match read_u64(b, pos) {
        Some(x) => x,
        None => {
            return None;
        },
    };
    let mut entries: Vec<(Address, Amount)> = Vec::new();
    let mut p: usize = start;
    let mut k: u64 = 0;
    while k < n
        invariant
            start <= p <= b@.len(),
            start == pos + 8,
            k <= n,
            entries.len() == k,
            s == expected@,
            h == (bytes_at(b@, pos as int, u64_le(s.len() as u64) + encode_balance_list(s)) && s.len()
                <= u64::MAX && keys_sorted(s)),
            keys_sorted(entries_model(entries@)),
            b@.subrange(start as int, p as int) == encode_balance_list(entries_model(entries@)),
            h ==> n == s.len() && entries_model(entries@) == s.take(k as int) && bytes_at(
                b@,
                p as int,
                encode_balance_list(s.skip(k as int)),
            ) && p + encode_balance_list(s.skip(k as int)).len() == start + encode_balance_list(s).len(),
        decreases n - k,
    {
        proof {
            if h {
                let x = s[k as int];
                lemma_balance_list_step(s, k as int);
                lemma_at_split(b@, p as int, (len_prefixed(x.0) + len_prefixed(x.1)), encode_balance_list(s.skip(k + 1)));
                lemma_at_split(b@, p as int, len_prefixed(x.0), len_prefixed(x.1));
            }
        }
        let (key, c1) = match read_bytes(b, p) {
            Some(x) => x,
            None => {
                return None;
            },
        };
        let (amount, c2) = match read_bytes(b, c1) {
            Some(x) => x,
            None => {
                return None;
            },
        };
        if entries.len() > 0 && compare_bytes(&entries[entries.len() - 1].0.bytes, &key) >= 0 {
            proof {
                if h {
                    assert(entries_model(entries@)[k - 1] == s[k - 1]);
                    assert(lex_lt(s[k - 1].0, s[k as int].0));
                }
            }
            return None;
        }
        let ghost prev = entries@;
        let ghost m0 = entries_model(prev);
        let item = (Address::new(key), Amount::from_le_bytes(amount));
        entries.push(item);
        proof {
            lemma_entries_model_push(prev, item);
            let m = entries_model(entries@);
            assert forall|x: int, y: int| 0 <= x < y < m.len() implies lex_lt(
                #[trigger] m[x].0,
                #[trigger] m[y].0,
            ) by {
                if y == m.len() - 1 && x < y - 1 {
                    lemma_lex_transitive(m[x].0, m[y - 1].0, m[y].0);
                }
            }
            assert(m.drop_last() =~= m0);
            lemma_split(b@, start as int, p as int, c1 as int);
            lemma_split(b@, start as int, c1 as int, c2 as int);
            if h {
                assert(s.take(k + 1) =~= s.take(k as int).push(s[k as int]));
            }
        }
        p = c2;
        k = k + 1;
    }
    proof {
        lemma_split(b@, pos as int, start as int, p as int);
        if h {
            assert(s.skip(k as int) =~= Seq::<(Seq<u8>, Seq<u8>)>::empty());
            assert(s.take(k as int) =~= s);
        }
    }
    Some((AddressMap { entries }, p))
}

fn read_option_state(b: &Vec<u8>, pos: usize, expected: Ghost<Option<StateEntry>>) -> (r: Option<
    (Option<StateEntry>, usize),
>)
    ensures
        r is Some ==> pos <= (r->0).1 <= b@.len() && b@.subrange(pos as int, (r->0).1 as int)
            == encode_option_state((r->0).0) && ((r->0).0 is Some ==> (r->0).0->0.wf()),
        bytes_at(b@, pos as int, encode_option_state(expected@)) && (expected@ is Some
            ==> expected@->0.wf()) ==> r is Some && (r->0).1 == pos + encode_option_state(
            expected@,
        ).len(),
{
    let ghost ns = match expected@ {
        Some(e) => e.nonces.model(),
        None => Seq::empty(),
    };
    let ghost bs = match expected@ {
        Some(e) => e.balances.model(),
        None => Seq::empty(),
    };
    proof {
        if let Some(e) = expected@ {
            let a = u64_le(ns.len() as u64) + encode_nonce_list(ns);
            let c = u64_le(bs.len() as u64) + encode_balance_list(bs);
            assert(encode_option_state(expected@) =~= seq![1u8] + a + c + len_prefixed(e.hash@));
            lemma_at_split(b@, pos as int, seq![1u8] + a + c, len_prefixed(e.hash@));
            lemma_at_split(b@, pos as int, seq![1u8] + a, c);
            lemma_at_split(b@, pos as int, seq![1u8], a);
            assert(ns.len() == e.nonces.entries.len());
            assert(bs.len() == e.balances.entries.len());
        }
    }
    let (tag, c0) = match read_byte(b, pos) {
        Some(x) => x,
        None => {
            return None;
        },
    };
    if tag == 0 {
        return Some((None, c0));
    }
    if tag != 1 {
        return None;
    }
    let (nonces, c1) = match read_nonce_list(b, c0, Ghost(ns)) {
        Some(x) => x,
        None => {
            return None;
        },
    };
    let (balances, c2) = match read_balance_list(b, c1, Ghost(bs)) {
        Some(x) => x,
        None => {
            return None;
        },
    };
    let (hash, c3) = match read_bytes(b, c2) {
        Some(x) => x,
        None => {
            return None;
        },
    };
    let entry = StateEntry::new(nonces, balances);
    if !crate::bytes::bytes_equal(&entry.hash.bytes, &hash) {
        return None;
    }
    proof {
        lemma_split(b@, pos as int, c0 as int, c1 as int);
        lemma_split(b@, pos as int, c1 as int, c2 as int);
        lemma_split(b@, pos as int, c2 as int, c3 as int);
        lemma_split(b@, c0 as int, c1 as int, c2 as int);
        assert(b@.subrange(c0 as int, c2 as int) =~= encode_state(entry.nonces.model(), entry.balances.model()));
    }
    Some((Some(entry), c3))
}

impl Node {
    /// Decodes a stored node; `None` where the bytes are not one canonical encoding or a
    /// stored state does not match its hash.
    #[verifier::rlimit(100)]
    pub fn from_bytes(b: &Vec<u8>) -> (r: Option<Node>)
        ensures
            r is Some ==> encode_node(r->0) == b@ && (r->0.state_entry is Some ==> r->0.state_entry->0.wf()),
            (exists|n: Node|
                encode_node(n) == b@ && (n.state_entry is Some ==> n.state_entry->0.wf())) ==> r is Some,
    {
        let ghost n = choose|n: Node|
            encode_node(n) == b@ && (n.state_entry is Some ==> n.state_entry->0.wf());
        proof {
            if exists|n: Node|
                encode_node(n) == b@ && (n.state_entry is Some ==> n.state_entry->0.wf()) {
                assert(b@.subrange(0, b@.len() as int) =~= b@);
                let a = encode_transaction(n.transaction);
                let c = encode_option_state(n.state_entry);
                lemma_at_split(b@, 0, a + c, len_prefixed(n.hash@));
                lemma_at_split(b@, 0, a, c);
            }
        }
        let (transaction, c1) = match read_transaction(b, 0, Ghost(n.transaction)) {
            Some(x) => x,
            None => {
                return None;
            },
        };
        let (state_entry, c2) = match read_option_state(b, c1, Ghost(n.state_entry)) {
            Some(x) => x,
            None => {
                return None;
            },
        };
        let (hash, c3) = match read_bytes(b, c2) {
            Some(x) => x,
            None => {
                return None;
            },
        };
        if c3 != b.len() {
            return None;
        }
        let node = Node { transaction, state_entry, hash: crate::hash::Hash::new(hash) };
        proof {
            lemma_split(b@, 0, c1 as int, c2 as int);
            lemma_split(b@, 0, c2 as int, c3 as int);
            assert(b@.subrange(0, c3 as int) =~= b@);
        }
        Some(node)
    }
}

/// Round trip on well-formed input: for bytes that encode some transaction, `from_bytes`
/// (whose result `r` meets its contract) yields a transaction, and `to_bytes` of it (whose
/// result `out` meets its contract) gives back exactly those bytes.
pub proof fn lemma_round_trip(t0: Transaction, b: Seq<u8>, r: Option<Transaction>, out: Seq<u8>)
    requires
        b == encode_transaction(t0),
        r is Some ==> encode_transaction(r->0) == b,
        (exists|t: Transaction| encode_transaction(t) == b) ==> r is Some,
        r is Some ==> out == encode_transaction(r->0),
    ensures
        r is Some,
        out == b,
{
    assert(encode_transaction(t0) == b);
}

/// Writing a node and reading it back: for the stored bytes of a node whose state (if any)
/// is well formed, `Node::from_bytes` (result `r`) yields a node that stores to the same
/// bytes.
pub proof fn lemma_node_round_trip(n0: Node, b: Seq<u8>, r: Option<Node>)
    requires
        b == encode_node(n0),
        n0.state_entry is Some ==> n0.state_entry->0.wf(),
        r is Some ==> encode_node(r->0) == b,
        (exists|n: Node| encode_node(n) == b && (n.state_entry is Some ==> n.state_entry->0.wf()))
            ==> r is Some,
    ensures
        r is Some,
        encode_node(r->0) == encode_node(n0),
{
    assert(encode_node(n0) == b && (n0.state_entry is Some ==> n0.state_entry->0.wf()));
}

} // verus!

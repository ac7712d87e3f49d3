use vstd::prelude::*;

use crate::bytes::{bytes_equal, copy_bytes};

verus! {

/// Width in bytes of a digest and of an address.
pub const HASH_SIZE: usize = 32;

/// The Blake3 digest of a byte string.
pub uninterp spec fn blake3_of(data: Seq<u8>) -> Seq<u8>;

/// Relies on blake3::hash: a 32-byte digest that depends on the input bytes alone.
#[verifier::external_body]
fn blake3_digest(data: &Vec<u8>) -> (r: Vec<u8>)
    ensures
        r@ == blake3_of(data@),
        r@.len() == HASH_SIZE,
{
    blake3::hash(data.as_slice()).as_bytes().to_vec()
}

/// The lowercase hexadecimal digit for a value below 16.
pub open spec fn hex_digit(n: u8) -> u8 {
    if n < 10 {
        (48 + n) as u8
    } else {
        (87 + n) as u8
    }
}

/// Two lowercase hexadecimal digits per byte, most significant first.
pub open spec fn hex_of(s: Seq<u8>) -> Seq<u8>
    decreases s.len(),
{
    if s.len() == 0 {
        Seq::empty()
    } else {
        hex_of(s.drop_last()) + seq![hex_digit(s.last() / 16), hex_digit(s.last() % 16)]
    }
}

/// Relies on String::from_utf8: ASCII bytes decode to one character each.
#[verifier::external_body]
pub(crate) fn ascii_string(bytes: Vec<u8>) -> (r: String)
    requires
        forall|i: int| 0 <= i < bytes@.len() ==> bytes@[i] < 128,
    ensures
        r@ == bytes@.map_values(|b: u8| b as char),
{
    String::from_utf8(bytes).unwrap_or_default()
}

fn hex_digit_exec(n: u8) -> (r: u8)
    requires
        n < 16,
    ensures
        r == hex_digit(n),
        r < 128,
{
    if n < 10 {
        48 + n
    } else {
        87 + n
    }
}

/// The hexadecimal digits of some bytes, as ASCII bytes.
pub fn hex_bytes(b: &Vec<u8>) -> (r: Vec<u8>)
    ensures
        r@ == hex_of(b@),
        forall|j: int| 0 <= j < r@.len() ==> r@[j] < 128,
{
    let mut out: Vec<u8> = Vec::new();
    let mut i: usize = 0;
    while i < b.len()
        invariant
            i <= b.len(),
            out@ == hex_of(b@.take(i as int)),
            forall|j: int| 0 <= j < out@.len() ==> out@[j] < 128,
        decreases b.len() - i,
    {
        let hi = hex_digit_exec(b[i] / 16);
        let lo = hex_digit_exec(b[i] % 16);
        out.push(hi);
        out.push(lo);
        assert(b@.take(i + 1).drop_last() =~= b@.take(i as int));
        assert(out@ =~= hex_of(b@.take(i + 1)));
        i = i + 1;
    }
    assert(b@.take(i as int) =~= b@);
    out
}

/// The hexadecimal text of some bytes.
pub fn hex_string(b: &Vec<u8>) -> (r: String)
    ensures
        r@ == hex_of(b@).map_values(|c: u8| c as char),
{
    ascii_string(hex_bytes(b))
}

/// The digits of `hex_of(s)`, position by position.
pub proof fn lemma_hex_of_digits(s: Seq<u8>)
    ensures
        hex_of(s).len() == 2 * s.len(),
        forall|i: int|
            0 <= i < s.len() ==> hex_of(s)[2 * i] == hex_digit(#[trigger] s[i] / 16) && hex_of(s)[2
                * i + 1] == hex_digit(s[i] % 16),
    decreases s.len(),
{
    if s.len() > 0 {
        lemma_hex_of_digits(s.drop_last());
        assert forall|i: int| 0 <= i < s.len() implies hex_of(s)[2 * i] == hex_digit(
            #[trigger] s[i] / 16,
        ) && hex_of(s)[2 * i + 1] == hex_digit(s[i] % 16) by {
            if i < s.len() - 1 {
                assert(s.drop_last()[i] == s[i]);
            }
        }
    }
}

fn nibble(c: u8) -> (r: Option<u8>)
    ensures
        r is Some ==> r->0 < 16 && hex_digit(r->0) == c,
        r is None ==> forall|n: u8| n < 16 ==> hex_digit(n) != c,
{
    if 48 <= c && c < 58 {
        Some(c - 48)
    } else if 97 <= c && c < 103 {
        Some(c - 87)
    } else {
        None
    }
}

/// Bytes from lowercase hexadecimal digits: the inverse of `hex_of`, `None` on any other text.
pub fn hex_decode(text: &Vec<u8>) -> (r: Option<Vec<u8>>)
    ensures
        r is Some ==> hex_of(r->0@) == text@,
        (exists|v: Seq<u8>| hex_of(v) == text@) ==> r is Some,
{
    let ghost v = choose|v: Seq<u8>| hex_of(v) == text@;
    let ghost h = exists|v: Seq<u8>| hex_of(v) == text@;
    proof {
        lemma_hex_of_digits(v);
    }
    if text.len() % 2 != 0 {
        return None;
    }
    let half = text.len() / 2;
    let mut out: Vec<u8> = Vec::new();
    let mut i: usize = 0;
    while i < half
        invariant
            half * 2 == text.len(),
            i <= half,
            out.len() == i,
            h == (exists|v: Seq<u8>| hex_of(v) == text@),
            h ==> hex_of(v) == text@ && v.len() == half,
            h ==> forall|j: int| 0 <= j < v.len() ==> hex_of(v)[2 * j] == hex_digit(#[trigger] v[j] / 16)
                && hex_of(v)[2 * j + 1] == hex_digit(v[j] % 16),
            forall|j: int|
                0 <= j < i ==> hex_digit(#[trigger] out@[j] / 16) == text@[2 * j] && hex_digit(
                    out@[j] % 16,
                ) == text@[2 * j + 1],
        decreases half - i,
    {
        proof {
            if h {
                assert(v[i as int] / 16 < 16 && v[i as int] % 16 < 16);
                assert(text@[2 * i] == hex_digit(v[i as int] / 16));
                assert(text@[2 * i + 1] == hex_digit(v[i as int] % 16));
            }
        }
        let hi = match nibble(text[2 * i]) {
            Some(n) => n,
            None => {
                return None;
            },
        };
        let lo = match nibble(text[2 * i + 1]) {
            Some(n) => n,
            None => {
                return None;
            },
        };
        let byte: u8 = hi * 16 + lo;
        assert(byte / 16 == hi && byte % 16 == lo) by (nonlinear_arith)
            requires
                hi < 16,
                lo < 16,
                byte == hi * 16 + lo,
        ;
        out.push(byte);
        i = i + 1;
    }
    proof {
        lemma_hex_of_digits(out@);
        assert forall|k: int| 0 <= k < text@.len() implies hex_of(out@)[k] == text@[k] by {
            let j = k / 2;
            assert(0 <= j < out@.len());
            if k % 2 == 0 {
                assert(k == 2 * j);
                assert(hex_digit(out@[j] / 16) == text@[2 * j]);
            } else {
                assert(k == 2 * j + 1);
                assert(hex_digit(out@[j] % 16) == text@[2 * j + 1]);
            }
        }
        assert(hex_of(out@) =~= text@);
    }
    Some(out)
}

/// A content address: the Blake3 digest of some canonical bytes.
pub struct Hash {
    pub bytes: Vec<u8>,
}

impl View for Hash {
    type V = Seq<u8>;

    open spec fn view(&self) -> Seq<u8> {
        self.bytes@
    }
}

/// The all-zero hash, which marks the root of the graph in a parent list.
pub open spec fn zero_hash() -> Seq<u8> {
    Seq::new(HASH_SIZE as nat, |i: int| 0u8)
}

impl Hash {
    pub fn new(bytes: Vec<u8>) -> (r: Hash)
        ensures
            r@ == bytes@,
    {
        Hash { bytes }
    }

    pub fn zero() -> (r: Hash)
        ensures
            r@ == zero_hash(),
    {
        let mut bytes: Vec<u8> = Vec::new();
        let mut i: usize = 0;
        while i < HASH_SIZE
            invariant
                i <= HASH_SIZE,
                bytes@ == Seq::new(i as nat, |j: int| 0u8),
            decreases HASH_SIZE - i,
        {
            bytes.push(0u8);
            assert(bytes@ =~= Seq::new((i + 1) as nat, |j: int| 0u8));
            i = i + 1;
        }
        Hash { bytes }
    }

    /// The digest of `data`.
    pub fn of(data: &Vec<u8>) -> (r: Hash)
        ensures
            r@ == blake3_of(data@),
            r@.len() == HASH_SIZE,
    {
        Hash { bytes: blake3_digest(data) }
    }

    pub fn copy(&self) -> (r: Hash)
        ensures
            r@ == self@,
    {
        Hash { bytes: copy_bytes(&self.bytes) }
    }

    /// Lowercase hexadecimal text, two digits per byte.
    pub fn to_str(&self) -> (r: String)
        ensures
            r@ == hex_of(self@).map_values(|c: u8| c as char),
    {
        hex_string(&self.bytes)
    }

    pub fn equals(&self, other: &Hash) -> (r: bool)
        ensures
            r == (self@ == other@),
    {
        bytes_equal(&self.bytes, &other.bytes)
    }
}

/// An account address: the digest of an Ed25519 public key.
pub struct Address {
    pub bytes: Vec<u8>,
}

impl View for Address {
    type V = Seq<u8>;

    open spec fn view(&self) -> Seq<u8> {
        self.bytes@
    }
}

/// The address that belongs to a public key.
pub open spec fn address_of(public_key: Seq<u8>) -> Seq<u8> {
    blake3_of(public_key)
}

impl Address {
    pub fn new(bytes: Vec<u8>) -> (r: Address)
        ensures
            r@ == bytes@,
    {
        Address { bytes }
    }

    pub fn from_public_key(public_key: &Vec<u8>) -> (r: Address)
        ensures
            r@ == address_of(public_key@),
    {
        Address { bytes: blake3_digest(public_key) }
    }

    pub fn copy(&self) -> (r: Address)
        ensures
            r@ == self@,
    {
        Address { bytes: copy_bytes(&self.bytes) }
    }

    /// Lowercase hexadecimal text, two digits per byte.
    pub fn to_str(&self) -> (r: String)
        ensures
            r@ == hex_of(self@).map_values(|c: u8| c as char),
    {
        hex_string(&self.bytes)
    }

    pub fn equals(&self, other: &Address) -> (r: bool)
        ensures
            r == (self@ == other@),
    {
        bytes_equal(&self.bytes, &other.bytes)
    }
}

} // verus!

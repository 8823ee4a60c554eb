//! Self-describing binary token decoder. A credential is three dot-separated
//! segments; the middle one is base64 for a tag-prefixed term stream from
//! which a numeric identity is extracted.

use vstd::prelude::*;
use vstd::slice::{slice_subrange, slice_to_vec};
use base64::Engine;

verus! {

/// Leading protocol-version marker byte; the remainder is the real payload.
pub const TAG_VERSION: u8 = 131;

/// A map term: a 4-byte big-endian pair count follows.
pub const TAG_MAP: u8 = 116;

/// A sized binary term: a 4-byte big-endian byte length follows, then that
/// many bytes of UTF-8 text.
pub const TAG_BINARY: u8 = 109;

/// A 32-bit signed big-endian integer term.
pub const TAG_INT32: u8 = 98;

/// A small integer term: one unsigned byte.
pub const TAG_SMALL: u8 = 97;

/// One decoded unit of the term stream.
#[derive(Debug)]
pub enum Term {
    Int(i64),
    Text(String),
    Dict(Vec<(String, Term)>),
}

/// Mathematical view of a term.
pub enum TermV {
    Int(int),
    Text(Seq<char>),
    Dict(Seq<(Seq<char>, TermV)>),
}

/// View of a term: strings as character sequences, entries in order.
pub open spec fn term_view(t: Term) -> TermV
    decreases t,
    via term_view_decreases
{
    match t {
        Term::Int(v) => TermV::Int(v as int),
        Term::Text(s) => TermV::Text(s@),
        Term::Dict(pairs) => TermV::Dict(pairs_view(pairs@)),
    }
}

#[via_fn]
proof fn term_view_decreases(t: Term) {
    broadcast use vstd::std_specs::vec::group_vec_axioms;
    broadcast use vstd::seq::group_seq_axioms;

    match t {
        Term::Dict(pairs) => {
            assert(decreases_to!(t => pairs));
            assert(decreases_to!(pairs => pairs@));
        },
        _ => {},
    }
}

/// View of a decoded pair list.
pub open spec fn pairs_view(s: Seq<(String, Term)>) -> Seq<(Seq<char>, TermV)>
    decreases s,
    via pairs_view_decreases
{
    Seq::new(
        s.len(),
        |i: int|
            if 0 <= i < s.len() {
                (s[i].0@, term_view(s[i].1))
            } else {
                (Seq::<char>::empty(), TermV::Int(0))
            },
    )
}

#[via_fn]
proof fn pairs_view_decreases(s: Seq<(String, Term)>) {
    broadcast use vstd::seq::group_seq_axioms;

    assert forall|i: int| 0 <= i < s.len() implies (decreases_to!(s => s[i].1)) by {
        assert(decreases_to!(s => s[i]));
        assert(decreases_to!(s[i] => s[i].1));
    }
}

/// Big-endian unsigned 32-bit read at `p` (callers check bounds).
pub open spec fn be32(b: Seq<u8>, p: int) -> int {
    (b[p] as int) * 0x1000000 + (b[p + 1] as int) * 0x10000 + (b[p + 2] as int) * 0x100 + (b[p
        + 3] as int)
}

/// Big-endian signed 32-bit read at `p`.
pub open spec fn sbe32(b: Seq<u8>, p: int) -> int {
    if be32(b, p) >= 0x80000000 {
        be32(b, p) - 0x100000000
    } else {
        be32(b, p)
    }
}

/// First index of `k` in the pair list, or -1.
pub open spec fn key_index_of(s: Seq<(Seq<char>, TermV)>, k: Seq<char>) -> int
    decreases s.len(),
{
    if s.len() == 0 {
        -1
    } else if s[0].0 == k {
        0
    } else {
        let r = key_index_of(s.drop_first(), k);
        if r < 0 {
            -1
        } else {
            r + 1
        }
    }
}

/// The entry for `k`, if present (first occurrence).
pub open spec fn map_get(s: Seq<(Seq<char>, TermV)>, k: Seq<char>) -> Option<TermV> {
    let i = key_index_of(s, k);
    if i < 0 {
        None
    } else {
        Some(s[i].1)
    }
}

/// Adds or replaces the entry for `k`.
pub open spec fn upsert(s: Seq<(Seq<char>, TermV)>, k: Seq<char>, v: TermV) -> Seq<
    (Seq<char>, TermV),
> {
    let i = key_index_of(s, k);
    if i < 0 {
        s.push((k, v))
    } else {
        s.update(i, (k, v))
    }
}

pub proof fn lemma_key_index_of(s: Seq<(Seq<char>, TermV)>, k: Seq<char>)
    ensures
        key_index_of(s, k) == -1 ==> forall|j: int| 0 <= j < s.len() ==> (#[trigger] s[j]).0 != k,
        key_index_of(s, k) >= 0 ==> 0 <= key_index_of(s, k) < s.len() && s[key_index_of(s, k)].0
            == k && forall|j: int| 0 <= j < key_index_of(s, k) ==> (#[trigger] s[j]).0 != k,
    decreases s.len(),
{
    if s.len() > 0 && s[0].0 != k {
        lemma_key_index_of(s.drop_first(), k);
        let r = key_index_of(s.drop_first(), k);
        if r < 0 {
            assert forall|j: int| 0 <= j < s.len() implies (#[trigger] s[j]).0 != k by {
                if j > 0 {
                    assert(s.drop_first()[j - 1] == s[j]);
                    assert(s.drop_first()[j - 1].0 != k);
                }
            }
        } else {
            assert(s.drop_first()[r] == s[r + 1]);
            assert forall|j: int| 0 <= j < r + 1 implies (#[trigger] s[j]).0 != k by {
                if j > 0 {
                    assert(s.drop_first()[j - 1] == s[j]);
                    assert(s.drop_first()[j - 1].0 != k);
                }
            }
        }
    }
}

/// Decoding a term at position `p`: the term's view and the end position.
/// The progress guards (`p < p1 <= b.len()`) always hold of an inner decode
/// and only serve the termination measure.
pub open spec fn decode_term_at(b: Seq<u8>, p: int) -> Option<(TermV, int)>
    decreases b.len() - p, 1int, 0int,
{
    if p < 0 || p >= b.len() {
        None
    } else {
        let tag = b[p];
        if tag == TAG_VERSION {
            decode_term_at(b, p + 1)
        } else if tag == TAG_MAP {
            decode_map_at(b, p + 1)
        } else if tag == TAG_BINARY {
            decode_binary_at(b, p + 1)
        } else if tag == TAG_INT32 {
            decode_int_at(b, p + 1)
        } else if tag == TAG_SMALL {
            if p + 2 > b.len() {
                None
            } else {
                Some((TermV::Int(b[p + 1] as int), p + 2))
            }
        } else {
            None
        }
    }
}

/// Decoding a map body (pair count, then that many key/value pairs) at `p`.
pub open spec fn decode_map_at(b: Seq<u8>, p: int) -> Option<(TermV, int)>
    decreases b.len() - p, 3int, 0int,
{
    if p < 0 || p + 4 > b.len() {
        None
    } else {
        decode_pairs_at(b, p + 4, be32(b, p), Seq::empty())
    }
}

/// Decoding `n` remaining key/value pairs at `p`, entries found so far in
/// `acc`. A key that is not a text term fails the decode.
pub open spec fn decode_pairs_at(
    b: Seq<u8>,
    p: int,
    n: int,
    acc: Seq<(Seq<char>, TermV)>,
) -> Option<(TermV, int)>
    decreases b.len() - p, 2int, n,
{
    if n <= 0 {
        Some((TermV::Dict(acc), p))
    } else if p < 0 || p > b.len() {
        None
    } else {
        match decode_term_at(b, p) {
            None => None,
            Some((kt, p1)) => if !(p < p1 <= b.len()) {
                None
            } else {
                match kt {
                    TermV::Text(k) => match decode_term_at(b, p1) {
                        None => None,
                        Some((v, p2)) => if !(p1 < p2 <= b.len()) {
                            None
                        } else {
                            decode_pairs_at(b, p2, n - 1, upsert(acc, k, v))
                        },
                    },
                    _ => None,
                }
            },
        }
    }
}

/// Decoding a sized-binary body at `p`: length then UTF-8 bytes.
pub open spec fn decode_binary_at(b: Seq<u8>, p: int) -> Option<(TermV, int)> {
    if p < 0 || p + 4 > b.len() {
        None
    } else {
        let l = be32(b, p);
        if p + 4 + l > b.len() {
            None
        } else {
            match utf8_decode(b.subrange(p + 4, p + 4 + l)) {
                Some(s) => Some((TermV::Text(s), p + 4 + l)),
                None => None,
            }
        }
    }
}

/// Decoding a 32-bit signed integer body at `p`.
pub open spec fn decode_int_at(b: Seq<u8>, p: int) -> Option<(TermV, int)> {
    if p < 0 || p + 4 > b.len() {
        None
    } else {
        Some((TermV::Int(sbe32(b, p)), p + 4))
    }
}

/// What decoding the whole binary payload yields: the term stream must open
/// with a map term; bytes after it are ignored.
pub open spec fn decode_payload(b: Seq<u8>) -> Option<Seq<(Seq<char>, TermV)>> {
    match decode_term_at(b, 0) {
        Some((TermV::Dict(m), _)) => Some(m),
        _ => None,
    }
}

/// A successful decode always makes progress and never reads past the end.
pub proof fn lemma_decode_bounds(b: Seq<u8>, p: int)
    ensures
        decode_term_at(b, p) is Some ==> p < decode_term_at(b, p)->Some_0.1 <= b.len(),
    decreases b.len() - p, 1int, 0int,
{
    if 0 <= p < b.len() {
        let tag = b[p];
        if tag == TAG_VERSION {
            lemma_decode_bounds(b, p + 1);
        } else if tag == TAG_MAP {
            lemma_decode_map_bounds(b, p + 1);
        }
    }
}

pub proof fn lemma_decode_map_bounds(b: Seq<u8>, p: int)
    ensures
        decode_map_at(b, p) is Some ==> p < decode_map_at(b, p)->Some_0.1 <= b.len(),
    decreases b.len() - p, 3int, 0int,
{
    if 0 <= p && p + 4 <= b.len() {
        lemma_decode_pairs_bounds(b, p + 4, be32(b, p), Seq::empty());
    }
}

pub proof fn lemma_decode_pairs_bounds(b: Seq<u8>, p: int, n: int, acc: Seq<(Seq<char>, TermV)>)
    requires
        0 <= p <= b.len(),
    ensures
        decode_pairs_at(b, p, n, acc) is Some ==> p <= decode_pairs_at(b, p, n, acc)->Some_0.1
            <= b.len(),
    decreases b.len() - p, 2int, n,
{
    if n <= 0 {
    } else {
        lemma_decode_bounds(b, p);
        match decode_term_at(b, p) {
            None => {},
            Some((kt, p1)) => {
                if p < p1 <= b.len() {
                    match kt {
                        TermV::Text(k) => {
                            lemma_decode_bounds(b, p1);
                            match decode_term_at(b, p1) {
                                None => {},
                                Some((v, p2)) => {
                                    if p1 < p2 <= b.len() {
                                        lemma_decode_pairs_bounds(b, p2, n - 1, upsert(acc, k, v));
                                    }
                                },
                            }
                        },
                        _ => {},
                    }
                }
            },
        }
    }
}

/// Decoding reads only the bytes it consumes: cutting the input before the
/// consumed end makes the decode fail, and cutting at or after it changes
/// nothing.
pub proof fn lemma_decode_take(b: Seq<u8>, p: int, k: int)
    requires
        0 <= k <= b.len(),
        decode_term_at(b, p) is Some,
    ensures
        decode_term_at(b, p)->Some_0.1 <= k ==> decode_term_at(b.take(k), p) == decode_term_at(
            b,
            p,
        ),
        p <= k < decode_term_at(b, p)->Some_0.1 ==> decode_term_at(b.take(k), p) is None,
    decreases b.len() - p, 1int, 0int,
{
    let c = b.take(k);
    lemma_decode_bounds(b, p);
    let e = decode_term_at(b, p)->Some_0.1;
    assert(0 <= p < b.len());
    if k <= p {
        assert(p >= c.len());
    } else {
        assert(c[p] == b[p]);
        let tag = b[p];
        if tag == TAG_VERSION {
            lemma_decode_take(b, p + 1, k);
        } else if tag == TAG_MAP {
            lemma_decode_map_take(b, p + 1, k);
        } else if tag == TAG_BINARY {
            lemma_binary_take(b, p + 1, k);
        } else if tag == TAG_INT32 {
            if p + 5 <= k {
                assert(forall|i: int| p + 1 <= i < p + 5 ==> c[i] == b[i]);
                assert(be32(c, p + 1) == be32(b, p + 1));
            }
        } else if tag == TAG_SMALL {
            if p + 2 <= k {
                assert(c[p + 1] == b[p + 1]);
            }
        }
    }
}

proof fn lemma_binary_take(b: Seq<u8>, p: int, k: int)
    requires
        0 <= k <= b.len(),
        0 <= p,
        decode_binary_at(b, p) is Some,
    ensures
        decode_binary_at(b, p)->Some_0.1 <= k ==> decode_binary_at(b.take(k), p)
            == decode_binary_at(b, p),
        p - 1 <= k < decode_binary_at(b, p)->Some_0.1 ==> decode_binary_at(b.take(k), p) is None,
{
    let c = b.take(k);
    let e = decode_binary_at(b, p)->Some_0.1;
    let l = be32(b, p);
    if p + 4 <= k {
        assert(forall|i: int| p <= i < p + 4 ==> c[i] == b[i]);
        assert(be32(c, p) == be32(b, p));
        if e <= k {
            assert(c.subrange(p + 4, p + 4 + l) =~= b.subrange(p + 4, p + 4 + l));
        }
    }
}

pub proof fn lemma_decode_map_take(b: Seq<u8>, p: int, k: int)
    requires
        0 <= k <= b.len(),
        0 <= p,
        decode_map_at(b, p) is Some,
    ensures
        decode_map_at(b, p)->Some_0.1 <= k ==> decode_map_at(b.take(k), p) == decode_map_at(b, p),
        p - 1 <= k < decode_map_at(b, p)->Some_0.1 ==> decode_map_at(b.take(k), p) is None,
    decreases b.len() - p, 3int, 0int,
{
    let c = b.take(k);
    lemma_decode_map_bounds(b, p);
    assert(p + 4 <= b.len());
    lemma_decode_pairs_bounds(b, p + 4, be32(b, p), Seq::empty());
    if p + 4 <= k {
        assert(forall|i: int| p <= i < p + 4 ==> c[i] == b[i]);
        assert(be32(c, p) == be32(b, p));
        lemma_decode_pairs_take(b, p + 4, be32(b, p), Seq::empty(), k);
    }
}

pub proof fn lemma_decode_pairs_take(
    b: Seq<u8>,
    p: int,
    n: int,
    acc: Seq<(Seq<char>, TermV)>,
    k: int,
)
    requires
        0 <= k <= b.len(),
        0 <= p <= b.len(),
        decode_pairs_at(b, p, n, acc) is Some,
    ensures
        decode_pairs_at(b, p, n, acc)->Some_0.1 <= k ==> decode_pairs_at(b.take(k), p, n, acc)
            == decode_pairs_at(b, p, n, acc),
        p <= k < decode_pairs_at(b, p, n, acc)->Some_0.1 ==> decode_pairs_at(
            b.take(k),
            p,
            n,
            acc,
        ) is None,
    decreases b.len() - p, 2int, n,
{
    let c = b.take(k);
    lemma_decode_pairs_bounds(b, p, n, acc);
    if n <= 0 {
    } else {
        lemma_decode_bounds(b, p);
        let (kt, p1) = decode_term_at(b, p)->Some_0;
        lemma_decode_take(b, p, k);
        match kt {
            TermV::Text(key) => {
                lemma_decode_bounds(b, p1);
                let (v, p2) = decode_term_at(b, p1)->Some_0;
                lemma_decode_pairs_bounds(b, p2, n - 1, upsert(acc, key, v));
                if p1 <= k {
                    lemma_decode_take(b, p1, k);
                    if p2 <= k {
                        lemma_decode_pairs_take(b, p2, n - 1, upsert(acc, key, v), k);
                    }
                }
            },
            _ => {},
        }
    }
}

/// For every credential whose segments and payload are well formed and
/// whose map carries a coercible identity entry, extraction succeeds and
/// yields exactly that integer.
pub proof fn lemma_user_id_of_valid_token(
    s: Seq<char>,
    m: Seq<(Seq<char>, TermV)>,
    v: TermV,
    i: int,
)
    requires
        spec_parse_token(s) == Some(m),
        map_get(m, user_id_key()) == Some(v),
        coerce_user_id(v) == Some(i),
    ensures
        spec_user_id(s) == Some(i),
{
}

/// Truncating a payload whose term stream consumes every byte breaks the
/// decode: the shortened payload yields nothing at all.
pub proof fn lemma_truncated_payload_fails(b: Seq<u8>)
    requires
        b.len() > 0,
        decode_term_at(b, 0) is Some,
        decode_term_at(b, 0)->Some_0.1 == b.len(),
    ensures
        decode_term_at(b.take(b.len() - 1), 0) is None,
        decode_payload(b.take(b.len() - 1)) is None,
{
    lemma_decode_take(b, 0, b.len() - 1);
}

/// What the UTF-8 decoding of a byte sequence yields, when the bytes are
/// valid UTF-8.
pub uninterp spec fn utf8_decode(bytes: Seq<u8>) -> Option<Seq<char>>;

/// Relies on String::from_utf8: it succeeds exactly on valid UTF-8 input and
/// the resulting characters are a function of the bytes alone.
#[verifier::external_body]
fn bytes_to_text(bytes: Vec<u8>) -> (r: Option<String>)
    ensures
        match r {
            Some(s) => utf8_decode(bytes@) == Some(s@),
            None => utf8_decode(bytes@) is None,
        },
{
    match String::from_utf8(bytes) {
        Ok(s) => Some(s),
        Err(_) => None,
    }
}

/// What base64 decoding with the standard padded alphabet yields.
pub uninterp spec fn b64_standard(s: Seq<char>) -> Option<Seq<u8>>;

/// What base64 decoding with the URL-safe unpadded alphabet yields.
pub uninterp spec fn b64_url_nopad(s: Seq<char>) -> Option<Seq<u8>>;

/// Relies on base64's general_purpose::STANDARD engine: decoding is a
/// function of the input characters alone.
#[verifier::external_body]
fn b64_decode_standard(s: &str) -> (r: Option<Vec<u8>>)
    ensures
        match r {
            Some(v) => b64_standard(s@) == Some(v@),
            None => b64_standard(s@) is None,
        },
{
    base64::engine::general_purpose::STANDARD.decode(s).ok()
}

/// Relies on base64's general_purpose::URL_SAFE_NO_PAD engine: decoding is a
/// function of the input characters alone.
#[verifier::external_body]
fn b64_decode_url_nopad(s: &str) -> (r: Option<Vec<u8>>)
    ensures
        match r {
            Some(v) => b64_url_nopad(s@) == Some(v@),
            None => b64_url_nopad(s@) is None,
        },
{
    base64::engine::general_purpose::URL_SAFE_NO_PAD.decode(s).ok()
}

/// Relies on str::chars: the characters of the string, in order.
#[verifier::external_body]
pub(crate) fn str_chars(s: &str) -> (r: Vec<char>)
    ensures
        r@ == s@,
{
    s.chars().collect()
}

/// Relies on String's FromIterator over chars: the characters joined in
/// order.
#[verifier::external_body]
pub(crate) fn chars_to_string(v: &Vec<char>) -> (r: String)
    ensures
        r@ == v@,
{
    v.iter().collect()
}

/// Cursor over the binary payload with bounds-checked reads.
pub struct EtfDecoder {
    pub data: Vec<u8>,
    pub offset: usize,
}

impl EtfDecoder {
    pub fn new(data: Vec<u8>) -> (d: Self)
        ensures
            d.data@ == data@,
            d.offset == 0,
    {
        EtfDecoder { data, offset: 0 }
    }

    pub fn read_byte(&mut self) -> (r: Option<u8>)
        requires
            old(self).offset <= old(self).data@.len(),
        ensures
            final(self).data@ == old(self).data@,
            match r {
                Some(v) => old(self).offset < old(self).data@.len() && v == old(self).data@[old(self).offset as int] && final(self).offset == old(self).offset + 1,
                None => old(self).offset == old(self).data@.len() && final(self).offset == old(self).offset,
            },
    {
        if self.offset < self.data.len() {
            let b = self.data[self.offset];
            self.offset = self.offset + 1;
            Some(b)
        } else {
            None
        }
    }

    pub fn read_4(&mut self) -> (r: Option<(u8, u8, u8, u8)>)
        requires
            old(self).offset <= old(self).data@.len(),
        ensures
            final(self).data@ == old(self).data@,
            match r {
                Some(v) => {
                    &&& old(self).offset + 4 <= old(self).data@.len()
                    &&& final(self).offset == old(self).offset + 4
                    &&& v.0 == old(self).data@[old(self).offset as int]
                    &&& v.1 == old(self).data@[old(self).offset + 1]
                    &&& v.2 == old(self).data@[old(self).offset + 2]
                    &&& v.3 == old(self).data@[old(self).offset + 3]
                },
                None => old(self).offset + 4 > old(self).data@.len() && final(self).offset == old(self).offset,
            },
    {
        if self.data.len() - self.offset >= 4 {
            let b0 = self.data[self.offset];
            let b1 = self.data[self.offset + 1];
            let b2 = self.data[self.offset + 2];
            let b3 = self.data[self.offset + 3];
            self.offset = self.offset + 4;
            Some((b0, b1, b2, b3))
        } else {
            None
        }
    }

    pub fn read_u32_be(&mut self) -> (r: Option<u32>)
        requires
            old(self).offset <= old(self).data@.len(),
        ensures
            final(self).data@ == old(self).data@,
            match r {
                Some(v) => old(self).offset + 4 <= old(self).data@.len() && final(self).offset
                    == old(self).offset + 4 && v as int == be32(
                    old(self).data@,
                    old(self).offset as int,
                ),
                None => old(self).offset + 4 > old(self).data@.len() && final(self).offset == old(self).offset,
            },
    {
        match self.read_4() {
            Some((b0, b1, b2, b3)) => {
                let v = (b0 as u32) * 0x1000000 + (b1 as u32) * 0x10000 + (b2 as u32) * 0x100 + (
                b3 as u32);
                Some(v)
            },
            None => None,
        }
    }

    /// 32-bit signed big-endian integer body.
    pub fn decode_integer(&mut self) -> (r: Option<i64>)
        requires
            old(self).offset <= old(self).data@.len(),
        ensures
            final(self).data@ == old(self).data@,
            match r {
                Some(v) => decode_int_at(old(self).data@, old(self).offset as int) == Some(
                    (TermV::Int(v as int), final(self).offset as int),
                ) && final(self).offset == old(self).offset + 4,
                None => decode_int_at(old(self).data@, old(self).offset as int) is None && final(self).offset == old(self).offset,
            },
    {
        match self.read_u32_be() {
            Some(u) => {
                let v: i64 = if u >= 0x80000000 {
                    (u as i64) - 0x100000000i64
                } else {
                    u as i64
                };
                Some(v)
            },
            None => None,
        }
    }

    /// Sized-binary body: length-prefixed UTF-8 text.
    pub fn decode_binary(&mut self) -> (r: Option<Term>)
        requires
            old(self).offset <= old(self).data@.len(),
        ensures
            final(self).data@ == old(self).data@,
            old(self).offset <= final(self).offset <= old(self).data@.len(),
            match r {
                Some(t) => decode_binary_at(old(self).data@, old(self).offset as int) == Some(
                    (term_view(t), final(self).offset as int),
                ) && old(self).offset < final(self).offset,
                None => decode_binary_at(old(self).data@, old(self).offset as int) is None,
            },
    {
        let l = match self.read_u32_be() {
            Some(v) => v,
            None => {
                return None;
            },
        };
        if (l as usize) > self.data.len() - self.offset {
            return None;
        }
        let end = self.offset + (l as usize);
        let bytes = slice_to_vec(slice_subrange(self.data.as_slice(), self.offset, end));
        self.offset = end;
        match bytes_to_text(bytes) {
            Some(s) => Some(Term::Text(s)),
            None => None,
        }
    }

    /// One term, tag first.
    pub fn decode(&mut self) -> (r: Option<Term>)
        requires
            old(self).offset <= old(self).data@.len(),
        ensures
            final(self).data@ == old(self).data@,
            old(self).offset <= final(self).offset <= old(self).data@.len(),
            match r {
                Some(t) => decode_term_at(old(self).data@, old(self).offset as int) == Some(
                    (term_view(t), final(self).offset as int),
                ) && old(self).offset < final(self).offset,
                None => decode_term_at(old(self).data@, old(self).offset as int) is None,
            },
        decreases old(self).data@.len() - old(self).offset, 1int,
    {
        let tag = match self.read_byte() {
            Some(v) => v,
            None => {
                return None;
            },
        };
        if tag == TAG_VERSION {
            self.decode()
        } else if tag == TAG_MAP {
            self.decode_map()
        } else if tag == TAG_BINARY {
            self.decode_binary()
        } else if tag == TAG_INT32 {
            match self.decode_integer() {
                Some(v) => Some(Term::Int(v)),
                None => None,
            }
        } else if tag == TAG_SMALL {
            match self.read_byte() {
                Some(b) => Some(Term::Int(b as i64)),
                None => None,
            }
        } else {
            None
        }
    }

    /// Map body: pair count, then that many key/value pairs. Keys must be
    /// text terms; a later duplicate key replaces the earlier entry.
    pub fn decode_map(&mut self) -> (r: Option<Term>)
        requires
            old(self).offset <= old(self).data@.len(),
        ensures
            final(self).data@ == old(self).data@,
            old(self).offset <= final(self).offset <= old(self).data@.len(),
            match r {
                Some(t) => decode_map_at(old(self).data@, old(self).offset as int) == Some(
                    (term_view(t), final(self).offset as int),
                ) && old(self).offset < final(self).offset,
                None => decode_map_at(old(self).data@, old(self).offset as int) is None,
            },
        decreases old(self).data@.len() - old(self).offset, 2int,
    {
        let ghost b = old(self).data@;
        let ghost p0 = old(self).offset as int;
        let arity = match self.read_u32_be() {
            Some(v) => v,
            None => {
                return None;
            },
        };
        let mut out: Vec<(String, Term)> = Vec::new();
        let mut k: u32 = 0;
        proof {
            assert(pairs_view(out@) =~= Seq::<(Seq<char>, TermV)>::empty());
        }
        while k < arity
            invariant
                b == old(self).data@,
                p0 == old(self).offset as int,
                self.data@ == b,
                p0 + 4 <= self.offset <= b.len(),
                0 <= k <= arity,
                arity as int == be32(b, p0),
                decode_pairs_at(b, p0 + 4, arity as int, Seq::empty()) == decode_pairs_at(
                    b,
                    self.offset as int,
                    arity - k,
                    pairs_view(out@),
                ),
            decreases arity - k,
        {
            let key_term = match self.decode() {
                Some(t) => t,
                None => {
                    return None;
                },
            };
            let key = match key_term {
                Term::Text(s) => s,
                _ => {
                    return None;
                },
            };
            let val = match self.decode() {
                Some(t) => t,
                None => {
                    return None;
                },
            };
            upsert_pair(&mut out, key, val);
            k = k + 1;
        }
        Some(Term::Dict(out))
    }
}

/// Index of the first dot at or after `from`, or the length if there is
/// none.
pub open spec fn find_dot(s: Seq<char>, from: int) -> int
    decreases s.len() - from,
{
    if from < 0 || from >= s.len() {
        s.len() as int
    } else if s[from] == '.' {
        from
    } else {
        find_dot(s, from + 1)
    }
}

/// The three dot-separated segments of a credential, if it has exactly
/// three.
pub open spec fn spec_segments(s: Seq<char>) -> Option<(Seq<char>, Seq<char>, Seq<char>)> {
    let d1 = find_dot(s, 0);
    let d2 = find_dot(s, d1 + 1);
    let d3 = find_dot(s, d2 + 1);
    if d1 < s.len() && d2 < s.len() && d3 == s.len() {
        Some(
            (
                s.subrange(0, d1),
                s.subrange(d1 + 1, d2),
                s.subrange(d2 + 1, s.len() as int),
            ),
        )
    } else {
        None
    }
}

/// The fixed version-tag marker every credential must open with.
pub open spec fn magic_tag() -> Seq<char> {
    "SFMyNTY"@
}

/// What parsing a whole credential yields: three segments, the first the
/// magic marker, the middle one base64 (standard alphabet first, URL-safe
/// unpadded as fallback) for a payload whose term stream opens with a map.
pub open spec fn spec_parse_token(s: Seq<char>) -> Option<Seq<(Seq<char>, TermV)>> {
    match spec_segments(s) {
        None => None,
        Some((s0, s1, _sig)) => if s0 != magic_tag() {
            None
        } else {
            match b64_standard(s1) {
                Some(raw) => decode_payload(raw),
                None => match b64_url_nopad(s1) {
                    Some(raw) => decode_payload(raw),
                    None => None,
                },
            }
        },
    }
}

/// The key whose entry carries the numeric identity.
pub open spec fn user_id_key() -> Seq<char> {
    "user_id"@
}

/// Coercion of the identity entry: an integer term is taken as is, a text
/// term must parse as a signed 64-bit decimal.
pub open spec fn coerce_user_id(v: TermV) -> Option<int> {
    match v {
        TermV::Int(i) => Some(i),
        TermV::Text(t) => parse_i64_spec(t),
        TermV::Dict(_) => None,
    }
}

/// What extracting the numeric identity from a credential yields.
pub open spec fn spec_user_id(s: Seq<char>) -> Option<int> {
    match spec_parse_token(s) {
        None => None,
        Some(m) => match map_get(m, user_id_key()) {
            None => None,
            Some(v) => coerce_user_id(v),
        },
    }
}

pub open spec fn is_digit_char(c: char) -> bool {
    48 <= c as int && c as int <= 57
}

pub open spec fn all_digits(s: Seq<char>) -> bool {
    s.len() > 0 && forall|i: int| 0 <= i < s.len() ==> is_digit_char(#[trigger] s[i])
}

/// Value of a digit string, most significant digit first.
pub open spec fn digits_value(s: Seq<char>) -> int
    decreases s.len(),
{
    if s.len() == 0 {
        0
    } else {
        digits_value(s.drop_last()) * 10 + (s.last() as int - 48)
    }
}

/// Decimal signed 64-bit parse: an optional sign, then only digits, value in
/// range; anything else is rejected.
pub open spec fn parse_signed_spec(digits: Seq<char>, neg: bool) -> Option<int> {
    if !all_digits(digits) {
        None
    } else {
        let v = if neg {
            -digits_value(digits)
        } else {
            digits_value(digits)
        };
        if i64::MIN as int <= v <= i64::MAX as int {
            Some(v)
        } else {
            None
        }
    }
}

pub open spec fn parse_i64_spec(s: Seq<char>) -> Option<int> {
    if s.len() > 0 && (s[0] == '-' || s[0] == '+') {
        parse_signed_spec(s.drop_first(), s[0] == '-')
    } else {
        parse_signed_spec(s, false)
    }
}

pub proof fn lemma_digits_value_nonneg(s: Seq<char>)
    requires
        forall|i: int| 0 <= i < s.len() ==> is_digit_char(#[trigger] s[i]),
    ensures
        digits_value(s) >= 0,
    decreases s.len(),
{
    if s.len() > 0 {
        assert(forall|i: int|
            0 <= i < s.drop_last().len() ==> is_digit_char(#[trigger] s.drop_last()[i]));
        lemma_digits_value_nonneg(s.drop_last());
    }
}

pub proof fn lemma_digits_prefix_le(s: Seq<char>, i: int)
    requires
        0 <= i <= s.len(),
        forall|j: int| 0 <= j < s.len() ==> is_digit_char(#[trigger] s[j]),
    ensures
        digits_value(s.take(i)) <= digits_value(s),
    decreases s.len() - i,
{
    if i == s.len() {
        assert(s.take(i) =~= s);
    } else {
        assert(s.take(i + 1).drop_last() =~= s.take(i));
        assert(forall|j: int|
            0 <= j < s.take(i).len() ==> is_digit_char(#[trigger] s.take(i)[j]));
        lemma_digits_value_nonneg(s.take(i));
        assert(digits_value(s.take(i + 1)) == digits_value(s.take(i)) * 10 + (s[i] as int
            - 48));
        assert(digits_value(s.take(i)) * 10 >= digits_value(s.take(i)));
        lemma_digits_prefix_le(s, i + 1);
    }
}

/// Finds the first dot at or after `from`.
fn find_dot_from(chars: &Vec<char>, from: usize) -> (r: usize)
    ensures
        r as int == find_dot(chars@, from as int),
        r <= chars@.len(),
        from <= chars@.len() ==> from <= r,
{
    let n = chars.len();
    let mut i = from;
    while i < n
        invariant
            n == chars@.len(),
            i >= from,
            find_dot(chars@, from as int) == find_dot(chars@, i as int),
        decreases n - i,
    {
        if chars[i] == '.' {
            return i;
        }
        i += 1;
    }
    n
}

/// Copies a character range out of the credential.
pub(crate) fn copy_range(chars: &Vec<char>, start: usize, end: usize) -> (r: Vec<char>)
    requires
        start <= end <= chars@.len(),
    ensures
        r@ == chars@.subrange(start as int, end as int),
{
    slice_to_vec(slice_subrange(chars.as_slice(), start, end))
}

/// Parses a credential: three dot-separated segments, a fixed version-tag
/// first segment, a base64 middle segment decoding to a term stream that
/// opens with a map. The third segment (a signature) is not verified here;
/// trust in the credential is established upstream.
pub fn parse_phoenix_token(token: &str) -> (r: Option<Vec<(String, Term)>>)
    ensures
        match r {
            Some(m) => spec_parse_token(token@) == Some(pairs_view(m@)),
            None => spec_parse_token(token@) is None,
        },
{
    let chars = str_chars(token);
    let n = chars.len();
    let d1 = find_dot_from(&chars, 0);
    if d1 >= n {
        return None;
    }
    let d2 = find_dot_from(&chars, d1 + 1);
    if d2 >= n {
        return None;
    }
    let d3 = find_dot_from(&chars, d2 + 1);
    if d3 < n {
        return None;
    }
    let seg0 = chars_to_string(&copy_range(&chars, 0, d1));
    let magic = String::from_str("SFMyNTY");
    if !(seg0 == magic) {
        return None;
    }
    let seg1 = chars_to_string(&copy_range(&chars, d1 + 1, d2));
    let raw = match b64_decode_standard(seg1.as_str()) {
        Some(v) => v,
        None => match b64_decode_url_nopad(seg1.as_str()) {
            Some(v) => v,
            None => {
                return None;
            },
        },
    };
    let mut decoder = EtfDecoder::new(raw);
    match decoder.decode() {
        Some(Term::Dict(m)) => Some(m),
        _ => None,
    }
}

/// Extracts the numeric identity from a credential: the map's `user_id`
/// entry, an integer term or a decimal text term.
pub fn parse_user_id(token: &str) -> (r: Option<i64>)
    ensures
        match r {
            Some(v) => spec_user_id(token@) == Some(v as int),
            None => spec_user_id(token@) is None,
        },
{
    let m = match parse_phoenix_token(token) {
        Some(m) => m,
        None => {
            return None;
        },
    };
    let key = String::from_str("user_id");
    let n = m.len();
    let mut i: usize = 0;
    while i < n
        invariant
            n == m@.len(),
            0 <= i <= n,
            key@ == user_id_key(),
            spec_parse_token(token@) == Some(pairs_view(m@)),
            forall|j: int| 0 <= j < i ==> (#[trigger] pairs_view(m@)[j]).0 != key@,
        decreases n - i,
    {
        if m[i].0 == key {
            proof {
                let pv = pairs_view(m@);
                let ki = key_index_of(pv, key@);
                lemma_key_index_of(pv, key@);
                assert(pv[i as int].0 == key@);
                assert(ki >= 0);
                if ki < i as int {
                    assert(pv[ki].0 != key@);
                }
                if ki > i as int {
                    assert(pv[i as int].0 != key@);
                }
                assert(ki == i as int);
            }
            match &m[i].1 {
                Term::Int(v) => {
                    return Some(*v);
                },
                Term::Text(s) => {
                    return parse_i64(s);
                },
                Term::Dict(_) => {
                    return None;
                },
            }
        }
        i += 1;
    }
    proof {
        let pv = pairs_view(m@);
        let ki = key_index_of(pv, key@);
        lemma_key_index_of(pv, key@);
        if ki >= 0 {
            assert(pv[ki].0 != key@);
        }
    }
    None
}

/// Decimal signed 64-bit parse of a text term: optional sign, then digits
/// only; overflow is rejected.
pub fn parse_i64(s: &String) -> (r: Option<i64>)
    ensures
        match r {
            Some(v) => parse_i64_spec(s@) == Some(v as int),
            None => parse_i64_spec(s@) is None,
        },
{
    let chars = str_chars(s.as_str());
    let n = chars.len();
    let mut start: usize = 0;
    let mut neg = false;
    if n > 0 {
        let c0 = chars[0];
        if c0 == '-' {
            neg = true;
            start = 1;
        } else if c0 == '+' {
            start = 1;
        }
    }
    let ghost digits = if start == 0 {
        s@
    } else {
        s@.drop_first()
    };
    proof {
        assert(digits =~= chars@.subrange(start as int, n as int));
    }
    if start >= n {
        return None;
    }
    let mut acc: i64 = 0;
    let mut i = start;
    while i < n
        invariant
            n == chars@.len(),
            chars@ == s@,
            start <= i <= n,
            start < n,
            start == 1 || start == 0,
            (start == 1) == (s@.len() > 0 && (s@[0] == '-' || s@[0] == '+')),
            neg == (s@.len() > 0 && s@[0] == '-'),
            digits == chars@.subrange(start as int, n as int),
            digits == (if start == 0 {
                s@
            } else {
                s@.drop_first()
            }),
            forall|j: int| start <= j < i ==> is_digit_char(#[trigger] chars@[j]),
            acc as int == -digits_value(digits.take(i - start)),
            acc <= 0,
        decreases n - i,
    {
        let c = chars[i];
        proof {
            assert(digits.take(i + 1 - start).drop_last() =~= digits.take(i - start));
            assert(digits.take(i + 1 - start).last() == chars@[i as int]);
        }
        if c < '0' || c > '9' {
            proof {
                assert(!is_digit_char(chars@[i as int]));
                assert(digits[i - start] == chars@[i as int]);
                assert(!all_digits(digits));
            }
            return None;
        }
        let d = ((c as u32) - 48) as i64;
        proof {
            assert(is_digit_char(chars@[i as int]));
            assert(d as int == chars@[i as int] as int - 48);
        }
        let stepped = match acc.checked_mul(10) {
            Some(a) => a.checked_sub(d),
            None => None,
        };
        match stepped {
            Some(next) => {
                acc = next;
            },
            None => {
                proof {
                    let taken = digits.take(i + 1 - start);
                    assert(digits_value(taken) == digits_value(digits.take(i - start)) * 10 + (
                    chars@[i as int] as int - 48));
                    assert(digits_value(taken) > (i64::MAX as int) + 1);
                    if all_digits(digits) {
                        lemma_digits_prefix_le(digits, i + 1 - start);
                        assert(digits_value(digits) > (i64::MAX as int) + 1);
                    }
                }
                return None;
            },
        }
        i += 1;
    }
    proof {
        assert(digits.take(n - start) =~= digits);
        assert(all_digits(digits));
        assert(acc as int == -digits_value(digits));
    }
    if neg {
        Some(acc)
    } else {
        match 0i64.checked_sub(acc) {
            Some(v) => Some(v),
            None => {
                proof {
                    assert(acc as int == i64::MIN as int);
                    assert(digits_value(digits) > i64::MAX as int);
                }
                None
            },
        }
    }
}

/// Adds or replaces the entry for `key`, first occurrence first.
fn upsert_pair(out: &mut Vec<(String, Term)>, key: String, val: Term)
    ensures
        pairs_view(final(out)@) == upsert(pairs_view(old(out)@), key@, term_view(val)),
{
    proof {
        lemma_key_index_of(pairs_view(out@), key@);
    }
    let n = out.len();
    let mut i: usize = 0;
    while i < n
        invariant
            n == out@.len(),
            0 <= i <= n,
            *out == *old(out),
            forall|j: int| 0 <= j < i ==> (#[trigger] pairs_view(out@)[j]).0 != key@,
        decreases n - i,
    {
        if out[i].0 == key {
            proof {
                let pv = pairs_view(old(out)@);
                let ki = key_index_of(pv, key@);
                lemma_key_index_of(pv, key@);
                assert(pv[i as int].0 == key@);
                assert(ki >= 0);
                if ki < i as int {
                    assert(pv[ki].0 != key@);
                }
                if ki > i as int {
                    assert(pv[i as int].0 != key@);
                }
                assert(ki == i as int);
            }
            out[i] = (key, val);
            proof {
                assert(pairs_view(out@) =~= upsert(pairs_view(old(out)@), key@, term_view(val)));
            }
            return ;
        }
        i += 1;
    }
    proof {
        lemma_key_index_of(pairs_view(old(out)@), key@);
        assert(key_index_of(pairs_view(old(out)@), key@) == -1);
    }
    out.push((key, val));
    proof {
        assert(pairs_view(out@) =~= upsert(pairs_view(old(out)@), key@, term_view(val)));
    }
}

} // verus!

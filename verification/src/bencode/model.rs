//! Mathematical model of the bencode format.
//!
//! `BencodeView` is the abstract value a bencoded document denotes, and
//! `parse_elem` / `encoded_elem` are the two directions of the codec stated
//! over byte sequences.  The parser is canonical: it accepts exactly the
//! byte strings that `encoded_elem` produces for well-formed values, so a
//! successful decode pins the input down completely.

use vstd::prelude::*;

verus! {

pub const TOK_INT: u8 = 0x69; // 'i'
pub const TOK_LIST: u8 = 0x6c; // 'l'
pub const TOK_DICT: u8 = 0x64; // 'd'
pub const TOK_END: u8 = 0x65; // 'e'
pub const TOK_COLON: u8 = 0x3a; // ':'
pub const TOK_MINUS: u8 = 0x2d; // '-'
pub const TOK_ZERO: u8 = 0x30; // '0'
pub const TOK_NINE: u8 = 0x39; // '9'

/// The value denoted by a bencoded document: a byte-string, a signed
/// integer, a sequence of values, or a key-ordered dictionary.
pub enum BencodeView {
    Str(Seq<u8>),
    Int(int),
    List(Seq<BencodeView>),
    Dict(Seq<(Seq<u8>, BencodeView)>),
}

// ---------------------------------------------------------------------------
// Decimal digits
// ---------------------------------------------------------------------------

pub open spec fn is_digit(b: u8) -> bool {
    TOK_ZERO <= b && b <= TOK_NINE
}

pub open spec fn digit_val(b: u8) -> int {
    b - TOK_ZERO
}

/// The number denoted by a digit string, most significant digit first.
pub open spec fn digits_val(s: Seq<u8>) -> int
    decreases s.len(),
{
    if s.len() == 0 {
        0
    } else {
        digits_val(s.drop_last()) * 10 + digit_val(s.last())
    }
}

pub open spec fn all_digits(s: Seq<u8>) -> bool {
    forall|i: int| 0 <= i < s.len() ==> is_digit(#[trigger] s[i])
}

/// A canonical digit string: nonempty, and no leading zero unless it is "0".
pub open spec fn canonical_digits(s: Seq<u8>) -> bool {
    &&& s.len() > 0
    &&& all_digits(s)
    &&& (s[0] == TOK_ZERO ==> s.len() == 1)
}

/// The canonical decimal digit string of a nonnegative number.
pub open spec fn dec_digits(n: nat) -> Seq<u8>
    decreases n,
{
    if n < 10 {
        seq![(TOK_ZERO + n) as u8]
    } else {
        dec_digits((n / 10) as nat).push((TOK_ZERO + n % 10) as u8)
    }
}

/// The length of the maximal digit prefix of `s`.
pub open spec fn digit_run(s: Seq<u8>) -> int
    decreases s.len(),
{
    if s.len() == 0 || !is_digit(s[0]) {
        0
    } else {
        1 + digit_run(s.skip(1))
    }
}

// ---------------------------------------------------------------------------
// Byte-lexicographic order on keys
// ---------------------------------------------------------------------------

/// Strict byte-lexicographic order.
pub open spec fn lex_lt(a: Seq<u8>, b: Seq<u8>) -> bool
    decreases a.len(),
{
    if b.len() == 0 {
        false
    } else if a.len() == 0 {
        true
    } else if a[0] < b[0] {
        true
    } else if a[0] > b[0] {
        false
    } else {
        lex_lt(a.skip(1), b.skip(1))
    }
}

/// Dictionary keys in strictly ascending byte-lexicographic order.
pub open spec fn keys_ascending(ps: Seq<(Seq<u8>, BencodeView)>) -> bool {
    forall|i: int, j: int| 0 <= i < j < ps.len() ==> lex_lt(#[trigger] ps[i].0, #[trigger] ps[j].0)
}

// ---------------------------------------------------------------------------
// Well-formed values
// ---------------------------------------------------------------------------

/// A value the canonical codec round-trips: integers fit in `i64` and every
/// dictionary has strictly ascending keys.
pub open spec fn view_wf(v: BencodeView) -> bool
    decreases v,
{
    match v {
        BencodeView::Str(_) => true,
        BencodeView::Int(n) => i64::MIN <= n <= i64::MAX,
        BencodeView::List(vs) => forall|i: int| 0 <= i < vs.len() ==> view_wf(#[trigger] vs[i]),
        BencodeView::Dict(ps) => {
            &&& keys_ascending(ps)
            &&& forall|i: int| 0 <= i < ps.len() ==> view_wf(#[trigger] ps[i].1)
        },
    }
}

// ---------------------------------------------------------------------------
// Canonical encoding
// ---------------------------------------------------------------------------

/// Decimal representation of a signed integer.
pub open spec fn int_digits(n: int) -> Seq<u8> {
    if n < 0 {
        seq![TOK_MINUS] + dec_digits((-n) as nat)
    } else {
        dec_digits(n as nat)
    }
}

/// `<len>:<bytes>`, the encoding of a byte-string.
pub open spec fn encoded_str(s: Seq<u8>) -> Seq<u8> {
    dec_digits(s.len()) + seq![TOK_COLON] + s
}

/// The canonical encoding of a value.
pub open spec fn encoded_elem(v: BencodeView) -> Seq<u8>
    decreases v, 1int,
{
    match v {
        BencodeView::Str(s) => encoded_str(s),
        BencodeView::Int(n) => seq![TOK_INT] + int_digits(n) + seq![TOK_END],
        BencodeView::List(vs) => seq![TOK_LIST] + encoded_items(vs) + seq![TOK_END],
        BencodeView::Dict(ps) => seq![TOK_DICT] + encoded_pairs(ps) + seq![TOK_END],
    }
}

pub open spec fn encoded_items(vs: Seq<BencodeView>) -> Seq<u8>
    decreases vs, 0int,
{
    if vs.len() == 0 {
        seq![]
    } else {
        encoded_elem(vs[0]) + encoded_items(vs.skip(1))
    }
}

pub open spec fn encoded_pairs(ps: Seq<(Seq<u8>, BencodeView)>) -> Seq<u8>
    decreases ps, 0int,
{
    if ps.len() == 0 {
        seq![]
    } else {
        encoded_str(ps[0].0) + encoded_elem(ps[0].1) + encoded_pairs(ps.skip(1))
    }
}

// ---------------------------------------------------------------------------
// Canonical parsing
// ---------------------------------------------------------------------------

/// Parses `<len>:<bytes>` at the head of `bytes`; yields the string and the
/// number of bytes consumed.
pub open spec fn parse_str(bytes: Seq<u8>) -> Option<(Seq<u8>, int)> {
    let k = digit_run(bytes);
    if k == 0 {
        None
    } else if k >= bytes.len() || bytes[k] != TOK_COLON {
        None
    } else {
        let n = digits_val(bytes.take(k));
        if k + 1 + n > bytes.len() {
            None
        } else {
            Some((bytes.subrange(k + 1, k + 1 + n), k + 1 + n))
        }
    }
}

/// Parses `i<int>e` at the head of `bytes`.
pub open spec fn parse_int(bytes: Seq<u8>) -> Option<(BencodeView, int)> {
    if bytes.len() < 2 || bytes[0] != TOK_INT {
        None
    } else {
        let neg = bytes[1] == TOK_MINUS;
        let ds = if neg { 2int } else { 1int };
        let k = digit_run(bytes.skip(ds));
        let digs = bytes.subrange(ds, ds + k);
        if k == 0 {
            None
        } else if ds + k >= bytes.len() || bytes[ds + k] != TOK_END {
            None
        } else if digs[0] == TOK_ZERO && (k > 1 || neg) {
            None
        } else {
            let v = if neg { -digits_val(digs) } else { digits_val(digs) };
            if i64::MIN <= v <= i64::MAX {
                Some((BencodeView::Int(v), ds + k + 1))
            } else {
                None
            }
        }
    }
}

/// Parses one element at the head of `bytes`.
pub open spec fn parse_elem(bytes: Seq<u8>) -> Option<(BencodeView, int)>
    decreases bytes.len(), 0int,
{
    if bytes.len() == 0 {
        None
    } else if bytes[0] == TOK_INT {
        parse_int(bytes)
    } else if bytes[0] == TOK_LIST {
        match parse_items(bytes.skip(1)) {
            Some((vs, n)) => Some((BencodeView::List(vs), 1 + n)),
            None => None,
        }
    } else if bytes[0] == TOK_DICT {
        match parse_pairs(bytes.skip(1)) {
            Some((ps, n)) => Some((BencodeView::Dict(ps), 1 + n)),
            None => None,
        }
    } else {
        match parse_str(bytes) {
            Some((s, n)) => Some((BencodeView::Str(s), n)),
            None => None,
        }
    }
}

/// Parses list items up to and including the closing `e`.
pub open spec fn parse_items(bytes: Seq<u8>) -> Option<(Seq<BencodeView>, int)>
    decreases bytes.len(), 1int,
{
    if bytes.len() == 0 {
        None
    } else if bytes[0] == TOK_END {
        Some((seq![], 1))
    } else {
        match parse_elem(bytes) {
            Some((v, n)) => if 1 <= n <= bytes.len() {
                match parse_items(bytes.skip(n)) {
                    Some((vs, m)) => Some((seq![v] + vs, n + m)),
                    None => None,
                }
            } else {
                None
            },
            None => None,
        }
    }
}

/// Parses dictionary entries up to and including the closing `e`, requiring
/// strictly ascending keys.
pub open spec fn parse_pairs(bytes: Seq<u8>) -> Option<(Seq<(Seq<u8>, BencodeView)>, int)>
    decreases bytes.len(), 1int,
{
    if bytes.len() == 0 {
        None
    } else if bytes[0] == TOK_END {
        Some((seq![], 1))
    } else {
        match parse_str(bytes) {
            Some((key, n1)) => if 1 <= n1 <= bytes.len() {
                match parse_elem(bytes.skip(n1)) {
                    Some((v, n2)) => if 1 <= n2 <= bytes.len() - n1 {
                        match parse_pairs(bytes.skip(n1 + n2)) {
                            Some((ps, m)) => if ps.len() == 0 || lex_lt(key, ps[0].0) {
                                Some((seq![(key, v)] + ps, n1 + n2 + m))
                            } else {
                                None
                            },
                            None => None,
                        }
                    } else {
                        None
                    },
                    None => None,
                }
            } else {
                None
            },
            None => None,
        }
    }
}

/// Looks a key up among parsed dictionary entries: the first match wins
/// (and in a canonical dictionary, keys never repeat).
pub open spec fn pairs_get(ps: Seq<(Seq<u8>, BencodeView)>, key: Seq<u8>) -> Option<BencodeView>
    decreases ps.len(),
{
    if ps.len() == 0 {
        None
    } else if ps[0].0 == key {
        Some(ps[0].1)
    } else {
        pairs_get(ps.skip(1), key)
    }
}

pub open spec fn pairs_contains(ps: Seq<(Seq<u8>, BencodeView)>, key: Seq<u8>) -> bool {
    pairs_get(ps, key) is Some
}

} // verus!

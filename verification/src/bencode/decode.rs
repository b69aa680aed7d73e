//! The bencode decoder.  Each function consumes a prefix of its input and
//! reports how many bytes it took; the contracts tie every outcome to the
//! canonical parser of the model, so a success is exactly a canonical
//! encoding and carries the parsed value.

use vstd::prelude::*;

use crate::bencode::laws::{
    lemma_digit_run_exact, lemma_digits_val_nonneg, lemma_digits_val_take_mono,
    lemma_digits_val_take_step, lemma_lex_common_prefix, lemma_lex_irrefl, lemma_parse_elem_sound,
};
use crate::bencode::model::{
    all_digits, digit_run, digits_val, is_digit, lex_lt, parse_elem, parse_int, parse_items,
    parse_pairs, parse_str, BencodeView, TOK_COLON, TOK_DICT, TOK_END, TOK_INT, TOK_LIST,
    TOK_MINUS, TOK_NINE, TOK_ZERO,
};
use crate::bencode::{
    bencode_view, bencode_wf, bpair_view, bpair_wf, pair_views_of, views_of, BDict, BInt, BList, BPair, BString,
    Bencode, DecodeError, DecodeErrorKind,
};
use crate::hashing::sha1_digest;
use vstd::slice::{slice_index_get, slice_subrange, slice_to_vec};

verus! {

/// A decoded value together with the number of input bytes it consumed.
#[derive(Debug)]
pub struct DecodeResult<T>(pub T, pub usize);

/// Scans the digit run starting at `start`; returns the index just past it.
fn scan_digits(bytes: &[u8], start: usize) -> (r: usize)
    requires
        start <= bytes@.len(),
    ensures
        start <= r <= bytes@.len(),
        r - start == digit_run(bytes@.skip(start as int)),
        forall|i: int| start <= i < r ==> is_digit(#[trigger] bytes@[i]),
        r < bytes@.len() ==> !is_digit(bytes@[r as int]),
{
    let len = bytes.len();
    let mut pos = start;
    loop
        invariant
            start <= pos <= len,
            len == bytes@.len(),
            forall|i: int| start <= i < pos ==> is_digit(#[trigger] bytes@[i]),
        ensures
            start <= pos <= len,
            forall|i: int| start <= i < pos ==> is_digit(#[trigger] bytes@[i]),
            pos == len || !is_digit(bytes@[pos as int]),
        decreases len - pos,
    {
        if pos == len {
            break;
        }
        let b = *slice_index_get(bytes, pos);
        if b < TOK_ZERO || b > TOK_NINE {
            break;
        }
        pos += 1;
    }
    proof {
        let s = bytes@.skip(start as int);
        assert forall|i: int| 0 <= i < pos - start implies is_digit(#[trigger] s[i]) by {
            assert(s[i] == bytes@[start + i]);
        }
        if pos - start < s.len() {
            assert(s[pos - start] == bytes@[pos as int]);
        }
        lemma_digit_run_exact(s, pos - start);
    }
    pos
}

/// Reads the decimal value of `bytes[start..end]`, all digits, unless it
/// exceeds `limit`.
fn digits_value_bounded(bytes: &[u8], start: usize, end: usize, limit: u64) -> (r: Option<u64>)
    requires
        start <= end <= bytes@.len(),
        forall|i: int| start <= i < end ==> is_digit(#[trigger] bytes@[i]),
    ensures
        ({
            let digs = bytes@.subrange(start as int, end as int);
            match r {
                Some(v) => v as int == digits_val(digs) && v <= limit,
                None => digits_val(digs) > limit,
            }
        }),
{
    let ghost digs = bytes@.subrange(start as int, end as int);
    proof {
        assert forall|i: int| 0 <= i < digs.len() implies is_digit(#[trigger] digs[i]) by {
            assert(digs[i] == bytes@[start + i]);
        }
    }
    let mut acc: u128 = 0;
    let mut j = start;
    while j < end
        invariant
            start <= j <= end <= bytes@.len(),
            digs == bytes@.subrange(start as int, end as int),
            all_digits(digs),
            acc == digits_val(digs.take(j - start)),
            acc <= limit as u128,
            limit <= u64::MAX,
        decreases end - j,
    {
        let d = *slice_index_get(bytes, j);
        proof {
            assert(digs[j - start] == bytes@[j as int]);
            assert(is_digit(d));
            lemma_digits_val_take_step(digs, j - start);
        }
        acc = acc * 10 + ((d - 0x30) as u128);
        j += 1;
        if acc > limit as u128 {
            proof {
                assert(acc == digits_val(digs.take(j - start)));
                lemma_digits_val_take_mono(digs, j - start, digs.len() as int);
                assert(digs.take(digs.len() as int) =~= digs);
            }
            return None;
        }
    }
    proof {
        assert(digs.take(digs.len() as int) =~= digs);
    }
    Some(acc as u64)
}

/// Three-way byte-lexicographic comparison.
pub(crate) fn byte_seq_cmp(a: &[u8], b: &[u8]) -> (r: i8)
    ensures
        (r == 0) == (a@ == b@),
        (r < 0) == lex_lt(a@, b@),
        (r > 0) == lex_lt(b@, a@),
{
    let alen = a.len();
    let blen = b.len();
    let mut i: usize = 0;
    loop
        invariant
            i <= alen,
            i <= blen,
            alen == a@.len(),
            blen == b@.len(),
            forall|j: int| 0 <= j < i ==> a@[j] == b@[j],
        decreases alen - i,
    {
        if i == alen && i == blen {
            proof {
                lemma_lex_common_prefix(a@, b@, i as int);
                if lex_lt(a@, b@) {
                    lemma_lex_irrefl(a@, b@);
                }
                if lex_lt(b@, a@) {
                    lemma_lex_irrefl(b@, a@);
                }
            }
            return 0;
        }
        if i == alen {
            proof {
                lemma_lex_common_prefix(a@, b@, i as int);
                lemma_lex_irrefl(a@, b@);
            }
            return -1;
        }
        if i == blen {
            proof {
                lemma_lex_common_prefix(b@, a@, i as int);
                lemma_lex_irrefl(b@, a@);
            }
            return 1;
        }
        let ab = *slice_index_get(a, i);
        let bb = *slice_index_get(b, i);
        if ab < bb {
            proof {
                lemma_lex_common_prefix(a@, b@, i as int);
                lemma_lex_irrefl(a@, b@);
            }
            return -1;
        }
        if ab > bb {
            proof {
                lemma_lex_common_prefix(b@, a@, i as int);
                lemma_lex_irrefl(b@, a@);
            }
            return 1;
        }
        i += 1;
    }
}

/// Why a byte-string decode fails: no length digits or no colon is not a
/// string; everything else ran out of input.
pub open spec fn bstring_err_kind(b: Seq<u8>) -> DecodeErrorKind {
    if b.len() == 0 {
        DecodeErrorKind::EndOfStream
    } else if digit_run(b) == 0 {
        DecodeErrorKind::InvalidString
    } else if digit_run(b) == b.len() {
        DecodeErrorKind::EndOfStream
    } else if b[digit_run(b)] != TOK_COLON {
        DecodeErrorKind::InvalidString
    } else {
        DecodeErrorKind::EndOfStream
    }
}

/// Where a byte-string decode fails: at the offending byte.
pub open spec fn bstring_err_pos(b: Seq<u8>) -> int {
    if b.len() == 0 || digit_run(b) == 0 {
        0
    } else {
        digit_run(b)
    }
}

/// Decodes a length-prefixed byte-string `<len>:<bytes>`.
pub fn bstring_decode(bytes: &[u8]) -> (r: Result<DecodeResult<BString>, DecodeError>)
    ensures
        match r {
            Ok(res) => {
                &&& parse_str(bytes@) == Some((res.0@, res.1 as int))
                &&& res.1 <= bytes@.len()
            },
            Err(e) => {
                &&& parse_str(bytes@) is None
                &&& e.kind == bstring_err_kind(bytes@)
                &&& e.position matches Some(p) && p == bstring_err_pos(bytes@)
            },
        },
{
    let len = bytes.len();
    if len == 0 {
        return Err(DecodeError { position: Some(0), kind: DecodeErrorKind::EndOfStream });
    }
    let k = scan_digits(bytes, 0);
    proof {
        assert(bytes@.skip(0) =~= bytes@);
    }
    if k == 0 {
        return Err(DecodeError { position: Some(0), kind: DecodeErrorKind::InvalidString });
    }
    if k == len {
        return Err(DecodeError { position: Some(k), kind: DecodeErrorKind::EndOfStream });
    }
    if *slice_index_get(bytes, k) != TOK_COLON {
        return Err(DecodeError { position: Some(k), kind: DecodeErrorKind::InvalidString });
    }
    proof {
        assert(bytes@.take(k as int) =~= bytes@.subrange(0, k as int));
        lemma_digits_val_nonneg(bytes@.subrange(0, k as int));
    }
    let n = match digits_value_bounded(bytes, 0, k, len as u64) {
        Some(v) => v,
        None => {
            return Err(DecodeError { position: Some(k), kind: DecodeErrorKind::EndOfStream });
        },
    };
    let n = n as usize;
    if n > len - k - 1 {
        return Err(DecodeError { position: Some(k), kind: DecodeErrorKind::EndOfStream });
    }
    let payload = slice_subrange(bytes, k + 1, k + 1 + n);
    Ok(DecodeResult(BString(slice_to_vec(payload)), k + 1 + n))
}

/// Why an integer decode fails, mirroring the integer rules: missing
/// opener, missing digits or terminator, `-0`, a leading zero, or a value
/// outside the signed 64-bit range.
pub open spec fn bint_err_kind(b: Seq<u8>) -> DecodeErrorKind {
    if b.len() < 2 {
        DecodeErrorKind::EndOfStream
    } else if b[0] != TOK_INT {
        DecodeErrorKind::ExpectedByte('i')
    } else {
        let ds: int = if b[1] == TOK_MINUS {
            2
        } else {
            1
        };
        let k = digit_run(b.skip(ds));
        if k == 0 {
            DecodeErrorKind::InvalidString
        } else if ds + k == b.len() {
            DecodeErrorKind::EndOfStream
        } else if b[ds + k] != TOK_END {
            DecodeErrorKind::ExpectedByte('e')
        } else if b[ds] == TOK_ZERO && b[1] == TOK_MINUS {
            DecodeErrorKind::IntNegativeZero
        } else if b[ds] == TOK_ZERO && k > 1 {
            DecodeErrorKind::ExpectedByte('e')
        } else {
            DecodeErrorKind::IntOverflow
        }
    }
}

/// Where an integer decode fails, where a position is known.
pub open spec fn bint_err_pos(b: Seq<u8>) -> Option<int> {
    if b.len() < 2 || b[0] != TOK_INT {
        None
    } else {
        let ds: int = if b[1] == TOK_MINUS {
            2
        } else {
            1
        };
        let k = digit_run(b.skip(ds));
        if k == 0 {
            Some(1int)
        } else if ds + k == b.len() || b[ds + k] != TOK_END {
            Some(ds + k)
        } else if b[ds] == TOK_ZERO && b[1] == TOK_MINUS {
            Some(ds)
        } else if b[ds] == TOK_ZERO && k > 1 {
            Some(ds + 1)
        } else {
            Some(ds)
        }
    }
}

/// Decodes an integer `i<digits>e`, enforcing the canonical integer rules:
/// no `-0`, no leading zeros, and a value that fits a signed 64-bit word.
pub fn bint_decode(bytes: &[u8]) -> (r: Result<DecodeResult<BInt>, DecodeError>)
    ensures
        match r {
            Ok(res) => {
                &&& parse_int(bytes@) == Some((BencodeView::Int(res.0@), res.1 as int))
                &&& res.1 <= bytes@.len()
            },
            Err(e) => {
                &&& parse_int(bytes@) is None
                &&& e.kind == bint_err_kind(bytes@)
                &&& e.position == (match bint_err_pos(bytes@) {
                    Some(p) => Some(p as usize),
                    None => None,
                })
            },
        },
{
    let len = bytes.len();
    if len < 2 {
        return Err(DecodeError { position: None, kind: DecodeErrorKind::EndOfStream });
    }
    if *slice_index_get(bytes, 0) != TOK_INT {
        return Err(DecodeError { position: None, kind: DecodeErrorKind::ExpectedByte('i') });
    }
    let neg = *slice_index_get(bytes, 1) == TOK_MINUS;
    let ds: usize = if neg { 2 } else { 1 };
    let run_end = scan_digits(bytes, ds);
    let k = run_end - ds;
    if k == 0 {
        return Err(DecodeError { position: Some(1), kind: DecodeErrorKind::InvalidString });
    }
    if run_end == len {
        return Err(DecodeError { position: Some(run_end), kind: DecodeErrorKind::EndOfStream });
    }
    if *slice_index_get(bytes, run_end) != TOK_END {
        return Err(DecodeError {
            position: Some(run_end),
            kind: DecodeErrorKind::ExpectedByte('e'),
        });
    }
    let ghost digs = bytes@.subrange(ds as int, ds + k);
    proof {
        assert forall|i: int| 0 <= i < digs.len() implies is_digit(#[trigger] digs[i]) by {
            assert(digs[i] == bytes@[ds + i]);
        }
    }
    if *slice_index_get(bytes, ds) == TOK_ZERO {
        if neg {
            return Err(DecodeError { position: Some(ds), kind: DecodeErrorKind::IntNegativeZero });
        }
        if k > 1 {
            return Err(DecodeError {
                position: Some(ds + 1),
                kind: DecodeErrorKind::ExpectedByte('e'),
            });
        }
    }
    let limit: u64 = if neg {
        9223372036854775808
    } else {
        9223372036854775807
    };
    let mag = match digits_value_bounded(bytes, ds, run_end, limit) {
        Some(v) => v,
        None => {
            proof {
                lemma_digits_val_nonneg(digs);
            }
            return Err(DecodeError { position: Some(ds), kind: DecodeErrorKind::IntOverflow });
        },
    };
    proof {
        lemma_digits_val_nonneg(digs);
    }
    let value: i64 = if neg {
        if mag == 9223372036854775808 {
            i64::MIN
        } else {
            -(mag as i64)
        }
    } else {
        mag as i64
    };
    Ok(DecodeResult(BInt(value), run_end + 1))
}

/// Decodes a list `l<elements>e`.
pub fn blist_decode(bytes: &[u8]) -> (r: Result<DecodeResult<BList>, DecodeError>)
    ensures
        match r {
            Ok(res) => {
                &&& bytes@.len() >= 1 && bytes@[0] == TOK_LIST
                &&& parse_items(bytes@.skip(1)) == Some((res.0@, res.1 - 1int))
                &&& 1 <= res.1 <= bytes@.len()
                &&& bencode_wf(Bencode::BList(res.0))
            },
            Err(e) => {
                &&& bytes@.len() == 0 || bytes@[0] != TOK_LIST || parse_items(bytes@.skip(1))
                    is None
                &&& bytes@.len() == 0 ==> e.kind is EndOfStream
                &&& bytes@.len() > 0 && bytes@[0] != TOK_LIST ==> (e.kind matches
                DecodeErrorKind::ExpectedByte(c) && c == 'l')
            },
        },
    decreases bytes@.len(), 0int,
{
    let len = bytes.len();
    if len == 0 {
        return Err(DecodeError { position: None, kind: DecodeErrorKind::EndOfStream });
    }
    if *slice_index_get(bytes, 0) != TOK_LIST {
        return Err(DecodeError { position: None, kind: DecodeErrorKind::ExpectedByte('l') });
    }
    let mut list: Vec<Bencode> = Vec::new();
    let mut pos: usize = 1;
    loop
        invariant
            1 <= pos <= len,
            len == bytes@.len(),
            bytes@[0] == TOK_LIST,
            forall|i: int| 0 <= i < list@.len() ==> bencode_wf(#[trigger] list@[i]),
            parse_items(bytes@.skip(1)) == (match parse_items(bytes@.skip(pos as int)) {
                Some(t) => if true {
                    Some((views_of(list@) + t.0, (pos - 1) + t.1))
                } else {
                    None
                },
                None => None::<(Seq<BencodeView>, int)>,
            }),
        decreases len - pos,
    {
        if pos == len {
            proof {
                assert(bytes@.skip(pos as int).len() == 0);
            }
            return Err(DecodeError { position: Some(pos), kind: DecodeErrorKind::EndOfStream });
        }
        if *slice_index_get(bytes, pos) == TOK_END {
            proof {
                assert(bytes@.skip(pos as int)[0] == TOK_END);
                assert(parse_items(bytes@.skip(pos as int)) == Some(
                    (Seq::<BencodeView>::empty(), 1int),
                ));
                assert(views_of(list@) + Seq::<BencodeView>::empty() =~= views_of(list@));
            }
            return Ok(DecodeResult(BList(list), pos + 1));
        }
        let tail = slice_subrange(bytes, pos, len);
        let ghost old_list = list@;
        let ghost old_pos = pos as int;
        match belement_decode(tail) {
            Ok(res) => {
                let DecodeResult(value, n) = res;
                proof {
                    lemma_parse_elem_sound(tail@);
                    assert(tail@ == bytes@.skip(pos as int));
                }
                list.push(value);
                pos = pos + n;
                proof {
                    let skip_old = bytes@.skip(old_pos);
                    let skip_new = bytes@.skip(pos as int);
                    assert(skip_old.skip(n as int) =~= skip_new);
                    assert(skip_old[0] != TOK_END);
                    assert(list@.drop_last() =~= old_list);
                    assert(list@.last() == value);
                    assert(views_of(list@) =~= views_of(old_list).push(bencode_view(value)));
                    match parse_items(skip_new) {
                        Some(t) => {
                            assert(parse_items(skip_old) == Some(
                                (seq![bencode_view(value)] + t.0, n + t.1),
                            ));
                            assert(views_of(old_list) + (seq![bencode_view(value)] + t.0)
                                =~= views_of(list@) + t.0);
                        },
                        None => {
                            assert(parse_items(skip_old) is None);
                        },
                    }
                }
            },
            Err(e) => {
                proof {
                    assert(bytes@.skip(pos as int)[0] != TOK_END);
                    assert(parse_items(bytes@.skip(pos as int)) is None);
                }
                return Err(e);
            },
        }
    }
}

/// The last key the dictionary scan accepted, if any.
pub open spec fn prev_key(pairs: Seq<BPair>) -> Option<Seq<u8>> {
    if pairs.len() == 0 {
        None
    } else {
        Some(pairs.last().key@)
    }
}

/// Where the dictionary scan itself fails, the kind it fails with: running
/// out of entries, a bad key, a repeated key, or a key out of order.
/// `None` means the scan does not fail here, or the failure lies inside a
/// nested value, whose own decoder pins its kind.
pub open spec fn dict_fail_kind(bytes: Seq<u8>, prev: Option<Seq<u8>>) -> Option<DecodeErrorKind>
    decreases bytes.len(), 1int,
{
    if bytes.len() == 0 {
        Some(DecodeErrorKind::EndOfStream)
    } else if bytes[0] == TOK_END {
        None
    } else {
        match parse_str(bytes) {
            None => Some(bstring_err_kind(bytes)),
            Some((key, n1)) => match prev {
                Some(p) => if !lex_lt(p, key) {
                    if p == key {
                        Some(DecodeErrorKind::DuplicateKey)
                    } else {
                        Some(DecodeErrorKind::UnsortedKeys)
                    }
                } else {
                    dict_fail_after_key(bytes, key, n1)
                },
                None => dict_fail_after_key(bytes, key, n1),
            },
        }
    }
}

/// The scan's continuation past an accepted key.
pub open spec fn dict_fail_after_key(bytes: Seq<u8>, key: Seq<u8>, n1: int) -> Option<
    DecodeErrorKind,
>
    decreases bytes.len(), 0int,
{
    if !(1 <= n1 <= bytes.len()) {
        None
    } else {
        match parse_elem(bytes.skip(n1)) {
            None => None,
            Some((_, n2)) => if 1 <= n2 <= bytes.len() - n1 {
                dict_fail_kind(bytes.skip(n1 + n2), Some(key))
            } else {
                None
            },
        }
    }
}

/// Decodes a dictionary `d<entries>e`, rejecting duplicate and out-of-order
/// keys, and records the SHA-1 digest of the span it consumed.
#[verifier::rlimit(100)]
#[verifier::spinoff_prover]
pub fn bdict_decode(bytes: &[u8]) -> (r: Result<DecodeResult<BDict>, DecodeError>)
    ensures
        match r {
            Ok(res) => {
                &&& bytes@.len() >= 1 && bytes@[0] == TOK_DICT
                &&& parse_pairs(bytes@.skip(1)) == Some((res.0@, res.1 - 1int))
                &&& 1 <= res.1 <= bytes@.len()
                &&& bencode_wf(Bencode::BDict(res.0))
                &&& res.0.hash@ == crate::hashing::sha1_of(bytes@.take(res.1 as int))
            },
            Err(e) => {
                &&& bytes@.len() == 0 || bytes@[0] != TOK_DICT || parse_pairs(bytes@.skip(1))
                    is None
                &&& bytes@.len() == 0 ==> e.kind is EndOfStream
                &&& bytes@.len() > 0 && bytes@[0] != TOK_DICT ==> (e.kind matches
                DecodeErrorKind::ExpectedByte(c) && c == 'd')
                &&& bytes@.len() > 0 && bytes@[0] == TOK_DICT ==> (match dict_fail_kind(
                    bytes@.skip(1),
                    None::<Seq<u8>>,
                ) {
                    Some(k) => e.kind == k,
                    None => true,
                })
            },
        },
    decreases bytes@.len(), 0int,
{
    let len = bytes.len();
    if len == 0 {
        return Err(DecodeError { position: Some(0), kind: DecodeErrorKind::EndOfStream });
    }
    if *slice_index_get(bytes, 0) != TOK_DICT {
        return Err(DecodeError { position: Some(0), kind: DecodeErrorKind::ExpectedByte('d') });
    }
    let mut pairs: Vec<BPair> = Vec::new();
    let mut pos: usize = 1;
    loop
        invariant
            1 <= pos <= len,
            len == bytes@.len(),
            bytes@[0] == TOK_DICT,
            forall|i: int| 0 <= i < pairs@.len() ==> bpair_wf(#[trigger] pairs@[i]),
            parse_pairs(bytes@.skip(1)) == (match parse_pairs(bytes@.skip(pos as int)) {
                Some(t) => if pairs@.len() == 0 || t.0.len() == 0 || lex_lt(
                    pairs@.last().key@,
                    t.0[0].0,
                ) {
                    Some((pair_views_of(pairs@) + t.0, (pos - 1) + t.1))
                } else {
                    None
                },
                None => None::<(Seq<(Seq<u8>, BencodeView)>, int)>,
            }),
            dict_fail_kind(bytes@.skip(1), None::<Seq<u8>>) == dict_fail_kind(
                bytes@.skip(pos as int),
                prev_key(pairs@),
            ),
        decreases len - pos,
    {
        if pos == len {
            proof {
                assert(bytes@.skip(pos as int).len() == 0);
            }
            return Err(DecodeError { position: Some(pos), kind: DecodeErrorKind::EndOfStream });
        }
        if *slice_index_get(bytes, pos) == TOK_END {
            proof {
                assert(bytes@.skip(pos as int)[0] == TOK_END);
                assert(parse_pairs(bytes@.skip(pos as int)) == Some(
                    (Seq::<(Seq<u8>, BencodeView)>::empty(), 1int),
                ));
                assert(pair_views_of(pairs@) + Seq::<(Seq<u8>, BencodeView)>::empty()
                    =~= pair_views_of(pairs@));
            }
            let span = slice_subrange(bytes, 0, pos + 1);
            let digest = sha1_digest(span);
            let dict = BDict::from_parts(pairs, digest);
            proof {
                let n = (pos + 1) as int;
                assert(parse_elem(bytes@) == Some((BencodeView::Dict(dict@), n)));
                lemma_parse_elem_sound(bytes@);
                assert(span@ == bytes@.take(n));
                assert(dict.hash@ == crate::hashing::sha1_of(bytes@.take(n)));
                assert(crate::bencode::dict_hash_wf(dict));
            }
            return Ok(DecodeResult(dict, pos + 1));
        }
        let tail = slice_subrange(bytes, pos, len);
        let ghost old_pairs = pairs@;
        let ghost old_pos = pos as int;
        let key = match bstring_decode(tail) {
            Ok(res) => res,
            Err(e) => {
                proof {
                    assert(bytes@.skip(pos as int)[0] != TOK_END);
                    assert(parse_pairs(bytes@.skip(pos as int)) is None);
                    assert(dict_fail_kind(bytes@.skip(pos as int), prev_key(pairs@)) == Some(
                        bstring_err_kind(bytes@.skip(pos as int)),
                    ));
                }
                return Err(e);
            },
        };
        let DecodeResult(key_string, n1) = key;
        proof {
            assert(tail@ == bytes@.skip(old_pos));
            assert(2 <= n1) by {
                crate::bencode::laws::lemma_parse_str_sound(tail@);
            }
        }
        if pairs.len() > 0 {
            let last_idx = pairs.len() - 1;
            let order = byte_seq_cmp(
                pairs[last_idx].key.0.as_slice(),
                key_string.0.as_slice(),
            );
            if order == 0 {
                proof {
                    lemma_dict_step_rejected(bytes@, old_pos, old_pairs, key_string@);
                    if lex_lt(old_pairs.last().key@, key_string@) {
                        crate::bencode::laws::lemma_lex_irrefl(
                            old_pairs.last().key@,
                            key_string@,
                        );
                    }
                    assert(dict_fail_kind(bytes@.skip(old_pos), prev_key(old_pairs)) == Some(
                        DecodeErrorKind::DuplicateKey,
                    ));
                }
                return Err(DecodeError {
                    position: Some(pos),
                    kind: DecodeErrorKind::DuplicateKey,
                });
            }
            if order > 0 {
                proof {
                    lemma_lex_irrefl(key_string@, old_pairs.last().key@);
                    lemma_dict_step_rejected(bytes@, old_pos, old_pairs, key_string@);
                    assert(dict_fail_kind(bytes@.skip(old_pos), prev_key(old_pairs)) == Some(
                        DecodeErrorKind::UnsortedKeys,
                    ));
                }
                return Err(DecodeError {
                    position: Some(pos),
                    kind: DecodeErrorKind::UnsortedKeys,
                });
            }
        }
        let value_tail = slice_subrange(bytes, pos + n1, len);
        let value = match belement_decode(value_tail) {
            Ok(res) => res,
            Err(e) => {
                proof {
                    assert(value_tail@ =~= bytes@.skip(old_pos).skip(n1 as int));
                    assert(bytes@.skip(old_pos)[0] != TOK_END);
                    assert(parse_pairs(bytes@.skip(old_pos)) is None);
                    assert(dict_fail_kind(bytes@.skip(old_pos), prev_key(old_pairs)) is None);
                }
                return Err(e);
            },
        };
        let DecodeResult(value_elem, n2) = value;
        proof {
            lemma_parse_elem_sound(bytes@.skip(old_pos).skip(n1 as int));
            assert(value_tail@ =~= bytes@.skip(old_pos).skip(n1 as int));
        }
        pairs.push(BPair { key: key_string, value: value_elem });
        pos = pos + n1 + n2;
        proof {
            let skip_old = bytes@.skip(old_pos);
            let skip_mid = skip_old.skip(n1 as int);
            let skip_new = bytes@.skip(pos as int);
            assert(skip_mid.skip(n2 as int) =~= skip_new);
            assert(skip_old[0] != TOK_END);
            assert(pairs@.drop_last() =~= old_pairs);
            assert(pairs@.last() == (BPair { key: key_string, value: value_elem }));
            let kview = pairs@.last().key@;
            let vview = bencode_view(pairs@.last().value);
            assert(kview == key_string@);
            assert(vview == bencode_view(value_elem));
            assert(pair_views_of(pairs@) == pair_views_of(pairs@.drop_last()).push(
                bpair_view(pairs@.last()),
            ));
            assert(bpair_view(pairs@.last()) == (kview, vview));
            assert(pair_views_of(pairs@) =~= pair_views_of(old_pairs).push((kview, vview)));
            assert(parse_str(skip_old) == Some((kview, n1 as int)));
            assert(skip_old.skip(n1 as int) =~= skip_mid);
            assert(parse_elem(skip_mid) == Some((vview, n2 as int)));
            assert(skip_old.skip(n1 + n2) =~= skip_mid.skip(n2 as int));
            assert(1 <= n1 <= skip_old.len());
            assert(1 <= n2 <= skip_old.len() - n1);
            assert(prev_key(pairs@) == Some(kview));
            assert(dict_fail_kind(skip_old, prev_key(old_pairs)) == dict_fail_kind(
                skip_new,
                Some(kview),
            ));
            match parse_pairs(skip_new) {
                Some(t) => {
                    if t.0.len() == 0 || lex_lt(kview, t.0[0].0) {
                        assert(parse_pairs(skip_old) == Some(
                            (seq![(kview, vview)] + t.0, n1 + n2 + t.1),
                        ));
                        assert(pair_views_of(old_pairs) + (seq![(kview, vview)] + t.0)
                            =~= pair_views_of(pairs@) + t.0);
                        if old_pairs.len() > 0 {
                            assert((seq![(kview, vview)] + t.0)[0].0 == kview);
                        }
                    } else {
                        assert(parse_pairs(skip_old) is None);
                    }
                },
                None => {
                    assert(parse_pairs(skip_old) is None);
                },
            }
        }
    }
}

/// One rejected dictionary step: when the next key does not strictly follow
/// the previous one, the whole dictionary is rejected.
proof fn lemma_dict_step_rejected(
    bytes: Seq<u8>,
    pos: int,
    old_pairs: Seq<BPair>,
    key: Seq<u8>,
)
    requires
        1 <= pos < bytes.len(),
        old_pairs.len() > 0,
        !lex_lt(old_pairs.last().key@, key),
        parse_str(bytes.skip(pos)) matches Some(k) && k.0 == key,
        parse_pairs(bytes.skip(1)) == (match parse_pairs(bytes.skip(pos)) {
            Some(t) => if old_pairs.len() == 0 || t.0.len() == 0 || lex_lt(
                old_pairs.last().key@,
                t.0[0].0,
            ) {
                Some((pair_views_of(old_pairs) + t.0, (pos - 1) + t.1))
            } else {
                None
            },
            None => None::<(Seq<(Seq<u8>, BencodeView)>, int)>,
        }),
    ensures
        parse_pairs(bytes.skip(1)) is None,
{
    let s = bytes.skip(pos);
    crate::bencode::laws::lemma_parse_str_sound(s);
    assert(s[0] == bytes[pos]);
    match parse_pairs(s) {
        Some(t) => {
            // the rest, if it parses, must begin with this very key
            assert(s.len() > 0);
            if s[0] == TOK_END {
                assert(parse_str(s) is Some);
                let k = parse_str(s)->0;
                assert(is_digit(s[0])) by {
                    crate::bencode::laws::lemma_digit_run_bounds(s);
                }
                assert(false);
            }
            assert(t.0.len() > 0 && t.0[0].0 == key);
        },
        None => {},
    }
}

/// Decodes one bencoded element of any kind.
pub fn belement_decode(bytes: &[u8]) -> (r: Result<DecodeResult<Bencode>, DecodeError>)
    ensures
        match r {
            Ok(res) => {
                &&& parse_elem(bytes@) == Some((res.0@, res.1 as int))
                &&& 1 <= res.1 <= bytes@.len()
                &&& bencode_wf(res.0)
            },
            Err(e) => {
                &&& parse_elem(bytes@) is None
                &&& bytes@.len() == 0 ==> e.kind is EndOfStream && e.position == Some(0usize)
            },
        },
    decreases bytes@.len(), 1int,
{
    let len = bytes.len();
    if len == 0 {
        return Err(DecodeError { position: Some(0), kind: DecodeErrorKind::EndOfStream });
    }
    let first = *slice_index_get(bytes, 0);
    if first == TOK_INT {
        match bint_decode(bytes) {
            Ok(res) => {
                let DecodeResult(value, n) = res;
                proof {
                    assert(1 <= n) by {
                        crate::bencode::laws::lemma_parse_int_sound(bytes@);
                    }
                }
                Ok(DecodeResult(Bencode::BInt(value), n))
            },
            Err(e) => Err(e),
        }
    } else if first == TOK_LIST {
        match blist_decode(bytes) {
            Ok(res) => {
                let DecodeResult(value, n) = res;
                Ok(DecodeResult(Bencode::BList(value), n))
            },
            Err(e) => Err(e),
        }
    } else if first == TOK_DICT {
        match bdict_decode(bytes) {
            Ok(res) => {
                let DecodeResult(value, n) = res;
                Ok(DecodeResult(Bencode::BDict(value), n))
            },
            Err(e) => Err(e),
        }
    } else {
        match bstring_decode(bytes) {
            Ok(res) => {
                let DecodeResult(value, n) = res;
                proof {
                    assert(1 <= n) by {
                        crate::bencode::laws::lemma_parse_str_sound(bytes@);
                    }
                }
                Ok(DecodeResult(Bencode::BString(value), n))
            },
            Err(e) => Err(e),
        }
    }
}

} // verus!

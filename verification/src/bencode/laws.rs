//! Laws of the bencode model: properties of decimal digit strings, of the
//! byte-lexicographic key order, and the codec.  The central results are
//! the soundness lemmas (whatever the parser accepts is well formed, with
//! strictly ascending dictionary keys) and `lemma_round_trip` (the
//! canonical encoding of any well-formed value parses back to exactly
//! that value).

use vstd::prelude::*;

use crate::bencode::model::{
    all_digits, canonical_digits, dec_digits, digit_run, digit_val, digits_val, encoded_elem,
    encoded_items, encoded_pairs, encoded_str, int_digits, is_digit, keys_ascending, lex_lt,
    parse_elem, parse_int, parse_items, parse_pairs, parse_str, view_wf, BencodeView, TOK_COLON,
    TOK_DICT, TOK_END, TOK_INT, TOK_LIST, TOK_MINUS, TOK_ZERO,
};

verus! {

// ---------------------------------------------------------------------------
// Decimal digit strings
// ---------------------------------------------------------------------------

pub proof fn lemma_digit_run_bounds(s: Seq<u8>)
    ensures
        0 <= digit_run(s) <= s.len(),
        forall|i: int| 0 <= i < digit_run(s) ==> is_digit(#[trigger] s[i]),
        digit_run(s) < s.len() ==> !is_digit(s[digit_run(s)]),
    decreases s.len(),
{
    if s.len() == 0 || !is_digit(s[0]) {
    } else {
        lemma_digit_run_bounds(s.skip(1));
        assert forall|i: int| 0 <= i < digit_run(s) implies is_digit(#[trigger] s[i]) by {
            if i > 0 {
                assert(s[i] == s.skip(1)[i - 1]);
            }
        }
        if digit_run(s) < s.len() {
            assert(s[digit_run(s)] == s.skip(1)[digit_run(s) - 1]);
        }
    }
}

pub proof fn lemma_digit_run_exact(s: Seq<u8>, k: int)
    requires
        0 <= k <= s.len(),
        forall|i: int| 0 <= i < k ==> is_digit(#[trigger] s[i]),
        k == s.len() || !is_digit(s[k]),
    ensures
        digit_run(s) == k,
    decreases s.len(),
{
    if k == 0 {
    } else {
        assert(is_digit(s[0]));
        assert forall|i: int| 0 <= i < k - 1 implies is_digit(#[trigger] s.skip(1)[i]) by {
            assert(s.skip(1)[i] == s[i + 1]);
        }
        if k - 1 < s.skip(1).len() {
            assert(s.skip(1)[k - 1] == s[k]);
        }
        lemma_digit_run_exact(s.skip(1), k - 1);
    }
}

pub proof fn lemma_digits_val_nonneg(s: Seq<u8>)
    requires
        all_digits(s),
    ensures
        digits_val(s) >= 0,
    decreases s.len(),
{
    if s.len() > 0 {
        assert(all_digits(s.drop_last()));
        lemma_digits_val_nonneg(s.drop_last());
    }
}

pub proof fn lemma_digits_val_take_step(s: Seq<u8>, j: int)
    requires
        0 <= j < s.len(),
    ensures
        digits_val(s.take(j + 1)) == digits_val(s.take(j)) * 10 + digit_val(s[j]),
{
    assert(s.take(j + 1).drop_last() =~= s.take(j));
    assert(s.take(j + 1).last() == s[j]);
}

pub proof fn lemma_digits_val_take_mono(s: Seq<u8>, j: int, k: int)
    requires
        all_digits(s),
        0 <= j <= k <= s.len(),
    ensures
        digits_val(s.take(j)) <= digits_val(s.take(k)),
    decreases k - j,
{
    if j < k {
        lemma_digits_val_take_mono(s, j, k - 1);
        lemma_digits_val_take_step(s, k - 1);
        assert(all_digits(s.take(k - 1)));
        lemma_digits_val_nonneg(s.take(k - 1));
    }
}

pub proof fn lemma_digits_val_lower(s: Seq<u8>)
    requires
        all_digits(s),
        s.len() >= 1,
        s[0] != TOK_ZERO,
    ensures
        digits_val(s) >= 1,
        s.len() > 1 ==> digits_val(s) >= 10,
    decreases s.len(),
{
    if s.len() == 1 {
        assert(s.drop_last().len() == 0);
        assert(digits_val(s.drop_last()) == 0);
        assert(s.last() == s[0]);
        assert(digit_val(s[0]) >= 1);
    } else {
        assert(all_digits(s.drop_last()));
        assert(s.drop_last()[0] == s[0]);
        lemma_digits_val_lower(s.drop_last());
        assert(digit_val(s.last()) >= 0);
    }
}

pub proof fn lemma_dec_digits_props(n: nat)
    ensures
        canonical_digits(dec_digits(n)),
        digits_val(dec_digits(n)) == n,
        dec_digits(n).len() >= 1,
    decreases n,
{
    if n < 10 {
        let t = dec_digits(n);
        assert(t =~= seq![(TOK_ZERO + n) as u8]);
        assert(t.drop_last().len() == 0);
        assert(digits_val(t.drop_last()) == 0);
        assert(t.last() == t[0]);
        assert(digits_val(t) == n);
    } else {
        lemma_dec_digits_props((n / 10) as nat);
        let s = dec_digits((n / 10) as nat);
        let d = (TOK_ZERO + n % 10) as u8;
        assert(dec_digits(n) == s.push(d));
        assert(s.push(d).drop_last() =~= s);
        assert(s.push(d).last() == d);
        assert(digits_val(s.push(d)) == digits_val(s) * 10 + digit_val(d));
        assert(digits_val(dec_digits(n)) == (n / 10) * 10 + n % 10);
        // leading digit of a number >= 10 cannot be zero
        if s[0] == TOK_ZERO {
            assert(s.len() == 1);
            assert(s.drop_last().len() == 0);
            assert(digits_val(s.drop_last()) == 0);
            assert(s.last() == s[0]);
            assert(digits_val(s) == digit_val(s[0]) == 0);
            assert(n / 10 == 0);
            assert(false);
        }
        assert forall|i: int| 0 <= i < s.push(d).len() implies is_digit(#[trigger] s.push(d)[i]) by {
            if i < s.len() {
                assert(s.push(d)[i] == s[i]);
            }
        }
    }
}

pub proof fn lemma_canonical_digits_unique(s: Seq<u8>)
    requires
        canonical_digits(s),
    ensures
        digits_val(s) >= 0,
        dec_digits(digits_val(s) as nat) == s,
    decreases s.len(),
{
    lemma_digits_val_nonneg(s);
    if s.len() == 1 {
        assert(s.drop_last().len() == 0);
        assert(digits_val(s.drop_last()) == 0);
        assert(s.last() == s[0]);
        assert(digits_val(s) == digit_val(s[0]));
        assert(dec_digits(digits_val(s) as nat) =~= s);
    } else {
        let p = s.drop_last();
        assert(s[0] != TOK_ZERO);
        assert(all_digits(p));
        assert(p[0] == s[0]);
        assert(canonical_digits(p));
        lemma_canonical_digits_unique(p);
        lemma_digits_val_lower(p);
        let v = digits_val(s);
        let vp = digits_val(p);
        let d = digit_val(s.last());
        assert(v == vp * 10 + d);
        assert(vp >= 1 && 0 <= d <= 9);
        assert(v >= 10);
        assert(v / 10 == vp && v % 10 == d) by (nonlinear_arith)
            requires
                v == vp * 10 + d,
                0 <= d <= 9,
                vp >= 0,
        ;
        assert(dec_digits(v as nat) == dec_digits(vp as nat).push((TOK_ZERO + v % 10) as u8));
        assert(dec_digits(v as nat) =~= s);
    }
}

// ---------------------------------------------------------------------------
// Byte-lexicographic order
// ---------------------------------------------------------------------------

pub proof fn lemma_lex_trans(a: Seq<u8>, b: Seq<u8>, c: Seq<u8>)
    requires
        lex_lt(a, b),
        lex_lt(b, c),
    ensures
        lex_lt(a, c),
    decreases a.len(),
{
    if a.len() == 0 {
    } else if a[0] == b[0] && b[0] == c[0] {
        lemma_lex_trans(a.skip(1), b.skip(1), c.skip(1));
    }
}

pub proof fn lemma_lex_irrefl(a: Seq<u8>, b: Seq<u8>)
    requires
        lex_lt(a, b),
    ensures
        a != b,
        !lex_lt(b, a),
    decreases a.len(),
{
    if a.len() > 0 && b.len() > 0 && a[0] == b[0] {
        lemma_lex_irrefl(a.skip(1), b.skip(1));
        assert(a != b) by {
            if a == b {
                assert(a.skip(1) == b.skip(1));
            }
        }
    }
}

/// Where two strings agree on their first `i` bytes, what follows at
/// position `i` settles their order.
pub proof fn lemma_lex_common_prefix(a: Seq<u8>, b: Seq<u8>, i: int)
    requires
        0 <= i <= a.len(),
        0 <= i <= b.len(),
        forall|j: int| 0 <= j < i ==> a[j] == b[j],
    ensures
        (i < a.len() && i < b.len() && a[i] < b[i]) ==> lex_lt(a, b),
        (i == a.len() && i < b.len()) ==> lex_lt(a, b),
        (i == a.len() && i == b.len()) ==> a == b,
    decreases i,
{
    if i == 0 {
        if a.len() == 0 && b.len() == 0 {
            assert(a =~= b);
        }
    } else {
        assert(a[0] == b[0]);
        assert forall|j: int| 0 <= j < i - 1 implies a.skip(1)[j] == b.skip(1)[j] by {
            assert(a.skip(1)[j] == a[j + 1] && b.skip(1)[j] == b[j + 1]);
        }
        lemma_lex_common_prefix(a.skip(1), b.skip(1), i - 1);
        if i < a.len() && i < b.len() && a[i] < b[i] {
            assert(a.skip(1)[i - 1] == a[i] && b.skip(1)[i - 1] == b[i]);
        }
        if i == a.len() && i == b.len() {
            assert(a.skip(1) == b.skip(1));
            assert(a =~= b);
        }
    }
}

/// Entries whose adjacent keys ascend have pairwise ascending keys.
pub proof fn lemma_adjacent_ascending(ps: Seq<(Seq<u8>, BencodeView)>)
    requires
        forall|i: int| 0 <= i < ps.len() - 1 ==> lex_lt(#[trigger] ps[i].0, ps[i + 1].0),
    ensures
        keys_ascending(ps),
{
    assert forall|i: int, j: int| 0 <= i < j < ps.len() implies lex_lt(
        #[trigger] ps[i].0,
        #[trigger] ps[j].0,
    ) by {
        lemma_adjacent_ascending_step(ps, i, j);
    }
}

proof fn lemma_adjacent_ascending_step(ps: Seq<(Seq<u8>, BencodeView)>, i: int, j: int)
    requires
        forall|k: int| 0 <= k < ps.len() - 1 ==> lex_lt(#[trigger] ps[k].0, ps[k + 1].0),
        0 <= i < j < ps.len(),
    ensures
        lex_lt(ps[i].0, ps[j].0),
    decreases j - i,
{
    if j == i + 1 {
    } else {
        lemma_adjacent_ascending_step(ps, i, j - 1);
        lemma_lex_trans(ps[i].0, ps[j - 1].0, ps[j].0);
    }
}

/// Every encoding is at least two bytes and starts with a digit or one of
/// the three tag bytes; in particular it never starts with the terminator.
pub proof fn lemma_encoded_head(v: BencodeView)
    ensures
        encoded_elem(v).len() >= 2,
        encoded_elem(v)[0] != TOK_END,
        v is Str ==> is_digit(encoded_elem(v)[0]),
        v is Int ==> encoded_elem(v)[0] == TOK_INT,
        v is List ==> encoded_elem(v)[0] == TOK_LIST,
        v is Dict ==> encoded_elem(v)[0] == TOK_DICT,
{
    match v {
        BencodeView::Str(str_bytes) => {
            lemma_dec_digits_props(str_bytes.len());
            assert(encoded_elem(v)[0] == dec_digits(str_bytes.len())[0]);
        },
        BencodeView::Int(n) => {
            if n < 0 {
                lemma_dec_digits_props((-n) as nat);
            } else {
                lemma_dec_digits_props(n as nat);
            }
        },
        BencodeView::List(_) => {},
        BencodeView::Dict(_) => {},
    }
}

// ---------------------------------------------------------------------------
// Soundness: whatever parses is the canonical encoding of what it yields
// ---------------------------------------------------------------------------

pub proof fn lemma_parse_str_sound(bytes: Seq<u8>)
    ensures
        parse_str(bytes) matches Some(r) ==> 2 <= r.1 <= bytes.len() && r.0.len() == r.1 - 1
            - digit_run(bytes),
{
    if parse_str(bytes) is Some {
        let r = parse_str(bytes)->0;
        let k = digit_run(bytes);
        lemma_digit_run_bounds(bytes);
        let digs = bytes.take(k);
        assert(all_digits(digs));
        lemma_digits_val_nonneg(digs);
        assert(r.0 =~= bytes.subrange(k + 1, k + 1 + digits_val(digs)));
    }
}

pub proof fn lemma_parse_int_sound(bytes: Seq<u8>)
    ensures
        parse_int(bytes) matches Some(r) ==> {
            &&& 3 <= r.1 <= bytes.len()
            &&& bytes.take(r.1) == encoded_elem(r.0)
            &&& view_wf(r.0)
            &&& r.0 is Int
        },
{
    if parse_int(bytes) is Some {
        let r = parse_int(bytes)->0;
        let neg = bytes[1] == TOK_MINUS;
        let ds = if neg { 2int } else { 1int };
        let k = digit_run(bytes.skip(ds));
        lemma_digit_run_bounds(bytes.skip(ds));
        let digs = bytes.subrange(ds, ds + k);
        assert(digs =~= bytes.skip(ds).take(k));
        assert forall|i: int| 0 <= i < k implies is_digit(#[trigger] digs[i]) by {
            assert(digs[i] == bytes.skip(ds)[i]);
        }
        assert(canonical_digits(digs));
        lemma_canonical_digits_unique(digs);
        let m = digits_val(digs);
        assert(dec_digits(m as nat) == digs);
        if neg {
            lemma_digits_val_lower(digs);
            assert(m >= 1);
            let v = -m;
            assert(r.0 == BencodeView::Int(v));
            assert(int_digits(v) == seq![TOK_MINUS] + digs);
            assert(encoded_elem(r.0) =~= bytes.take(ds + k + 1));
        } else {
            let v = m;
            assert(r.0 == BencodeView::Int(v));
            lemma_digits_val_nonneg(digs);
            assert(int_digits(v) == digs);
            assert(encoded_elem(r.0) =~= bytes.take(ds + k + 1));
        }
    }
}

pub proof fn lemma_parse_elem_sound(bytes: Seq<u8>)
    ensures
        parse_elem(bytes) matches Some(r) ==> {
            &&& 2 <= r.1 <= bytes.len()
            &&& view_wf(r.0)
        },
    decreases bytes.len(), 0int,
{
    if bytes.len() == 0 {
    } else if bytes[0] == TOK_INT {
        lemma_parse_int_sound(bytes);
    } else if bytes[0] == TOK_LIST {
        lemma_parse_items_sound(bytes.skip(1));
    } else if bytes[0] == TOK_DICT {
        lemma_parse_pairs_sound(bytes.skip(1));
    } else {
        lemma_parse_str_sound(bytes);
    }
}

pub proof fn lemma_parse_items_sound(bytes: Seq<u8>)
    ensures
        parse_items(bytes) matches Some(r) ==> {
            &&& 1 <= r.1 <= bytes.len()
            &&& forall|i: int| 0 <= i < r.0.len() ==> view_wf(#[trigger] r.0[i])
        },
    decreases bytes.len(), 1int,
{
    if bytes.len() == 0 {
    } else if bytes[0] == TOK_END {
    } else if parse_elem(bytes) is Some {
        let head = parse_elem(bytes)->0;
        let v = head.0;
        let n = head.1;
        lemma_parse_elem_sound(bytes);
        if 1 <= n <= bytes.len() {
            lemma_parse_items_sound(bytes.skip(n));
            if parse_items(bytes.skip(n)) is Some {
                let tail = parse_items(bytes.skip(n))->0;
                let vs = tail.0;
                let whole = seq![v] + vs;
                assert forall|i: int| 0 <= i < whole.len() implies view_wf(#[trigger] whole[i]) by {
                    if i > 0 {
                        assert(whole[i] == vs[i - 1]);
                    }
                }
            }
        }
    }
}

pub proof fn lemma_parse_pairs_sound(bytes: Seq<u8>)
    ensures
        parse_pairs(bytes) matches Some(r) ==> {
            &&& 1 <= r.1 <= bytes.len()
            &&& view_wf(BencodeView::Dict(r.0))
        },
    decreases bytes.len(), 1int,
{
    if bytes.len() == 0 {
    } else if bytes[0] == TOK_END {
        assert(keys_ascending(Seq::<(Seq<u8>, BencodeView)>::empty()));
    } else if parse_str(bytes) is Some {
        let keyr = parse_str(bytes)->0;
        let key = keyr.0;
        let n1 = keyr.1;
        lemma_parse_str_sound(bytes);
        if 1 <= n1 <= bytes.len() {
            if parse_elem(bytes.skip(n1)) is Some {
                let valr = parse_elem(bytes.skip(n1))->0;
                let v = valr.0;
                let n2 = valr.1;
                lemma_parse_elem_sound(bytes.skip(n1));
                if 1 <= n2 <= bytes.len() - n1 {
                    lemma_parse_pairs_sound(bytes.skip(n1 + n2));
                    if parse_pairs(bytes.skip(n1 + n2)) is Some {
                        let tail = parse_pairs(bytes.skip(n1 + n2))->0;
                        let ps = tail.0;
                        let m = tail.1;
                        if ps.len() == 0 || lex_lt(key, ps[0].0) {
                            let whole = seq![(key, v)] + ps;
                            assert(whole[0] == (key, v));
                            assert(whole.skip(1) =~= ps);
                            // ascending keys: the head precedes the rest, which ascends
                            assert forall|i: int| 0 <= i < whole.len() - 1 implies lex_lt(
                                #[trigger] whole[i].0,
                                whole[i + 1].0,
                            ) by {
                                if i == 0 {
                                    assert(whole[1] == ps[0]);
                                } else {
                                    assert(whole[i] == ps[i - 1] && whole[i + 1] == ps[i]);
                                }
                            }
                            lemma_adjacent_ascending(whole);
                            assert forall|i: int| 0 <= i < whole.len() implies view_wf(
                                #[trigger] whole[i].1,
                            ) by {
                                if i > 0 {
                                    assert(whole[i] == ps[i - 1]);
                                }
                            }
                        }
                    }
                }
            }
        }
    }
}

// ---------------------------------------------------------------------------
// Completeness: the canonical encoding of a well-formed value parses back
// ---------------------------------------------------------------------------

pub proof fn lemma_parse_str_complete(str_bytes: Seq<u8>, rest: Seq<u8>)
    ensures
        parse_str(encoded_str(str_bytes) + rest) == Some(
            (str_bytes, encoded_str(str_bytes).len() as int),
        ),
{
    let dd = dec_digits(str_bytes.len());
    lemma_dec_digits_props(str_bytes.len());
    let b = encoded_str(str_bytes) + rest;
    let k = dd.len() as int;
    assert forall|i: int| 0 <= i < k implies is_digit(#[trigger] b[i]) by {
        assert(b[i] == dd[i]);
    }
    assert(b[k] == TOK_COLON);
    assert(!is_digit(b[k]));
    lemma_digit_run_exact(b, k);
    assert(b.take(k) =~= dd);
    assert(b[0] == dd[0]);
    assert(digits_val(b.take(k)) == str_bytes.len());
    assert(k + 1 + str_bytes.len() <= b.len());
    assert(b.subrange(k + 1, k + 1 + str_bytes.len() as int) =~= str_bytes);
}

pub proof fn lemma_parse_int_complete(n: int, rest: Seq<u8>)
    requires
        i64::MIN <= n <= i64::MAX,
    ensures
        parse_elem(encoded_elem(BencodeView::Int(n)) + rest) == Some(
            (BencodeView::Int(n), encoded_elem(BencodeView::Int(n)).len() as int),
        ),
{
    let enc = encoded_elem(BencodeView::Int(n));
    let b = enc + rest;
    assert(b[0] == TOK_INT);
    if n < 0 {
        let dd = dec_digits((-n) as nat);
        lemma_dec_digits_props((-n) as nat);
        assert(int_digits(n) == seq![TOK_MINUS] + dd);
        assert(b[1] == TOK_MINUS);
        let ds = 2int;
        let k = dd.len() as int;
        assert forall|i: int| 0 <= i < k implies is_digit(#[trigger] b.skip(ds)[i]) by {
            assert(b.skip(ds)[i] == dd[i]);
        }
        assert(b.skip(ds)[k] == TOK_END);
        assert(!is_digit(b.skip(ds)[k]));
        lemma_digit_run_exact(b.skip(ds), k);
        let digs = b.subrange(ds, ds + k);
        assert(digs =~= dd);
        if digs[0] == TOK_ZERO {
            assert(dd.len() == 1);
            assert(dd.drop_last().len() == 0);
            assert(digits_val(dd.drop_last()) == 0);
            assert(dd.last() == dd[0]);
            assert(digits_val(dd) == 0);
            assert(false);
        }
        assert(b[ds + k] == TOK_END);
        assert(digits_val(digs) == -n);
        assert(parse_int(b) == Some((BencodeView::Int(n), ds + k + 1)));
        assert(enc.len() == ds + k + 1);
    } else {
        let dd = dec_digits(n as nat);
        lemma_dec_digits_props(n as nat);
        assert(int_digits(n) == dd);
        let ds = 1int;
        assert(b[1] == dd[0]);
        assert(is_digit(dd[0]));
        assert(b[1] != TOK_MINUS);
        let k = dd.len() as int;
        assert forall|i: int| 0 <= i < k implies is_digit(#[trigger] b.skip(ds)[i]) by {
            assert(b.skip(ds)[i] == dd[i]);
        }
        assert(b.skip(ds)[k] == TOK_END);
        assert(!is_digit(b.skip(ds)[k]));
        lemma_digit_run_exact(b.skip(ds), k);
        let digs = b.subrange(ds, ds + k);
        assert(digs =~= dd);
        assert(b[ds + k] == TOK_END);
        assert(digits_val(digs) == n);
        if digs[0] == TOK_ZERO {
            assert(dd.len() == 1);
        }
        assert(parse_int(b) == Some((BencodeView::Int(n), ds + k + 1)));
        assert(enc.len() == ds + k + 1);
    }
}

pub proof fn lemma_parse_elem_complete(v: BencodeView, rest: Seq<u8>)
    requires
        view_wf(v),
    ensures
        parse_elem(encoded_elem(v) + rest) == Some((v, encoded_elem(v).len() as int)),
    decreases v, 1int,
{
    let enc = encoded_elem(v);
    let b = enc + rest;
    lemma_encoded_head(v);
    match v {
        BencodeView::Str(str_bytes) => {
            assert(b[0] != TOK_INT && b[0] != TOK_LIST && b[0] != TOK_DICT);
            assert(b =~= encoded_str(str_bytes) + rest);
            lemma_parse_str_complete(str_bytes, rest);
        },
        BencodeView::Int(n) => {
            lemma_parse_int_complete(n, rest);
        },
        BencodeView::List(vs) => {
            assert(b[0] == TOK_LIST);
            assert(b.skip(1) =~= encoded_items(vs) + seq![TOK_END] + rest);
            lemma_parse_items_complete(vs, rest);
            assert(parse_items(b.skip(1)) == Some((vs, encoded_items(vs).len() + 1int)));
            assert(enc.len() == 1 + encoded_items(vs).len() + 1);
        },
        BencodeView::Dict(ps) => {
            assert(b[0] == TOK_DICT);
            assert(b.skip(1) =~= encoded_pairs(ps) + seq![TOK_END] + rest);
            lemma_parse_pairs_complete(ps, rest);
            assert(parse_pairs(b.skip(1)) == Some((ps, encoded_pairs(ps).len() + 1int)));
            assert(enc.len() == 1 + encoded_pairs(ps).len() + 1);
        },
    }
}

pub proof fn lemma_parse_items_complete(vs: Seq<BencodeView>, rest: Seq<u8>)
    requires
        forall|i: int| 0 <= i < vs.len() ==> view_wf(#[trigger] vs[i]),
    ensures
        parse_items(encoded_items(vs) + seq![TOK_END] + rest) == Some(
            (vs, encoded_items(vs).len() + 1int),
        ),
    decreases vs, 0int,
{
    let b = encoded_items(vs) + seq![TOK_END] + rest;
    if vs.len() == 0 {
        assert(b[0] == TOK_END);
        assert(parse_items(b) == Some((Seq::<BencodeView>::empty(), 1int)));
        assert(vs =~= Seq::<BencodeView>::empty());
    } else {
        let head = vs[0];
        let enc0 = encoded_elem(head);
        lemma_encoded_head(head);
        assert(encoded_items(vs) == enc0 + encoded_items(vs.skip(1)));
        assert(b =~= enc0 + (encoded_items(vs.skip(1)) + seq![TOK_END] + rest));
        assert(b[0] == enc0[0]);
        assert(b[0] != TOK_END);
        lemma_parse_elem_complete(head, encoded_items(vs.skip(1)) + seq![TOK_END] + rest);
        let n = enc0.len() as int;
        assert(parse_elem(b) == Some((head, n)));
        assert(1 <= n <= b.len());
        assert(b.skip(n) =~= encoded_items(vs.skip(1)) + seq![TOK_END] + rest);
        assert(forall|i: int| 0 <= i < vs.skip(1).len() ==> view_wf(#[trigger] vs.skip(1)[i]));
        lemma_parse_items_complete(vs.skip(1), rest);
        assert(parse_items(b.skip(n)) == Some((vs.skip(1), encoded_items(vs.skip(1)).len() + 1int)));
        assert(seq![head] + vs.skip(1) =~= vs);
        assert(parse_items(b) == Some((vs, n + encoded_items(vs.skip(1)).len() + 1int)));
        assert(encoded_items(vs).len() == n + encoded_items(vs.skip(1)).len());
    }
}

#[verifier::rlimit(50)]
pub proof fn lemma_parse_pairs_complete(ps: Seq<(Seq<u8>, BencodeView)>, rest: Seq<u8>)
    requires
        view_wf(BencodeView::Dict(ps)),
    ensures
        parse_pairs(encoded_pairs(ps) + seq![TOK_END] + rest) == Some(
            (ps, encoded_pairs(ps).len() + 1int),
        ),
    decreases ps, 0int,
{
    let b = encoded_pairs(ps) + seq![TOK_END] + rest;
    if ps.len() == 0 {
        assert(b[0] == TOK_END);
        assert(parse_pairs(b) == Some((Seq::<(Seq<u8>, BencodeView)>::empty(), 1int)));
        assert(ps =~= Seq::<(Seq<u8>, BencodeView)>::empty());
    } else {
        let key = ps[0].0;
        let v = ps[0].1;
        let enck = encoded_str(key);
        let encv = encoded_elem(v);
        assert(encoded_pairs(ps) == enck + encv + encoded_pairs(ps.skip(1)));
        lemma_dec_digits_props(key.len());
        assert(enck[0] == dec_digits(key.len())[0]);
        assert(is_digit(b[0])) by {
            assert(b[0] == enck[0]);
        }
        assert(b[0] != TOK_END && b[0] != TOK_INT && b[0] != TOK_LIST && b[0] != TOK_DICT);
        let rest1 = encv + encoded_pairs(ps.skip(1)) + seq![TOK_END] + rest;
        assert(b =~= enck + rest1);
        lemma_parse_str_complete(key, rest1);
        let n1 = enck.len() as int;
        assert(parse_str(b) == Some((key, n1)));
        assert(1 <= n1 <= b.len());
        let rest2 = encoded_pairs(ps.skip(1)) + seq![TOK_END] + rest;
        assert(b.skip(n1) =~= encv + rest2);
        assert(view_wf(v));
        lemma_parse_elem_complete(v, rest2);
        let n2 = encv.len() as int;
        assert(parse_elem(b.skip(n1)) == Some((v, n2)));
        lemma_encoded_head(v);
        assert(1 <= n2 <= b.len() - n1);
        assert(b.skip(n1 + n2) =~= encoded_pairs(ps.skip(1)) + seq![TOK_END] + rest);
        assert(view_wf(BencodeView::Dict(ps.skip(1)))) by {
            assert(forall|i: int| 0 <= i < ps.skip(1).len() ==> view_wf(
                #[trigger] ps.skip(1)[i].1,
            ));
            assert forall|i: int, j: int| 0 <= i < j < ps.skip(1).len() implies lex_lt(
                #[trigger] ps.skip(1)[i].0,
                #[trigger] ps.skip(1)[j].0,
            ) by {
                assert(ps.skip(1)[i] == ps[i + 1] && ps.skip(1)[j] == ps[j + 1]);
            }
        }
        lemma_parse_pairs_complete(ps.skip(1), rest);
        assert(parse_pairs(b.skip(n1 + n2)) == Some(
            (ps.skip(1), encoded_pairs(ps.skip(1)).len() + 1int),
        ));
        if ps.skip(1).len() > 0 {
            assert(ps.skip(1)[0] == ps[1]);
            assert(lex_lt(key, ps.skip(1)[0].0));
        }
        assert(seq![(key, v)] + ps.skip(1) =~= ps);
        assert(parse_pairs(b) == Some((ps, n1 + n2 + encoded_pairs(ps.skip(1)).len() + 1int)));
        assert(encoded_pairs(ps).len() == n1 + n2 + encoded_pairs(ps.skip(1)).len());
    }
}

// ---------------------------------------------------------------------------
// The round trip
// ---------------------------------------------------------------------------

/// Decoding the canonical encoding of any well-formed value yields exactly
/// that value and consumes exactly its encoding.
pub proof fn lemma_round_trip(v: BencodeView)
    requires
        view_wf(v),
    ensures
        parse_elem(encoded_elem(v)) == Some((v, encoded_elem(v).len() as int)),
{
    lemma_parse_elem_complete(v, Seq::empty());
    assert(encoded_elem(v) + Seq::<u8>::empty() =~= encoded_elem(v));
}

/// The canonical encoding of a well-formed dictionary carries its keys in
/// strictly ascending order: the keys ascend in the value, and decoding
/// the encoding returns exactly those entries in that order.
pub proof fn lemma_encode_canonical(ps: Seq<(Seq<u8>, BencodeView)>)
    requires
        view_wf(BencodeView::Dict(ps)),
    ensures
        keys_ascending(ps),
        parse_elem(encoded_elem(BencodeView::Dict(ps))) == Some(
            (BencodeView::Dict(ps), encoded_elem(BencodeView::Dict(ps)).len() as int),
        ),
{
    lemma_round_trip(BencodeView::Dict(ps));
}

/// Canonical encodings carry their dictionary keys in strictly ascending
/// order, and the parser accepts no other order: parsing any input that
/// succeeds yields dictionaries whose keys ascend.
pub proof fn lemma_canonical_keys(bytes: Seq<u8>)
    ensures
        parse_elem(bytes) matches Some(r) ==> view_wf(r.0),
        parse_elem(bytes) matches Some(r) ==> (r.0 matches BencodeView::Dict(ps)
            ==> keys_ascending(ps)),
{
    lemma_parse_elem_sound(bytes);
}

} // verus!

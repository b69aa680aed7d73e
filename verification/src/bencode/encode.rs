//! The bencode encoder.  It emits exactly the canonical encoding of the
//! model, so together with `laws::lemma_round_trip` a decode of its output
//! returns the value it was given.

use vstd::prelude::*;

use crate::bencode::model::{
    dec_digits, encoded_elem, encoded_items, encoded_pairs, encoded_str, BencodeView, TOK_COLON,
    TOK_DICT, TOK_END, TOK_INT, TOK_LIST, TOK_MINUS, TOK_ZERO,
};
use crate::bencode::{
    bencode_view, bpair_view, lemma_pair_views_of_index, lemma_views_of_index, pair_views_of,
    views_of, Bencode,
};

verus! {

broadcast use vstd::seq::axiom_seq_index_decreases, vstd::std_specs::vec::group_vec_axioms;

proof fn lemma_encoded_items_push(vs: Seq<BencodeView>, v: BencodeView)
    ensures
        encoded_items(vs.push(v)) == encoded_items(vs) + encoded_elem(v),
    decreases vs.len(),
{
    let w = vs.push(v);
    assert(encoded_items(w) == encoded_elem(w[0]) + encoded_items(w.skip(1)));
    if vs.len() == 0 {
        assert(w[0] == v);
        assert(w.skip(1) =~= Seq::<BencodeView>::empty());
        assert(encoded_items(w.skip(1)) == Seq::<u8>::empty());
        assert(encoded_items(w) =~= encoded_items(vs) + encoded_elem(v));
    } else {
        assert(w[0] == vs[0]);
        assert(w.skip(1) =~= vs.skip(1).push(v));
        lemma_encoded_items_push(vs.skip(1), v);
        assert(encoded_items(vs) == encoded_elem(vs[0]) + encoded_items(vs.skip(1)));
        assert(encoded_items(w) =~= encoded_items(vs) + encoded_elem(v));
    }
}

proof fn lemma_encoded_pairs_push(ps: Seq<(Seq<u8>, BencodeView)>, p: (Seq<u8>, BencodeView))
    ensures
        encoded_pairs(ps.push(p)) == encoded_pairs(ps) + encoded_str(p.0) + encoded_elem(p.1),
    decreases ps.len(),
{
    let w = ps.push(p);
    assert(encoded_pairs(w) == encoded_str(w[0].0) + encoded_elem(w[0].1) + encoded_pairs(
        w.skip(1),
    ));
    if ps.len() == 0 {
        assert(w[0] == p);
        assert(w.skip(1) =~= Seq::<(Seq<u8>, BencodeView)>::empty());
        assert(encoded_pairs(w.skip(1)) == Seq::<u8>::empty());
        assert(encoded_pairs(w) =~= encoded_pairs(ps) + encoded_str(p.0) + encoded_elem(p.1));
    } else {
        assert(w[0] == ps[0]);
        assert(w.skip(1) =~= ps.skip(1).push(p));
        lemma_encoded_pairs_push(ps.skip(1), p);
        assert(encoded_pairs(ps) == encoded_str(ps[0].0) + encoded_elem(ps[0].1) + encoded_pairs(
            ps.skip(1),
        ));
        assert(encoded_pairs(w) =~= encoded_pairs(ps) + encoded_str(p.0) + encoded_elem(p.1));
    }
}

/// Appends the canonical decimal digits of `n`.
fn push_decimal(out: &mut Vec<u8>, n: u64)
    ensures
        final(out)@ == old(out)@ + dec_digits(n as nat),
    decreases n,
{
    if n < 10 {
        out.push(TOK_ZERO + n as u8);
        proof {
            assert(final(out)@ =~= old(out)@ + dec_digits(n as nat));
        }
    } else {
        push_decimal(out, n / 10);
        out.push(TOK_ZERO + (n % 10) as u8);
        proof {
            assert(dec_digits(n as nat) == dec_digits((n as nat / 10) as nat).push(
                (TOK_ZERO + n as nat % 10) as u8,
            ));
            assert(final(out)@ =~= old(out)@ + dec_digits(n as nat));
        }
    }
}

/// Appends `bytes` to `out`.
fn push_bytes(out: &mut Vec<u8>, bytes: &Vec<u8>)
    ensures
        final(out)@ == old(out)@ + bytes@,
{
    let mut i: usize = 0;
    while i < bytes.len()
        invariant
            i <= bytes.len(),
            out@ == old(out)@ + bytes@.take(i as int),
        decreases bytes.len() - i,
    {
        out.push(bytes[i]);
        i += 1;
        proof {
            assert(bytes@.take(i as int) =~= bytes@.take(i - 1).push(bytes@[i - 1]));
            assert(out@ =~= old(out)@ + bytes@.take(i as int));
        }
    }
    proof {
        assert(bytes@.take(bytes@.len() as int) =~= bytes@);
    }
}

/// Appends `<len>:<bytes>`, the encoding of a byte-string.
fn push_string(out: &mut Vec<u8>, bytes: &Vec<u8>)
    ensures
        final(out)@ == old(out)@ + encoded_str(bytes@),
{
    push_decimal(out, bytes.len() as u64);
    out.push(TOK_COLON);
    push_bytes(out, bytes);
    proof {
        assert(final(out)@ =~= old(out)@ + encoded_str(bytes@));
    }
}

impl Bencode {
    /// Appends the canonical encoding of this value to `out`.
    pub fn encode_into(&self, out: &mut Vec<u8>)
        ensures
            final(out)@ == old(out)@ + encoded_elem(self@),
        decreases *self,
    {
        match self {
            Bencode::BString(s) => {
                push_string(out, &s.0);
            },
            Bencode::BInt(n) => {
                out.push(TOK_INT);
                let v = n.0;
                if v < 0 {
                    out.push(TOK_MINUS);
                    let mag: u64 = if v == i64::MIN {
                        9223372036854775808
                    } else {
                        (-v) as u64
                    };
                    push_decimal(out, mag);
                } else {
                    push_decimal(out, v as u64);
                }
                out.push(TOK_END);
                proof {
                    assert(final(out)@ =~= old(out)@ + encoded_elem(self@));
                }
            },
            Bencode::BList(l) => {
                out.push(TOK_LIST);
                let ghost vs = views_of(l.0@);
                let mut i: usize = 0;
                #[verifier::loop_isolation(false)]
                while i < l.0.len()
                    invariant
                        i <= l.0.len(),
                        vs == views_of(l.0@),
                        out@ == old(out)@ + seq![TOK_LIST] + encoded_items(vs.take(i as int)),
                    decreases l.0.len() - i,
                {
                    proof {
                        lemma_views_of_index(l.0@, i as int);
                        assert(decreases_to!(l.0@ => l.0@[i as int]));
                        assert(decreases_to!(l.0 => l.0@));
                        assert(*self == Bencode::BList(*l));
                        assert(decreases_to!(Bencode::BList(*l) => *l));
                        assert(decreases_to!(*l => l.0));
                        assert(decreases_to!(*self => l.0));
                        assert(decreases_to!(*self => l.0@[i as int]));
                    }
                    let ghost before = out@;
                    l.0[i].encode_into(out);
                    i += 1;
                    proof {
                        assert(vs.take(i as int) =~= vs.take(i - 1).push(vs[i - 1]));
                        lemma_encoded_items_push(vs.take(i - 1), vs[i - 1]);
                        assert(out@ =~= old(out)@ + seq![TOK_LIST] + encoded_items(
                            vs.take(i as int),
                        ));
                    }
                }
                out.push(TOK_END);
                proof {
                    lemma_views_of_len_local(l.0@);
                    assert(vs.take(vs.len() as int) =~= vs);
                    assert(final(out)@ =~= old(out)@ + encoded_elem(self@));
                }
            },
            Bencode::BDict(d) => {
                out.push(TOK_DICT);
                let ghost ps = pair_views_of(d.pairs@);
                let mut i: usize = 0;
                #[verifier::loop_isolation(false)]
                while i < d.pairs.len()
                    invariant
                        i <= d.pairs.len(),
                        ps == pair_views_of(d.pairs@),
                        out@ == old(out)@ + seq![TOK_DICT] + encoded_pairs(ps.take(i as int)),
                    decreases d.pairs.len() - i,
                {
                    proof {
                        lemma_pair_views_of_index(d.pairs@, i as int);
                        assert(decreases_to!(d.pairs@ => d.pairs@[i as int]));
                        assert(decreases_to!(d.pairs => d.pairs@));
                        assert(*self == Bencode::BDict(*d));
                        assert(decreases_to!(Bencode::BDict(*d) => *d));
                        assert(decreases_to!(*d => d.pairs));
                        assert(decreases_to!(*self => d.pairs));
                        assert(decreases_to!(d.pairs@[i as int] => d.pairs@[i as int].value));
                        assert(decreases_to!(*self => d.pairs@[i as int].value));
                    }
                    push_string(out, &d.pairs[i].key.0);
                    d.pairs[i].value.encode_into(out);
                    i += 1;
                    proof {
                        assert(ps.take(i as int) =~= ps.take(i - 1).push(ps[i - 1]));
                        lemma_encoded_pairs_push(ps.take(i - 1), ps[i - 1]);
                        assert(ps[i - 1] == bpair_view(d.pairs@[i - 1]));
                        assert(out@ =~= old(out)@ + seq![TOK_DICT] + encoded_pairs(
                            ps.take(i as int),
                        ));
                    }
                }
                out.push(TOK_END);
                proof {
                    lemma_pair_views_of_len_local(d.pairs@);
                    assert(ps.take(ps.len() as int) =~= ps);
                    assert(final(out)@ =~= old(out)@ + encoded_elem(self@));
                }
            },
        }
    }

    /// The canonical encoding of this value.
    pub fn encode(&self) -> (r: Vec<u8>)
        ensures
            r@ == encoded_elem(self@),
    {
        let mut out: Vec<u8> = Vec::new();
        self.encode_into(&mut out);
        proof {
            assert(Seq::<u8>::empty() + encoded_elem(self@) =~= encoded_elem(self@));
        }
        out
    }
}

proof fn lemma_views_of_len_local(elems: Seq<Bencode>)
    ensures
        views_of(elems).len() == elems.len(),
    decreases elems.len(),
{
    if elems.len() > 0 {
        lemma_views_of_len_local(elems.drop_last());
    }
}

proof fn lemma_pair_views_of_len_local(ps: Seq<crate::bencode::BPair>)
    ensures
        pair_views_of(ps).len() == ps.len(),
    decreases ps.len(),
{
    if ps.len() > 0 {
        lemma_pair_views_of_len_local(ps.drop_last());
    }
}

} // verus!

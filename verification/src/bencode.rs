//! The bencode value types and their codec.

pub mod decode;
pub mod encode;
pub mod laws;
pub mod model;

use vstd::prelude::*;

use crate::bencode::model::{keys_ascending, pairs_contains, pairs_get, parse_elem, BencodeView};
use crate::hashing::sha1_of;
use crate::bencode::model::lex_lt;
use crate::bencode::laws::lemma_lex_irrefl;
use crate::convert::TryFrom;
use crate::text::string_from_utf8;
use vstd::string::StringSliceAdditionalSpecFns;

verus! {

broadcast use vstd::seq::axiom_seq_index_decreases, vstd::std_specs::vec::group_vec_axioms;

/// A bencoded byte-string.  Not required to be UTF-8.
#[derive(Debug, PartialEq, Eq, Clone)]
pub struct BString(pub Vec<u8>);

/// A bencoded signed 64-bit integer.
#[derive(Debug, PartialEq, Eq, Clone)]
pub struct BInt(pub i64);

/// A bencoded sequence of values.
#[derive(Debug, PartialEq, Eq)]
pub struct BList(pub Vec<Bencode>);

/// A bencoded dictionary: key-ascending entries, plus the SHA-1 digest of
/// the byte span the dictionary was parsed from (the digest a tracker
/// expects for an info dictionary).
#[derive(Debug, PartialEq, Eq)]
pub struct BPair {
    pub key: BString,
    pub value: Bencode,
}

#[derive(Debug, PartialEq, Eq)]
pub struct BDict {
    pub pairs: Vec<BPair>,
    pub hash: Vec<u8>,
}

/// Why a decode failed, and where.
#[derive(Debug)]
pub struct DecodeError {
    pub position: Option<usize>,
    pub kind: DecodeErrorKind,
}

/// The ways a bencoded document can be rejected.
#[derive(Debug)]
pub enum DecodeErrorKind {
    ExpectedByte(char),
    EndOfStream,
    InvalidString,
    UnknownType,
    IntNegativeZero,
    IntOverflow,
    DuplicateKey,
    UnsortedKeys,
    TrailingBytes,
    Utf8,
    ConversionError,
    MissingField(String),
}

/// A bencoded value.
#[derive(Debug, PartialEq, Eq)]
pub enum Bencode {
    BString(BString),
    BInt(BInt),
    BList(BList),
    BDict(BDict),
}

impl View for BString {
    type V = Seq<u8>;

    open spec fn view(&self) -> Seq<u8> {
        self.0@
    }
}

impl View for BInt {
    type V = int;

    open spec fn view(&self) -> int {
        self.0 as int
    }
}

/// The abstract value of one dictionary entry.
pub open spec fn bpair_view(p: BPair) -> (Seq<u8>, BencodeView)
    decreases p,
{
    (p.key@, bencode_view(p.value))
}

/// The abstract values of a sequence of elements.
pub open spec fn views_of(elems: Seq<Bencode>) -> Seq<BencodeView>
    decreases elems,
{
    if elems.len() == 0 {
        Seq::empty()
    } else {
        views_of(elems.drop_last()).push(bencode_view(elems.last()))
    }
}

/// The abstract values of a sequence of dictionary entries.
pub open spec fn pair_views_of(ps: Seq<BPair>) -> Seq<(Seq<u8>, BencodeView)>
    decreases ps,
{
    if ps.len() == 0 {
        Seq::empty()
    } else {
        pair_views_of(ps.drop_last()).push(bpair_view(ps.last()))
    }
}

pub broadcast proof fn lemma_views_of_len(elems: Seq<Bencode>)
    ensures
        #[trigger] views_of(elems).len() == elems.len(),
    decreases elems.len(),
{
    if elems.len() > 0 {
        lemma_views_of_len(elems.drop_last());
    }
}

pub broadcast proof fn lemma_views_of_index(elems: Seq<Bencode>, i: int)
    requires
        0 <= i < elems.len(),
    ensures
        views_of(elems).len() == elems.len(),
        #[trigger] views_of(elems)[i] == bencode_view(elems[i]),
    decreases elems.len(),
{
    lemma_views_of_len(elems);
    if elems.len() > 0 && i < elems.len() - 1 {
        lemma_views_of_index(elems.drop_last(), i);
    }
}

pub broadcast proof fn lemma_pair_views_of_len(ps: Seq<BPair>)
    ensures
        #[trigger] pair_views_of(ps).len() == ps.len(),
    decreases ps.len(),
{
    if ps.len() > 0 {
        lemma_pair_views_of_len(ps.drop_last());
    }
}

pub broadcast proof fn lemma_pair_views_of_index(ps: Seq<BPair>, i: int)
    requires
        0 <= i < ps.len(),
    ensures
        pair_views_of(ps).len() == ps.len(),
        #[trigger] pair_views_of(ps)[i] == bpair_view(ps[i]),
    decreases ps.len(),
{
    lemma_pair_views_of_len(ps);
    if ps.len() > 0 && i < ps.len() - 1 {
        lemma_pair_views_of_index(ps.drop_last(), i);
    }
}

/// Whether one dictionary entry's value is well formed.
pub open spec fn bpair_wf(p: BPair) -> bool
    decreases p,
{
    bencode_wf(p.value)
}

/// The abstract value of a `Bencode` tree.
pub open spec fn bencode_view(b: Bencode) -> BencodeView
    decreases b,
{
    match b {
        Bencode::BString(s) => BencodeView::Str(s@),
        Bencode::BInt(n) => BencodeView::Int(n@),
        Bencode::BList(l) => BencodeView::List(views_of(l.0@)),
        Bencode::BDict(d) => BencodeView::Dict(pair_views_of(d.pairs@)),
    }
}

impl View for Bencode {
    type V = BencodeView;

    open spec fn view(&self) -> BencodeView {
        bencode_view(*self)
    }
}

impl DeepView for Bencode {
    type V = BencodeView;

    open spec fn deep_view(&self) -> BencodeView {
        bencode_view(*self)
    }
}

impl DeepView for BString {
    type V = Seq<u8>;

    open spec fn deep_view(&self) -> Seq<u8> {
        self.0@
    }
}

impl DeepView for BInt {
    type V = int;

    open spec fn deep_view(&self) -> int {
        self.0 as int
    }
}

impl DeepView for BList {
    type V = Seq<BencodeView>;

    open spec fn deep_view(&self) -> Seq<BencodeView> {
        views_of(self.0@)
    }
}

impl DeepView for BDict {
    type V = Seq<(Seq<u8>, BencodeView)>;

    open spec fn deep_view(&self) -> Seq<(Seq<u8>, BencodeView)> {
        pair_views_of(self.pairs@)
    }
}

impl View for BList {
    type V = Seq<BencodeView>;

    open spec fn view(&self) -> Seq<BencodeView> {
        views_of(self.0@)
    }
}

impl View for BDict {
    type V = Seq<(Seq<u8>, BencodeView)>;

    open spec fn view(&self) -> Seq<(Seq<u8>, BencodeView)> {
        pair_views_of(self.pairs@)
    }
}

/// The dictionary's digest is the SHA-1 of the exact byte span, of some
/// document, that decodes to these entries: what a tracker expects for an
/// info dictionary.
pub open spec fn dict_hash_wf(d: BDict) -> bool {
    exists|bs: Seq<u8>, n: int|
        parse_elem(bs) == Some((BencodeView::Dict(pair_views_of(d.pairs@)), n)) && 0 <= n
            <= bs.len() && d.hash@ == #[trigger] sha1_of(bs.take(n))
}

/// Keeping the entries and the digest keeps `dict_hash_wf`.
pub proof fn lemma_dict_hash_wf_transfer(a: BDict, b: BDict)
    requires
        dict_hash_wf(a),
        pair_views_of(b.pairs@) == pair_views_of(a.pairs@),
        b.hash@ == a.hash@,
    ensures
        dict_hash_wf(b),
{
    let (bs, n) = choose|bs: Seq<u8>, n: int|
        parse_elem(bs) == Some((BencodeView::Dict(pair_views_of(a.pairs@)), n)) && 0 <= n
            <= bs.len() && a.hash@ == #[trigger] sha1_of(bs.take(n));
    assert(b.hash@ == sha1_of(bs.take(n)));
}

/// Every dictionary in the tree has ascending keys and carries the digest
/// of the byte span it was decoded from.  The decoder establishes this for
/// every value it returns.
pub open spec fn bencode_wf(b: Bencode) -> bool
    decreases b,
{
    match b {
        Bencode::BString(_) => true,
        Bencode::BInt(_) => true,
        Bencode::BList(l) => forall|i: int|
            0 <= i < l.0@.len() ==> bencode_wf(#[trigger] l.0@[i]),
        Bencode::BDict(d) => {
            &&& keys_ascending(d@)
            &&& dict_hash_wf(d)
            &&& forall|i: int| 0 <= i < d.pairs@.len() ==> bpair_wf(#[trigger] d.pairs@[i])
        },
    }
}

impl BString {
    pub fn new(bytes: &[u8]) -> (r: BString)
        ensures
            r@ == bytes@,
    {
        BString(vstd::slice::slice_to_vec(bytes))
    }

    pub fn to_bytes(&self) -> (r: Vec<u8>)
        ensures
            r@ == self@,
    {
        let mut out: Vec<u8> = Vec::new();
        let mut i: usize = 0;
        while i < self.0.len()
            invariant
                i <= self.0.len(),
                out@ == self.0@.take(i as int),
            decreases self.0.len() - i,
        {
            out.push(self.0[i]);
            i += 1;
            proof {
                assert(self.0@.take(i as int) =~= self.0@.take(i - 1).push(self.0@[i - 1]));
            }
        }
        proof {
            assert(self.0@.take(self.0@.len() as int) =~= self.0@);
        }
        out
    }
}

impl BString {
    pub fn from_str(s: &str) -> (r: BString)
        ensures
            r@ == s.spec_bytes(),
    {
        BString(vstd::slice::slice_to_vec(s.as_bytes()))
    }

    /// The bytes as a UTF-8 string, where they are one.
    pub fn to_string(&self) -> (r: Result<String, DecodeError>)
        ensures
            r matches Ok(st) ==> vstd::utf8::encode_utf8(st@) == self@ && vstd::utf8::valid_utf8(
                self@,
            ),
            r is Err ==> !vstd::utf8::valid_utf8(self@),
    {
        match string_from_utf8(self.to_bytes()) {
            Some(st) => Ok(st),
            None => Err(DecodeError { position: None, kind: DecodeErrorKind::Utf8 }),
        }
    }
}

impl BInt {
    pub fn new(number: i64) -> (r: BInt)
        ensures
            r@ == number as int,
    {
        BInt(number)
    }

    pub fn to_i64(&self) -> (r: i64)
        ensures
            r as int == self@,
    {
        self.0
    }
}

impl BList {
    pub fn new() -> (r: BList)
        ensures
            r@ == Seq::<BencodeView>::empty(),
    {
        let vector: Vec<Bencode> = Vec::new();
        BList(vector)
    }

    pub fn from(src_list: Vec<Bencode>) -> (r: BList)
        ensures
            r.0@ == src_list@,
    {
        BList(src_list)
    }

    pub fn push(&mut self, value: Bencode)
        ensures
            final(self)@ == old(self)@.push(value@),
            final(self).0@ == old(self).0@.push(value),
    {
        self.0.push(value);
        proof {
            assert(self.0@.drop_last() =~= old(self).0@);
            assert(self.0@.last() == value);
            assert(self@ =~= old(self)@.push(value@));
        }
    }

    pub fn list(&self) -> (r: &Vec<Bencode>)
        ensures
            r@ == self.0@,
    {
        &self.0
    }
}

impl BDict {
    /// The entries, in ascending key order.
    pub fn entries(&self) -> (r: &Vec<BPair>)
        ensures
            r@ == self.pairs@,
    {
        &self.pairs
    }

    /// The SHA-1 digest of the byte span this dictionary was parsed from.
    pub fn hash(&self) -> (r: &Vec<u8>)
        ensures
            r@ == self.hash@,
            bencode_wf(Bencode::BDict(*self)) ==> dict_hash_wf(*self),
    {
        &self.hash
    }

    /// Assembles a dictionary from entries and a digest.  Meant for the
    /// decoder; the entries must be in ascending key order for the result
    /// to be well formed.
    pub(crate) fn from_parts(pairs: Vec<BPair>, hash: Vec<u8>) -> (r: BDict)
        ensures
            r.pairs@ == pairs@,
            r.hash@ == hash@,
    {
        BDict { pairs, hash }
    }
}

impl Bencode {
    /// A structurally fresh copy with the same abstract value.
    pub fn duplicate(&self) -> (r: Bencode)
        ensures
            r@ == self@,
            bencode_wf(r) == bencode_wf(*self),
        decreases *self,
    {
        match self {
            Bencode::BString(s) => Bencode::BString(BString(vstd::slice::slice_to_vec(
                s.0.as_slice(),
            ))),
            Bencode::BInt(n) => Bencode::BInt(BInt(n.0)),
            Bencode::BList(l) => {
                let mut items: Vec<Bencode> = Vec::new();
                let mut i: usize = 0;
                #[verifier::loop_isolation(false)]
                while i < l.0.len()
                    invariant
                        i == items@.len() <= l.0@.len(),
                        forall|j: int| 0 <= j < i ==> bencode_view(#[trigger] items@[j])
                            == bencode_view(l.0@[j]),
                        forall|j: int| 0 <= j < i ==> bencode_wf(#[trigger] items@[j])
                            == bencode_wf(l.0@[j]),
                    decreases l.0.len() - i,
                {
                    proof {
                        assert(decreases_to!(l.0@ => l.0@[i as int]));
                        assert(decreases_to!(l.0 => l.0@));
                        assert(*self == Bencode::BList(*l));
                        assert(decreases_to!(Bencode::BList(*l) => *l));
                        assert(decreases_to!(*self => l.0@[i as int]));
                    }
                    let copy = l.0[i].duplicate();
                    items.push(copy);
                    i += 1;
                }
                let ghost items_s = items@;
                let r = Bencode::BList(BList(items));
                proof {
                    assert forall|j: int| 0 <= j < items_s.len() implies views_of(items_s)[j]
                        == views_of(l.0@)[j] by {
                        lemma_views_of_index(items_s, j);
                        lemma_views_of_index(l.0@, j);
                    }
                    lemma_views_of_len(items_s);
                    lemma_views_of_len(l.0@);
                    assert(views_of(items_s) =~= views_of(l.0@));
                    assert(items_s.len() == l.0@.len());
                    if bencode_wf(*self) {
                        assert forall|j: int| 0 <= j < items_s.len() implies bencode_wf(
                            #[trigger] items_s[j],
                        ) by {
                            assert(bencode_wf(l.0@[j]));
                        }
                        assert(bencode_wf(r));
                    }
                    if bencode_wf(r) {
                        let l2 = (match r {
                            Bencode::BList(ref x) => *x,
                            _ => arbitrary(),
                        });
                        assert(l2.0@ == items_s);
                        assert forall|j: int| 0 <= j < l.0@.len() implies bencode_wf(
                            #[trigger] l.0@[j],
                        ) by {
                            assert(bencode_wf(l2.0@[j]));
                            assert(l2.0@[j] == items_s[j]);
                        }
                        assert(bencode_wf(*self));
                    }
                }
                r
            },
            Bencode::BDict(d) => {
                let mut pairs: Vec<BPair> = Vec::new();
                let mut i: usize = 0;
                #[verifier::loop_isolation(false)]
                while i < d.pairs.len()
                    invariant
                        i == pairs@.len() <= d.pairs@.len(),
                        forall|j: int| 0 <= j < i ==> bpair_view(#[trigger] pairs@[j])
                            == bpair_view(d.pairs@[j]),
                        forall|j: int| 0 <= j < i ==> bpair_wf(#[trigger] pairs@[j]) == bpair_wf(
                            d.pairs@[j],
                        ),
                    decreases d.pairs.len() - i,
                {
                    proof {
                        assert(decreases_to!(d.pairs@ => d.pairs@[i as int]));
                        assert(decreases_to!(d.pairs => d.pairs@));
                        assert(*self == Bencode::BDict(*d));
                        assert(decreases_to!(Bencode::BDict(*d) => *d));
                        assert(decreases_to!(*d => d.pairs));
                        assert(decreases_to!(d.pairs@[i as int] => d.pairs@[i as int].value));
                        assert(decreases_to!(*self => d.pairs@[i as int].value));
                    }
                    let key_copy = BString(vstd::slice::slice_to_vec(
                        d.pairs[i].key.0.as_slice(),
                    ));
                    let value_copy = d.pairs[i].value.duplicate();
                    pairs.push(BPair { key: key_copy, value: value_copy });
                    i += 1;
                }
                let hash_copy = vstd::slice::slice_to_vec(d.hash.as_slice());
                let ghost pairs_s = pairs@;
                let r = Bencode::BDict(BDict { pairs, hash: hash_copy });
                proof {
                    assert forall|j: int| 0 <= j < pairs_s.len() implies pair_views_of(pairs_s)[j]
                        == pair_views_of(d.pairs@)[j] by {
                        lemma_pair_views_of_index(pairs_s, j);
                        lemma_pair_views_of_index(d.pairs@, j);
                    }
                    lemma_pair_views_of_len(pairs_s);
                    lemma_pair_views_of_len(d.pairs@);
                    assert(pair_views_of(pairs_s) =~= pair_views_of(d.pairs@));
                    assert(pairs_s.len() == d.pairs@.len());
                    if bencode_wf(*self) {
                        assert forall|j: int| 0 <= j < pairs_s.len() implies bpair_wf(
                            #[trigger] pairs_s[j],
                        ) by {
                            assert(bpair_wf(d.pairs@[j]));
                        }
                        assert(bencode_wf(r));
                    }
                    if bencode_wf(r) {
                        let d2 = (match r {
                            Bencode::BDict(ref x) => *x,
                            _ => arbitrary(),
                        });
                        assert(d2.pairs@ == pairs_s);
                        assert forall|j: int| 0 <= j < d.pairs@.len() implies bpair_wf(
                            #[trigger] d.pairs@[j],
                        ) by {
                            assert(bpair_wf(d2.pairs@[j]));
                            assert(d2.pairs@[j] == pairs_s[j]);
                        }
                        assert(bencode_wf(*self));
                    }
                }
                r
            },
        }
    }
}

impl BDict {
    /// A structurally fresh copy with the same entries and digest.
    pub fn duplicate(&self) -> (r: BDict)
        ensures
            r@ == self@,
            r.hash@ == self.hash@,
            bencode_wf(Bencode::BDict(r)) == bencode_wf(Bencode::BDict(*self)),
    {
        let whole = Bencode::BDict(BDict {
            pairs: copy_pairs(&self.pairs),
            hash: vstd::slice::slice_to_vec(self.hash.as_slice()),
        });
        let ghost original = Bencode::BDict(*self);
        proof {
            let d2 = (match whole {
                Bencode::BDict(ref x) => *x,
                _ => arbitrary(),
            });
            assert forall|j: int| 0 <= j < d2.pairs@.len() implies pair_views_of(d2.pairs@)[j]
                == pair_views_of(self.pairs@)[j] by {
                lemma_pair_views_of_index(d2.pairs@, j);
                lemma_pair_views_of_index(self.pairs@, j);
            }
            lemma_pair_views_of_len(d2.pairs@);
            lemma_pair_views_of_len(self.pairs@);
            assert(pair_views_of(d2.pairs@) =~= pair_views_of(self.pairs@));
            if bencode_wf(original) {
                assert forall|j: int| 0 <= j < d2.pairs@.len() implies bpair_wf(
                    #[trigger] d2.pairs@[j],
                ) by {
                    assert(bpair_wf(self.pairs@[j]));
                }
                assert(bencode_wf(whole));
            }
            if bencode_wf(whole) {
                assert forall|j: int| 0 <= j < self.pairs@.len() implies bpair_wf(
                    #[trigger] self.pairs@[j],
                ) by {
                    assert(bpair_wf(d2.pairs@[j]));
                }
                assert(bencode_wf(original));
            }
        }
        match whole {
            Bencode::BDict(inner) => inner,
            _ => BDict { pairs: Vec::new(), hash: Vec::new() },
        }
    }

    /// Looks a key up by its UTF-8 bytes.
    pub fn get<'b>(&'b self, key: &str) -> (r: Option<&'b Bencode>)
        ensures
            (r is Some) == pairs_contains(self@, key.spec_bytes()),
            match r {
                Some(v) => pairs_get(self@, key.spec_bytes()) == Some(v@),
                None => pairs_get(self@, key.spec_bytes()) is None,
            },
            bencode_wf(Bencode::BDict(*self)) ==> (r matches Some(v) ==> bencode_wf(*v)),
    {
        let kb = key.as_bytes();
        let ghost kview = key.spec_bytes();
        proof {
            lemma_pair_views_of_len(self.pairs@);
            assert(self@.skip(0) =~= self@);
        }
        let mut i: usize = 0;
        #[verifier::loop_isolation(false)]
        while i < self.pairs.len()
            invariant
                i <= self.pairs@.len(),
                self@.len() == self.pairs@.len(),
                pairs_get(self@, kview) == pairs_get(self@.skip(i as int), kview),
            decreases self.pairs@.len() - i,
        {
            proof {
                lemma_pair_views_of_index(self.pairs@, i as int);
                assert(self@.skip(i as int)[0] == self@[i as int]);
            }
            if crate::bencode::decode::byte_seq_cmp(self.pairs[i].key.0.as_slice(), kb) == 0 {
                let r = Some(&self.pairs[i].value);
                proof {
                    assert(self@[i as int] == (kview, self.pairs@[i as int].value@));
                    assert(pairs_get(self@, kview) == Some(self.pairs@[i as int].value@));
                    if bencode_wf(Bencode::BDict(*self)) {
                        assert(bpair_wf(self.pairs@[i as int]));
                    }
                }
                return r;
            }
            proof {
                assert(self@[i as int].0 != kview);
                assert(self@.skip(i as int).skip(1) =~= self@.skip(i + 1));
            }
            i += 1;
        }
        proof {
            assert(self@.skip(self.pairs@.len() as int).len() == 0);
        }
        None
    }

    /// Looks a key up and converts a copy of the value: it yields a value
    /// exactly when the key is present and its value converts, and what it
    /// yields is that value, converted.
    pub fn get_copy<A: TryFrom<Bencode>>(&self, key: &str) -> (r: Option<A>)
        ensures
            (r is Some) == (pairs_get(self@, key.spec_bytes()) matches Some(v)
                && A::can_convert(v)),
            r matches Some(a) ==> (pairs_get(self@, key.spec_bytes()) matches Some(v)
                && a.deep_view() == A::convert_spec(v)),
    {
        match self.get(key) {
            Some(element) => match A::convert_from(element.duplicate()) {
                Ok(converted) => Some(converted),
                Err(_) => None,
            },
            None => None,
        }
    }
}

impl TryFrom<Bencode> for BInt {
    type Err = DecodeError;

    open spec fn can_convert(v: BencodeView) -> bool {
        v is Int
    }

    open spec fn convert_spec(v: BencodeView) -> int {
        match v {
            BencodeView::Int(n) => n,
            _ => vstd::pervasive::arbitrary(),
        }
    }

    fn convert_from(t: Bencode) -> (r: Result<Self, Self::Err>)
        ensures
            r matches Ok(v) ==> t == Bencode::BInt(v),
    {
        match t {
            Bencode::BInt(bint) => Ok(bint),
            _ => Err(DecodeError { position: None, kind: DecodeErrorKind::ConversionError }),
        }
    }
}

impl TryFrom<Bencode> for BString {
    type Err = DecodeError;

    open spec fn can_convert(v: BencodeView) -> bool {
        v is Str
    }

    open spec fn convert_spec(v: BencodeView) -> Seq<u8> {
        match v {
            BencodeView::Str(b) => b,
            _ => vstd::pervasive::arbitrary(),
        }
    }

    fn convert_from(t: Bencode) -> (r: Result<Self, Self::Err>)
        ensures
            r matches Ok(v) ==> t == Bencode::BString(v),
    {
        match t {
            Bencode::BString(belement) => Ok(belement),
            _ => Err(DecodeError { position: None, kind: DecodeErrorKind::ConversionError }),
        }
    }
}

impl TryFrom<Bencode> for BList {
    type Err = DecodeError;

    open spec fn can_convert(v: BencodeView) -> bool {
        v is List
    }

    open spec fn convert_spec(v: BencodeView) -> Seq<BencodeView> {
        match v {
            BencodeView::List(vs) => vs,
            _ => vstd::pervasive::arbitrary(),
        }
    }

    fn convert_from(t: Bencode) -> (r: Result<Self, Self::Err>)
        ensures
            r matches Ok(v) ==> t == Bencode::BList(v),
    {
        match t {
            Bencode::BList(belement) => Ok(belement),
            _ => Err(DecodeError { position: None, kind: DecodeErrorKind::ConversionError }),
        }
    }
}

impl TryFrom<Bencode> for BDict {
    type Err = DecodeError;

    open spec fn can_convert(v: BencodeView) -> bool {
        v is Dict
    }

    open spec fn convert_spec(v: BencodeView) -> Seq<(Seq<u8>, BencodeView)> {
        match v {
            BencodeView::Dict(ps) => ps,
            _ => vstd::pervasive::arbitrary(),
        }
    }

    fn convert_from(t: Bencode) -> (r: Result<Self, Self::Err>)
        ensures
            r matches Ok(v) ==> t == Bencode::BDict(v),
    {
        match t {
            Bencode::BDict(belement) => Ok(belement),
            _ => Err(DecodeError { position: None, kind: DecodeErrorKind::ConversionError }),
        }
    }
}

impl TryFrom<Bencode> for String {
    type Err = DecodeError;

    open spec fn can_convert(v: BencodeView) -> bool {
        v matches BencodeView::Str(b) && vstd::utf8::valid_utf8(b)
    }

    open spec fn convert_spec(v: BencodeView) -> Seq<char> {
        match v {
            BencodeView::Str(b) => vstd::utf8::decode_utf8(b),
            _ => vstd::pervasive::arbitrary(),
        }
    }

    fn convert_from(t: Bencode) -> (r: Result<Self, Self::Err>)
        ensures
            r matches Ok(st) ==> (t matches Bencode::BString(s) && vstd::utf8::encode_utf8(st@)
                == s@),
    {
        match t {
            Bencode::BString(belement) => {
                let r = belement.to_string();
                proof {
                    if r is Ok {
                        let st = (match r {
                            Ok(ref st) => st@,
                            _ => arbitrary(),
                        });
                        vstd::utf8::encode_utf8_decode_utf8(st);
                    }
                }
                r
            },
            _ => Err(DecodeError { position: None, kind: DecodeErrorKind::ConversionError }),
        }
    }
}

impl<A: TryFrom<Bencode>> TryFrom<Bencode> for Vec<A> {
    type Err = DecodeError;

    open spec fn can_convert(v: BencodeView) -> bool {
        v matches BencodeView::List(vs) && forall|i: int|
            0 <= i < vs.len() ==> A::can_convert(#[trigger] vs[i])
    }

    open spec fn convert_spec(v: BencodeView) -> Seq<<A as DeepView>::V> {
        match v {
            BencodeView::List(vs) => Seq::new(vs.len(), |i: int| A::convert_spec(vs[i])),
            _ => vstd::pervasive::arbitrary(),
        }
    }

    fn convert_from(t: Bencode) -> (r: Result<Self, Self::Err>) {
        let ghost tview = t@;
        let mut result: Vec<A> = Vec::new();
        match t {
            Bencode::BList(blist) => {
                let ghost elems = blist.0@;
                let ghost vs = views_of(elems);
                proof {
                    lemma_views_of_len(elems);
                    assert(tview == BencodeView::List(vs));
                }
                let mut remaining = blist.0;
                #[verifier::loop_isolation(false)]
                while remaining.len() > 0
                    invariant
                        remaining@.len() <= elems.len(),
                        remaining@ == elems.skip(elems.len() - remaining@.len()),
                        result@.len() == elems.len() - remaining@.len(),
                        forall|j: int| 0 <= j < elems.len() - remaining@.len() ==> A::can_convert(
                            #[trigger] vs[j],
                        ),
                        forall|j: int|
                            0 <= j < result@.len() ==> (#[trigger] result@[j]).deep_view()
                                == A::convert_spec(vs[j]),
                    decreases remaining@.len(),
                {
                    let ghost done = elems.len() - remaining@.len();
                    let item = remaining.remove(0);
                    proof {
                        assert(item == elems[done as int]);
                        lemma_views_of_index(elems, done as int);
                        assert(item@ == vs[done as int]);
                        assert(remaining@ =~= elems.skip(elems.len() - remaining@.len()));
                    }
                    match A::convert_from(item) {
                        Ok(item_a) => {
                            result.push(item_a);
                        },
                        Err(_) => {
                            proof {
                                assert(!A::can_convert(vs[done as int]));
                                assert(Self::can_convert(tview) ==> (forall|j: int|
                                    0 <= j < vs.len() ==> A::can_convert(#[trigger] vs[j])))
                                    by {
                                    if Self::can_convert(tview) {
                                        assert(tview matches BencodeView::List(vs2) && vs2 == vs);
                                    }
                                };
                                assert(!Self::can_convert(tview));
                            }
                            return Err(DecodeError {
                                position: None,
                                kind: DecodeErrorKind::ConversionError,
                            });
                        },
                    }
                }
                proof {
                    assert(forall|j: int| 0 <= j < vs.len() ==> A::can_convert(
                        #[trigger] vs[j],
                    ));
                    assert(result.deep_view() =~= Seq::new(
                        vs.len(),
                        |i: int| A::convert_spec(vs[i]),
                    ));
                }
                Ok(result)
            },
            _ => Err(DecodeError { position: None, kind: DecodeErrorKind::ConversionError }),
        }
    }
}

/// Fresh copies of dictionary entries, views and well-formedness kept.
fn copy_pairs(pairs: &Vec<BPair>) -> (r: Vec<BPair>)
    ensures
        r@.len() == pairs@.len(),
        forall|j: int| 0 <= j < pairs@.len() ==> bpair_view(#[trigger] r@[j]) == bpair_view(
            pairs@[j],
        ),
        forall|j: int| 0 <= j < pairs@.len() ==> bpair_wf(#[trigger] r@[j]) == bpair_wf(
            pairs@[j],
        ),
{
    let mut out: Vec<BPair> = Vec::new();
    let mut i: usize = 0;
    while i < pairs.len()
        invariant
            i == out@.len() <= pairs@.len(),
            forall|j: int| 0 <= j < i ==> bpair_view(#[trigger] out@[j]) == bpair_view(
                pairs@[j],
            ),
            forall|j: int| 0 <= j < i ==> bpair_wf(#[trigger] out@[j]) == bpair_wf(pairs@[j]),
        decreases pairs@.len() - i,
    {
        let key_copy = BString(vstd::slice::slice_to_vec(pairs[i].key.0.as_slice()));
        let value_copy = pairs[i].value.duplicate();
        out.push(BPair { key: key_copy, value: value_copy });
        i += 1;
    }
    out
}

} // verus!

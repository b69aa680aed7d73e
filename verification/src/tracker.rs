//! The tracker dialogue: building the announce query from current state
//! and reading the bencoded response back into peers and intervals.

use vstd::prelude::*;

use crate::bencode::decode::belement_decode;
use crate::bencode::model::{pairs_get, parse_elem, BencodeView};
use crate::bencode::{BDict, Bencode, DecodeError, DecodeErrorKind};
use crate::metainfo::{str_field_bytes, str_field_ok, SHA1Hash20b};
use crate::text::string_push;
use vstd::slice::slice_index_get;
use vstd::string::StringSliceAdditionalSpecFns;

verus! {

/// What the client tells the tracker.
pub struct TrackerReq {
    pub info_hash: SHA1Hash20b,
    pub peer_id: SHA1Hash20b,
    pub port: u32,
    pub uploaded: u64,
    pub left: u64,
    pub compact: bool,
    pub no_peer_id: bool,
    pub event: Option<TrackerEvent>,
    pub ip: Option<String>,
    pub numwant: Option<u32>,
    pub key: Option<String>,
    pub trackerid: Option<String>,
}

pub enum TrackerEvent {
    Started,
    Stopped,
    Completed,
}

/// The event's name on the wire.
pub open spec fn event_name(e: TrackerEvent) -> Seq<char> {
    match e {
        TrackerEvent::Started => "started"@,
        TrackerEvent::Stopped => "stopped"@,
        TrackerEvent::Completed => "completed"@,
    }
}

impl TrackerEvent {
    pub fn to_string(&self) -> (r: String)
        ensures
            r@ == event_name(*self),
    {
        match self {
            TrackerEvent::Started => "started".to_owned(),
            TrackerEvent::Stopped => "stopped".to_owned(),
            TrackerEvent::Completed => "completed".to_owned(),
        }
    }
}

// ---------------------------------------------------------------------------
// Percent-encoding
// ---------------------------------------------------------------------------

/// A byte that passes through percent-encoding unchanged: letters, digits,
/// and `.-_~`.
pub open spec fn unreserved(b: u8) -> bool {
    (0x41 <= b <= 0x5a) || (0x61 <= b <= 0x7a) || (0x30 <= b <= 0x39) || b == 0x2e || b == 0x2d
        || b == 0x5f || b == 0x7e
}

/// The uppercase hex digit of a value below sixteen.
pub open spec fn hex_char(d: u8) -> char {
    if d < 10 {
        ((0x30 + d) as u8) as char
    } else {
        ((0x41 + (d - 10)) as u8) as char
    }
}

/// The percent-encoding of one byte.
pub open spec fn pct(b: u8) -> Seq<char> {
    if unreserved(b) {
        seq![b as char]
    } else {
        seq!['%', hex_char(b / 16), hex_char(b % 16)]
    }
}

/// The percent-encoding of a byte string.
pub open spec fn percent_encoded(bs: Seq<u8>) -> Seq<char>
    decreases bs.len(),
{
    if bs.len() == 0 {
        Seq::empty()
    } else {
        pct(bs[0]) + percent_encoded(bs.skip(1))
    }
}

/// Percent-encodes bytes per the RFC 3986 unreserved rules, with uppercase
/// hex digits.
pub fn url_encode(bytes: &[u8]) -> (r: String)
    ensures
        r@ == percent_encoded(bytes@),
{
    let mut out = String::new();
    let mut i: usize = 0;
    #[verifier::loop_isolation(false)]
    while i < bytes.len()
        invariant
            i <= bytes@.len(),
            out@ == percent_encoded(bytes@.take(i as int)),
        decreases bytes@.len() - i,
    {
        let b = *slice_index_get(bytes, i);
        let ghost before = out@;
        if (0x41 <= b && b <= 0x5a) || (0x61 <= b && b <= 0x7a) || (0x30 <= b && b <= 0x39) || b
            == 0x2e || b == 0x2d || b == 0x5f || b == 0x7e {
            string_push(&mut out, b as char);
            proof {
                assert(out@ =~= before + pct(b));
            }
        } else {
            string_push(&mut out, '%');
            string_push(&mut out, hex_digit(b / 16));
            string_push(&mut out, hex_digit(b % 16));
            proof {
                assert(out@ =~= before + pct(b));
            }
        }
        i += 1;
        proof {
            lemma_percent_encoded_step(bytes@, i as int);
        }
    }
    proof {
        assert(bytes@.take(bytes@.len() as int) =~= bytes@);
    }
    out
}

/// Percent-encodes the UTF-8 bytes of a string.
pub fn url_encode_str(string: &str) -> (r: String)
    ensures
        r@ == percent_encoded(string.spec_bytes()),
{
    url_encode(string.as_bytes())
}

fn hex_digit(d: u8) -> (r: char)
    requires
        d < 16,
    ensures
        r == hex_char(d),
{
    if d < 10 {
        (0x30 + d) as char
    } else {
        (0x41 + (d - 10)) as char
    }
}

proof fn lemma_percent_encoded_step(bs: Seq<u8>, i: int)
    requires
        0 < i <= bs.len(),
    ensures
        percent_encoded(bs.take(i)) == percent_encoded(bs.take(i - 1)) + pct(bs[i - 1]),
    decreases i,
{
    if i == 1 {
        assert(bs.take(1)[0] == bs[0]);
        assert(bs.take(1).skip(1) =~= Seq::<u8>::empty());
        assert(percent_encoded(bs.take(1).skip(1)) =~= Seq::<char>::empty());
        assert(percent_encoded(bs.take(0)) =~= Seq::<char>::empty());
        assert(percent_encoded(bs.take(1)) =~= percent_encoded(bs.take(0)) + pct(bs[0]));
    } else {
        assert(bs.take(i)[0] == bs[0]);
        assert(bs.take(i).skip(1) =~= bs.skip(1).take(i - 1));
        assert(bs.take(i - 1)[0] == bs[0]);
        assert(bs.take(i - 1).skip(1) =~= bs.skip(1).take(i - 2));
        lemma_percent_encoded_step(bs.skip(1), i - 1);
        assert(bs.skip(1)[i - 2] == bs[i - 1]);
        assert(percent_encoded(bs.take(i)) =~= percent_encoded(bs.take(i - 1)) + pct(bs[i - 1]));
    }
}

// ---------------------------------------------------------------------------
// Decimal strings
// ---------------------------------------------------------------------------

/// The decimal digits of a number, as characters.
pub open spec fn dec_chars(n: nat) -> Seq<char>
    decreases n,
{
    if n < 10 {
        seq![((0x30 + n) as u8) as char]
    } else {
        dec_chars((n / 10) as nat).push(((0x30 + n % 10) as u8) as char)
    }
}

/// The decimal representation of a number.
pub fn u64_to_string(n: u64) -> (r: String)
    ensures
        r@ == dec_chars(n as nat),
{
    let mut out = String::new();
    push_decimal_chars(&mut out, n);
    proof {
        assert(Seq::<char>::empty() + dec_chars(n as nat) =~= dec_chars(n as nat));
    }
    out
}

fn push_decimal_chars(out: &mut String, n: u64)
    ensures
        final(out)@ == old(out)@ + dec_chars(n as nat),
    decreases n,
{
    if n < 10 {
        string_push(out, (0x30 + n as u8) as char);
        proof {
            assert(final(out)@ =~= old(out)@ + dec_chars(n as nat));
        }
    } else {
        push_decimal_chars(out, n / 10);
        string_push(out, (0x30 + (n % 10) as u8) as char);
        proof {
            assert(dec_chars(n as nat) == dec_chars((n as nat / 10) as nat).push(
                ((0x30 + n as nat % 10) as u8) as char,
            ));
            assert(final(out)@ =~= old(out)@ + dec_chars(n as nat));
        }
    }
}

/// The views of built query pairs.
pub open spec fn pair_views(s: Seq<(String, String)>) -> Seq<(Seq<char>, Seq<char>)> {
    Seq::new(s.len(), |i: int| (s[i].0@, s[i].1@))
}

/// The announce query, pair by pair: the seven fixed fields, then each
/// optional field that is set, in order.
pub open spec fn query_pairs(req: TrackerReq) -> Seq<(Seq<char>, Seq<char>)> {
    seq![
        ("info_hash"@, percent_encoded(req.info_hash@)),
        ("peer_id"@, percent_encoded(req.peer_id@)),
        ("port"@, dec_chars(req.port as nat)),
        ("uploaded"@, dec_chars(req.uploaded as nat)),
        ("left"@, dec_chars(req.left as nat)),
        (
            "compact"@,
            if req.compact {
                "1"@
            } else {
                "0"@
            },
        ),
        (
            "no_peer_id"@,
            if req.no_peer_id {
                "1"@
            } else {
                "0"@
            },
        ),
    ] + (match req.event {
        Some(e) => seq![("event"@, event_name(e))],
        None => seq![],
    }) + (match req.ip {
        Some(ip) => seq![("ip"@, percent_encoded(vstd::utf8::encode_utf8(ip@)))],
        None => seq![],
    }) + (match req.numwant {
        Some(n) => seq![("numwant"@, dec_chars(n as nat))],
        None => seq![],
    }) + (match req.key {
        Some(k) => seq![("key"@, percent_encoded(vstd::utf8::encode_utf8(k@)))],
        None => seq![],
    }) + (match req.trackerid {
        Some(t) => seq![("trackerid"@, percent_encoded(vstd::utf8::encode_utf8(t@)))],
        None => seq![],
    })
}

impl TrackerReq {
    /// The query string pairs of the announce request: exactly
    /// `query_pairs`, nothing more.
    #[verifier::rlimit(100)]
    pub fn to_query_string_pairs(&self) -> (r: Vec<(String, String)>)
        ensures
            pair_views(r@) == query_pairs(*self),
    {
        let mut pairs: Vec<(String, String)> = Vec::new();
        pairs.push(("info_hash".to_owned(), url_encode(self.info_hash.as_slice())));
        pairs.push(("peer_id".to_owned(), url_encode(self.peer_id.as_slice())));
        pairs.push(("port".to_owned(), u64_to_string(self.port as u64)));
        pairs.push(("uploaded".to_owned(), u64_to_string(self.uploaded)));
        pairs.push(("left".to_owned(), u64_to_string(self.left)));
        pairs.push((
            "compact".to_owned(),
            if self.compact {
                "1".to_owned()
            } else {
                "0".to_owned()
            },
        ));
        pairs.push((
            "no_peer_id".to_owned(),
            if self.no_peer_id {
                "1".to_owned()
            } else {
                "0".to_owned()
            },
        ));
        match &self.event {
            Some(e) => {
                pairs.push(("event".to_owned(), e.to_string()));
            },
            None => {},
        }
        match &self.ip {
            Some(ip) => {
                pairs.push(("ip".to_owned(), url_encode_str(ip.as_str())));
            },
            None => {},
        }
        match &self.numwant {
            Some(n) => {
                pairs.push(("numwant".to_owned(), u64_to_string(*n as u64)));
            },
            None => {},
        }
        match &self.key {
            Some(k) => {
                pairs.push(("key".to_owned(), url_encode_str(k.as_str())));
            },
            None => {},
        }
        match &self.trackerid {
            Some(t) => {
                pairs.push(("trackerid".to_owned(), url_encode_str(t.as_str())));
            },
            None => {},
        }
        proof {
            assert(pair_views(pairs@) =~= query_pairs(*self));
        }
        pairs
    }
}

// ---------------------------------------------------------------------------
// The response
// ---------------------------------------------------------------------------

/// One peer the tracker offered.
#[derive(Debug)]
pub struct Peer {
    pub peer_id: String,
    pub ip: String,
    pub port: u32,
}

/// What the tracker answered.
#[derive(Debug)]
pub struct TrackerResp {
    pub failure_reason: Option<String>,
    pub warning_message: Option<String>,
    pub interval: u32,
    pub min_interval: Option<u32>,
    pub tracker_id: Option<String>,
    pub complete: u32,
    pub peers: Vec<Peer>,
}

/// How the tracker dialogue can fail.
#[derive(Debug)]
pub enum TrackerError {
    Unknown,
    ParseError(DecodeError),
    Http(String),
    Refused(String),
}

/// The dotted decimal form of an IPv4 address.
pub open spec fn dotted(a: u8, b: u8, c: u8, d: u8) -> Seq<char> {
    dec_chars(a as nat) + seq!['.'] + dec_chars(b as nat) + seq!['.'] + dec_chars(c as nat)
        + seq!['.'] + dec_chars(d as nat)
}

fn dotted_quad(a: u8, b: u8, c: u8, d: u8) -> (r: String)
    ensures
        r@ == dotted(a, b, c, d),
{
    let mut out = String::new();
    push_decimal_chars(&mut out, a as u64);
    string_push(&mut out, '.');
    push_decimal_chars(&mut out, b as u64);
    string_push(&mut out, '.');
    push_decimal_chars(&mut out, c as u64);
    string_push(&mut out, '.');
    push_decimal_chars(&mut out, d as u64);
    proof {
        assert(out@ =~= dotted(a, b, c, d));
    }
    out
}

/// One offered peer in the dictionary-list form: a dictionary with a
/// `peer id` string, an `ip` string, and an integer `port`.
pub open spec fn peer_entry_ok(v: BencodeView) -> bool {
    v matches BencodeView::Dict(d) && str_field_ok(d, "peer id".spec_bytes()) && str_field_ok(
        d,
        "ip".spec_bytes(),
    ) && (pairs_get(d, "port".spec_bytes()) matches Some(BencodeView::Int(_)))
}

/// The ip bytes of one offered peer record.
pub open spec fn peer_ip_bytes(v: BencodeView) -> Seq<u8> {
    match v {
        BencodeView::Dict(d) => str_field_bytes(d, "ip".spec_bytes()),
        _ => vstd::pervasive::arbitrary(),
    }
}

/// The peer id bytes of one offered peer record.
pub open spec fn peer_id_bytes(v: BencodeView) -> Seq<u8> {
    match v {
        BencodeView::Dict(d) => str_field_bytes(d, "peer id".spec_bytes()),
        _ => vstd::pervasive::arbitrary(),
    }
}

/// The port of one offered peer record.
pub open spec fn peer_port(v: BencodeView) -> int {
    match v {
        BencodeView::Dict(d) => match pairs_get(d, "port".spec_bytes()) {
            Some(BencodeView::Int(n)) => n,
            _ => vstd::pervasive::arbitrary(),
        },
        _ => vstd::pervasive::arbitrary(),
    }
}

/// What a tracker response dictionary must contain; `tracker id` and the
/// other string fields are optional.
pub open spec fn tracker_resp_ok(ps: Seq<(Seq<u8>, BencodeView)>) -> bool {
    &&& pairs_get(ps, "interval".spec_bytes()) matches Some(BencodeView::Int(_))
    &&& pairs_get(ps, "complete".spec_bytes()) matches Some(BencodeView::Int(_))
    &&& (match pairs_get(ps, "peers".spec_bytes()) {
        Some(BencodeView::List(entries)) => forall|i: int|
            0 <= i < entries.len() ==> peer_entry_ok(#[trigger] entries[i]),
        Some(BencodeView::Str(pb)) => pb.len() % 6 == 0,
        _ => false,
    })
}

impl TrackerResp {
    /// Reads the response dictionary: `interval`, `tracker id` and
    /// `complete` are required, the rest optional; `peers` is accepted in
    /// both the dictionary-list form and the compact 6-byte form.
    pub fn from_bdict(dict: &BDict) -> (r: Result<TrackerResp, DecodeError>)
        ensures
            (r is Ok) == tracker_resp_ok(dict@),
            r matches Ok(resp) ==> {
                &&& (pairs_get(dict@, "interval".spec_bytes()) matches Some(BencodeView::Int(n))
                    && resp.interval == n as u32)
                &&& (pairs_get(dict@, "complete".spec_bytes()) matches Some(BencodeView::Int(c))
                    && resp.complete == c as u32)
                &&& (resp.tracker_id matches Some(t) ==> str_field_ok(
                    dict@,
                    "tracker id".spec_bytes(),
                ) && vstd::utf8::encode_utf8(t@) == str_field_bytes(
                    dict@,
                    "tracker id".spec_bytes(),
                ))
                &&& (pairs_get(dict@, "peers".spec_bytes()) matches Some(v) && ((v matches
                BencodeView::List(entries) && resp.peers@.len() == entries.len() && (forall|
                    j: int,
                |
                    0 <= j < entries.len() ==> vstd::utf8::encode_utf8(
                        (#[trigger] resp.peers@[j]).ip@,
                    ) == peer_ip_bytes(entries[j]) && vstd::utf8::encode_utf8(
                        resp.peers@[j].peer_id@,
                    ) == peer_id_bytes(entries[j]) && resp.peers@[j].port == peer_port(
                        entries[j],
                    ) as u32)) || (v matches BencodeView::Str(pb) && pb.len() % 6 == 0
                    && resp.peers@.len() == pb.len() / 6 && (forall|j: int|
                    0 <= j < pb.len() / 6 ==> (#[trigger] resp.peers@[j]).ip@ == dotted(
                        pb[6 * j],
                        pb[6 * j + 1],
                        pb[6 * j + 2],
                        pb[6 * j + 3],
                    ) && resp.peers@[j].port == (pb[6 * j + 4] as int) * 0x100 + pb[6 * j
                        + 5]))))
            },
    {
        let interval = match get_int(dict, "interval") {
            Ok(v) => v,
            Err(e) => {
                return Err(e);
            },
        };
        let tracker_id = get_string(dict, "tracker id").ok();
        let complete = match get_int(dict, "complete") {
            Ok(v) => v,
            Err(e) => {
                return Err(e);
            },
        };
        let failure_reason = get_string(dict, "failure reason").ok();
        let warning_message = get_string(dict, "warning message").ok();
        let min_interval = match get_int(dict, "min interval") {
            Ok(v) => Some(v as u32),
            Err(_) => None,
        };
        let peers = match dict.get("peers") {
            Some(element) => match element {
                Bencode::BList(plist) => {
                    let ghost entries = plist@;
                    proof {
                        crate::bencode::lemma_views_of_len(plist.0@);
                    }
                    let mut out: Vec<Peer> = Vec::new();
                    let mut i: usize = 0;
                    #[verifier::loop_isolation(false)]
                    while i < plist.0.len()
                        invariant
                            i <= plist.0@.len(),
                            entries == plist@,
                            entries.len() == plist.0@.len(),
                            i == out@.len(),
                            forall|j: int| 0 <= j < i ==> peer_entry_ok(#[trigger] entries[j]),
                            forall|j: int|
                                0 <= j < i ==> vstd::utf8::encode_utf8((#[trigger] out@[j]).ip@)
                                    == peer_ip_bytes(entries[j]) && vstd::utf8::encode_utf8(
                                    out@[j].peer_id@,
                                ) == peer_id_bytes(entries[j]) && out@[j].port == peer_port(
                                    entries[j],
                                ) as u32,
                        decreases plist.0@.len() - i,
                    {
                        proof {
                            crate::bencode::lemma_views_of_index(plist.0@, i as int);
                        }
                        let pdict = match &plist.0[i] {
                            Bencode::BDict(inner) => inner,
                            _ => {
                                proof {
                                    lemma_peer_entry_fails(dict@, entries, i as int);
                                }
                                return Err(missing_field("peers"));
                            },
                        };
                        let peer_id = match get_string(pdict, "peer id") {
                            Ok(v) => v,
                            Err(e) => {
                                proof {
                                    assert(entries[i as int] == BencodeView::Dict(pdict@));
                                    lemma_peer_entry_fails(dict@, entries, i as int);
                                }
                                return Err(e);
                            },
                        };
                        let ip = match get_string(pdict, "ip") {
                            Ok(v) => v,
                            Err(e) => {
                                proof {
                                    assert(entries[i as int] == BencodeView::Dict(pdict@));
                                    lemma_peer_entry_fails(dict@, entries, i as int);
                                }
                                return Err(e);
                            },
                        };
                        let port = match get_int(pdict, "port") {
                            Ok(v) => v as u32,
                            Err(e) => {
                                proof {
                                    assert(entries[i as int] == BencodeView::Dict(pdict@));
                                    lemma_peer_entry_fails(dict@, entries, i as int);
                                }
                                return Err(e);
                            },
                        };
                        out.push(Peer { peer_id, ip, port });
                        i += 1;
                    }
                    proof {
                        assert(pairs_get(dict@, "peers".spec_bytes()) == Some(
                            BencodeView::List(entries),
                        ));
                        assert(out@.len() == entries.len());
                        assert forall|j: int|
                            0 <= j < entries.len() implies vstd::utf8::encode_utf8(
                            (#[trigger] out@[j]).ip@,
                        ) == peer_ip_bytes(entries[j]) && vstd::utf8::encode_utf8(
                            out@[j].peer_id@,
                        ) == peer_id_bytes(entries[j]) && out@[j].port == peer_port(
                            entries[j],
                        ) as u32 by {}
                    }
                    out
                },
                Bencode::BString(compact) => {
                    let bytes = &compact.0;
                    if bytes.len() % 6 != 0 {
                        return Err(DecodeError {
                            position: None,
                            kind: DecodeErrorKind::InvalidString,
                        });
                    }
                    let count = bytes.len() / 6;
                    let mut out: Vec<Peer> = Vec::new();
                    let mut i: usize = 0;
                    #[verifier::loop_isolation(false)]
                    while i < count
                        invariant
                            i == out@.len() <= count,
                            count == bytes@.len() / 6,
                            bytes@.len() % 6 == 0,
                            forall|j: int|
                                0 <= j < i ==> (#[trigger] out@[j]).ip@ == dotted(
                                    bytes@[6 * j],
                                    bytes@[6 * j + 1],
                                    bytes@[6 * j + 2],
                                    bytes@[6 * j + 3],
                                ) && out@[j].port == (bytes@[6 * j + 4] as int) * 0x100 + bytes@[
                                    6 * j + 5],
                        decreases count - i,
                    {
                        proof {
                            assert(6 * (i + 1) <= bytes@.len()) by (nonlinear_arith)
                                requires
                                    i < count,
                                    count == bytes@.len() / 6,
                                    bytes@.len() % 6 == 0,
                            ;
                        }
                        let base = 6 * i;
                        let ip = dotted_quad(
                            bytes[base],
                            bytes[base + 1],
                            bytes[base + 2],
                            bytes[base + 3],
                        );
                        let port = (bytes[base + 4] as u32) * 256 + (bytes[base + 5] as u32);
                        out.push(Peer { peer_id: String::new(), ip, port });
                        i += 1;
                    }
                    out
                },
                _ => {
                    return Err(missing_field("peers"));
                },
            },
            None => {
                return Err(missing_field("peers"));
            },
        };
        Ok(TrackerResp {
            failure_reason,
            warning_message,
            interval: interval as u32,
            min_interval,
            tracker_id,
            complete: complete as u32,
            peers,
        })
    }
}

/// Reads a tracker response body: a bencode parse error is a parse error,
/// a `failure reason` is a refusal, anything else is read as a response.
pub fn interpret_tracker_response(bytes: &[u8]) -> (r: Result<TrackerResp, TrackerError>)
    ensures
        (match parse_elem(bytes@) {
            Some(p) => match p.0 {
                BencodeView::Dict(ps) => if str_field_ok(ps, "failure reason".spec_bytes()) {
                    r matches Err(e) && (e matches TrackerError::Refused(reason)
                        && vstd::utf8::encode_utf8(reason@) == str_field_bytes(
                        ps,
                        "failure reason".spec_bytes(),
                    ))
                } else if tracker_resp_ok(ps) {
                    r is Ok
                } else {
                    r matches Err(e) && e is ParseError
                },
                _ => r matches Err(e) && e is ParseError,
            },
            None => r matches Err(e) && e is ParseError,
        }),
        r is Ok ==> (parse_elem(bytes@) matches Some(p) && p.0 matches BencodeView::Dict(ps)
            && tracker_resp_ok(ps) && !str_field_ok(ps, "failure reason".spec_bytes())),
        r matches Ok(resp) ==> (parse_elem(bytes@) matches Some(p) && p.0 matches
        BencodeView::Dict(ps) && (pairs_get(ps, "interval".spec_bytes()) matches Some(
            BencodeView::Int(n),
        ) && resp.interval == n as u32) && (pairs_get(ps, "complete".spec_bytes()) matches Some(
            BencodeView::Int(c),
        ) && resp.complete == c as u32)),
    {
    let root = match belement_decode(bytes) {
        Ok(res) => res.0,
        Err(e) => {
            return Err(TrackerError::ParseError(e));
        },
    };
    let dict = match root {
        Bencode::BDict(d) => d,
        _ => {
            return Err(TrackerError::ParseError(DecodeError {
                position: None,
                kind: DecodeErrorKind::UnknownType,
            }));
        },
    };
    match get_string(&dict, "failure reason") {
        Ok(reason) => {
            return Err(TrackerError::Refused(reason));
        },
        Err(_) => {},
    }
    match TrackerResp::from_bdict(&dict) {
        Ok(resp) => Ok(resp),
        Err(e) => Err(TrackerError::ParseError(e)),
    }
}

/// When one offered peer is unacceptable, the whole response is.
proof fn lemma_peer_entry_fails(ps: Seq<(Seq<u8>, BencodeView)>, entries: Seq<BencodeView>, i: int)
    requires
        pairs_get(ps, "peers".spec_bytes()) == Some(BencodeView::List(entries)),
        0 <= i < entries.len(),
        !peer_entry_ok(entries[i]),
    ensures
        !tracker_resp_ok(ps),
{
    assert(!(match pairs_get(ps, "peers".spec_bytes()) {
        Some(BencodeView::List(es)) => forall|j: int|
            0 <= j < es.len() ==> peer_entry_ok(#[trigger] es[j]),
        Some(BencodeView::Str(pb)) => pb.len() % 6 == 0,
        _ => false,
    })) by {
        assert(entries[i] == (match pairs_get(ps, "peers".spec_bytes()) {
            Some(BencodeView::List(es)) => es[i],
            _ => vstd::pervasive::arbitrary(),
        }));
    }
}

fn missing_field(fld: &str) -> (r: DecodeError)
    ensures
        r.kind matches DecodeErrorKind::MissingField(f) && f@ == fld@,
{
    DecodeError { position: None, kind: DecodeErrorKind::MissingField(fld.to_owned()) }
}

fn get_int(dict: &BDict, field: &str) -> (r: Result<i64, DecodeError>)
    ensures
        (r is Ok) == (pairs_get(dict@, field.spec_bytes()) matches Some(BencodeView::Int(_))),
        r matches Ok(v) ==> pairs_get(dict@, field.spec_bytes()) == Some(
            BencodeView::Int(v as int),
        ),
{
    match dict.get(field) {
        Some(element) => match element {
            Bencode::BInt(bint) => Ok(bint.0),
            _ => Err(missing_field(field)),
        },
        None => Err(missing_field(field)),
    }
}

fn get_string(dict: &BDict, field: &str) -> (r: Result<String, DecodeError>)
    ensures
        (r is Ok) == str_field_ok(dict@, field.spec_bytes()),
        r matches Ok(s) ==> vstd::utf8::encode_utf8(s@) == str_field_bytes(
            dict@,
            field.spec_bytes(),
        ),
{
    match dict.get(field) {
        Some(element) => match element {
            Bencode::BString(bstring) => match bstring.to_string() {
                Ok(s) => Ok(s),
                Err(_) => Err(missing_field(field)),
            },
            _ => Err(missing_field(field)),
        },
        None => Err(missing_field(field)),
    }
}

} // verus!

//! The typed view over a torrent's bencoded metainfo dictionary.

use vstd::prelude::*;

use crate::bencode::model::{pairs_get, BencodeView};
use crate::bencode::{bencode_wf, bencode_view, BDict, BInt, BList, BString, Bencode};
use vstd::string::StringSliceAdditionalSpecFns;

verus! {

pub type MD5Sum = Vec<u8>;

pub type SHA1Hash20b = Vec<u8>;

pub type FPath = Vec<String>;

/// The whole metainfo document.
#[derive(Debug)]
pub struct MetaInfo {
    pub announce: String,
    pub announce_list: Vec<String>,
    pub comment: Option<String>,
    pub created_by: Option<String>,
    pub creation_date: Option<u32>,
    pub info: FileInfo,
}

/// The `info` dictionary: how the content is cut into pieces, and either
/// one file or several.
#[derive(Debug)]
pub struct FileInfo {
    pub piece_length: u64,
    pub pieces: Vec<SHA1Hash20b>,
    pub private: Option<u32>,
    pub name: String,
    pub mode_info: ModeInfo,
    pub original: Option<BDict>,
}

#[derive(Debug)]
pub enum ModeInfo {
    Single(SingleFileInfo),
    Multi(MultiFileInfo),
}

#[derive(Debug)]
pub struct SingleFileInfo {
    pub length: u64,
    pub md5_sum: Option<MD5Sum>,
}

#[derive(Debug)]
pub struct MultiFileInfo {
    pub files: Vec<(u64, Option<MD5Sum>, FPath)>,
}

/// Why a metainfo document was rejected.
#[derive(Debug)]
pub struct MetaInfoError {
    pub kind: MetaInfoErrorKind,
}

#[derive(Debug)]
pub enum MetaInfoErrorKind {
    MissingField(String),
    FieldIsWrongType(String),
    InvalidDataFieldValue(String),
}

impl MetaInfoError {
    pub fn missing_field(field: &str) -> (r: MetaInfoError)
        ensures
            r.kind matches MetaInfoErrorKind::MissingField(f) && f@ == field@,
    {
        MetaInfoError {
            kind: MetaInfoErrorKind::MissingField(field.to_owned()),
        }
    }

    pub fn field_type(field: &str) -> (r: MetaInfoError)
        ensures
            r.kind matches MetaInfoErrorKind::FieldIsWrongType(f) && f@ == field@,
    {
        MetaInfoError {
            kind: MetaInfoErrorKind::FieldIsWrongType(field.to_owned()),
        }
    }

    pub fn invalid_data(field: &str) -> (r: MetaInfoError)
        ensures
            r.kind matches MetaInfoErrorKind::InvalidDataFieldValue(f) && f@ == field@,
    {
        MetaInfoError {
            kind: MetaInfoErrorKind::InvalidDataFieldValue(field.to_owned()),
        }
    }
}

/// The total number of content bytes the document describes.
pub open spec fn spec_total_length(mode: ModeInfo) -> int {
    match mode {
        ModeInfo::Single(s) => s.length as int,
        ModeInfo::Multi(m) => spec_files_total(m.files@),
    }
}

pub open spec fn spec_files_total(files: Seq<(u64, Option<MD5Sum>, FPath)>) -> int
    decreases files.len(),
{
    if files.len() == 0 {
        0
    } else {
        spec_files_total(files.drop_last()) + files.last().0
    }
}

/// The length every piece but the last has, and the tail length of the
/// last: the content is exactly `(count - 1) * piece_length + tail` bytes
/// with `0 < tail <= piece_length`.
pub open spec fn file_info_wf(info: FileInfo) -> bool {
    &&& 0 < info.piece_length <= u32::MAX
    &&& info.pieces@.len() >= 1
    &&& info.pieces@.len() <= u32::MAX
    &&& (info.pieces@.len() - 1) * info.piece_length < spec_total_length(info.mode_info)
        <= info.pieces@.len() * info.piece_length
    &&& forall|i: int| 0 <= i < info.pieces@.len() ==> (#[trigger] info.pieces@[i])@.len() == 20
}

/// The expected length of piece `i`.
pub open spec fn spec_piece_len(info: FileInfo, i: int) -> int {
    if i < info.pieces@.len() - 1 {
        info.piece_length as int
    } else {
        spec_total_length(info.mode_info) - (info.pieces@.len() - 1) * info.piece_length
    }
}

impl FileInfo {
    /// The total number of content bytes.
    pub fn total_length(&self) -> (r: u64)
        requires
            spec_total_length(self.mode_info) <= u64::MAX,
        ensures
            r == spec_total_length(self.mode_info),
    {
        match &self.mode_info {
            ModeInfo::Single(s) => s.length,
            ModeInfo::Multi(m) => {
                proof {
                    assert(m.files@.take(0).len() == 0);
                    assert(spec_files_total(m.files@.take(0)) == 0);
                    lemma_files_total_nonneg(m.files@);
                }
                let mut total: u64 = 0;
                let mut i: usize = 0;
                #[verifier::loop_isolation(false)]
                while i < m.files.len()
                    invariant
                        i <= m.files@.len(),
                        total == spec_files_total(m.files@.take(i as int)),
                        spec_files_total(m.files@.take(i as int)) <= spec_total_length(
                            self.mode_info,
                        ),
                    decreases m.files@.len() - i,
                {
                    proof {
                        assert(m.files@.take(i + 1).drop_last() =~= m.files@.take(i as int));
                        assert(m.files@.take(i + 1).last() == m.files@[i as int]);
                        lemma_files_total_mono(m.files@, i + 1, m.files@.len() as int);
                        lemma_files_total_nonneg(m.files@.subrange(i + 1, m.files@.len() as int));
                    }
                    total = total + m.files[i].0;
                    i += 1;
                }
                proof {
                    assert(m.files@.take(m.files@.len() as int) =~= m.files@);
                }
                total
            },
        }
    }
}

proof fn lemma_files_total_nonneg(files: Seq<(u64, Option<MD5Sum>, FPath)>)
    ensures
        spec_files_total(files) >= 0,
    decreases files.len(),
{
    if files.len() > 0 {
        lemma_files_total_nonneg(files.drop_last());
    }
}

proof fn lemma_files_total_mono(files: Seq<(u64, Option<MD5Sum>, FPath)>, i: int, n: int)
    requires
        0 <= i <= n == files.len(),
    ensures
        spec_files_total(files.take(i)) + spec_files_total(files.subrange(i, n))
            == spec_files_total(files),
    decreases n - i,
{
    if i == n {
        assert(files.take(n) =~= files);
        assert(files.subrange(n, n).len() == 0);
    } else {
        lemma_files_total_mono(files, i + 1, n);
        assert(files.take(i + 1).drop_last() =~= files.take(i));
        assert(files.take(i + 1).last() == files[i]);
        let rest = files.subrange(i, n);
        let rest1 = files.subrange(i + 1, n);
        assert(rest.len() > 0);
        assert(rest =~= seq![files[i]] + rest1);
        lemma_files_total_head(files[i], rest1);
    }
}

proof fn lemma_files_total_head(f: (u64, Option<MD5Sum>, FPath), rest: Seq<(u64, Option<MD5Sum>,
    FPath)>)
    ensures
        spec_files_total(seq![f] + rest) == f.0 + spec_files_total(rest),
    decreases rest.len(),
{
    let w = seq![f] + rest;
    assert(spec_files_total(w) == spec_files_total(w.drop_last()) + w.last().0);
    if rest.len() == 0 {
        assert(w.drop_last() =~= Seq::<(u64, Option<MD5Sum>, FPath)>::empty());
        assert(spec_files_total(Seq::<(u64, Option<MD5Sum>, FPath)>::empty()) == 0);
        assert(w.last() == f);
    } else {
        assert(w.drop_last() =~= seq![f] + rest.drop_last());
        assert(w.last() == rest.last());
        lemma_files_total_head(f, rest.drop_last());
    }
}

// ---------------------------------------------------------------------------
// What a metainfo dictionary must contain
// ---------------------------------------------------------------------------

/// The key holds a UTF-8 byte-string.
pub open spec fn str_field_ok(ps: Seq<(Seq<u8>, BencodeView)>, key: Seq<u8>) -> bool {
    pairs_get(ps, key) matches Some(BencodeView::Str(b)) && vstd::utf8::valid_utf8(b)
}

/// The bytes under a string key.
pub open spec fn str_field_bytes(ps: Seq<(Seq<u8>, BencodeView)>, key: Seq<u8>) -> Seq<u8> {
    match pairs_get(ps, key) {
        Some(BencodeView::Str(b)) => b,
        _ => vstd::pervasive::arbitrary(),
    }
}

/// A file record: a dictionary with an integer `length` and a `path` list
/// of UTF-8 strings.
pub open spec fn file_entry_ok(v: BencodeView) -> bool {
    v matches BencodeView::Dict(d) && (pairs_get(d, "length".spec_bytes()) matches Some(
        BencodeView::Int(_),
    )) && (pairs_get(d, "path".spec_bytes()) matches Some(BencodeView::List(items)) && forall|
        i: int,
    | 0 <= i < items.len() ==> ((#[trigger] items[i]) matches BencodeView::Str(b)
        && vstd::utf8::valid_utf8(b)))
}

/// Either a single-file `length` or a list of acceptable file records.
pub open spec fn mode_ok(ps: Seq<(Seq<u8>, BencodeView)>) -> bool {
    (pairs_get(ps, "length".spec_bytes()) matches Some(BencodeView::Int(_))) || (pairs_get(
        ps,
        "files".spec_bytes(),
    ) matches Some(BencodeView::List(fs)) && forall|i: int|
        0 <= i < fs.len() ==> file_entry_ok(#[trigger] fs[i]))
}

/// What the `info` dictionary must contain.
pub open spec fn info_ok(ps: Seq<(Seq<u8>, BencodeView)>) -> bool {
    &&& pairs_get(ps, "piece length".spec_bytes()) matches Some(BencodeView::Int(_))
    &&& pairs_get(ps, "pieces".spec_bytes()) matches Some(BencodeView::Str(pb)) && pb.len() % 20
        == 0
    &&& str_field_ok(ps, "name".spec_bytes())
    &&& mode_ok(ps)
}

/// What the whole document must contain.
pub open spec fn metainfo_ok(ps: Seq<(Seq<u8>, BencodeView)>) -> bool {
    &&& str_field_ok(ps, "announce".spec_bytes())
    &&& pairs_get(ps, "info".spec_bytes()) matches Some(BencodeView::Dict(ips)) && info_ok(ips)
}

impl MetaInfo {
    /// Projects a decoded root dictionary onto the schema: accepted exactly
    /// when every required field is present with the right type.
    pub fn from(dict: &BDict) -> (r: Result<MetaInfo, MetaInfoError>)
        ensures
            (r is Ok) == metainfo_ok(dict@),
            r matches Ok(mi) ==> {
                &&& vstd::utf8::encode_utf8(mi.announce@) == str_field_bytes(
                    dict@,
                    "announce".spec_bytes(),
                )
                &&& (pairs_get(dict@, "info".spec_bytes()) matches Some(BencodeView::Dict(ips))
                    && info_matches(ips, mi.info))
                &&& (bencode_wf(Bencode::BDict(*dict)) ==> (mi.info.original matches Some(od)
                    && crate::bencode::dict_hash_wf(od)))
            },
    {
        let announce = match MetaInfo::get_string_or_error(dict, "announce") {
            Ok(s) => s,
            Err(e) => {
                return Err(e);
            },
        };
        let comment = MetaInfo::get_optionstring(dict, "comment");
        let created_by = MetaInfo::get_optionstring(dict, "created_by");
        let creation_date = match MetaInfo::get_u32_or_error(dict, "creation date") {
            Ok(v) => Some(v),
            Err(_) => None,
        };
        let info = match MetaInfo::get_info(dict) {
            Ok(info) => info,
            Err(e) => {
                return Err(e);
            },
        };
        Ok(MetaInfo {
            announce,
            announce_list: Vec::new(),
            comment,
            created_by,
            creation_date,
            info,
        })
    }

    fn get_string_or_error(dict: &BDict, field: &str) -> (r: Result<String, MetaInfoError>)
        ensures
            (r is Ok) == str_field_ok(dict@, field.spec_bytes()),
            r matches Ok(s) ==> vstd::utf8::encode_utf8(s@) == str_field_bytes(
                dict@,
                field.spec_bytes(),
            ),
            r matches Err(e) ==> (e.kind is MissingField <==> pairs_get(
                dict@,
                field.spec_bytes(),
            ) is None),
    {
        match dict.get(field) {
            Some(element) => match element {
                Bencode::BString(bstring) => match bstring.to_string() {
                    Ok(s) => Ok(s),
                    Err(_) => Err(MetaInfoError::field_type(field)),
                },
                _ => Err(MetaInfoError::field_type(field)),
            },
            None => Err(MetaInfoError::missing_field(field)),
        }
    }

    fn get_bstring_or_error(dict: &BDict, field: &str) -> (r: Result<BString, MetaInfoError>)
        ensures
            (r is Ok) == (pairs_get(dict@, field.spec_bytes()) matches Some(
                BencodeView::Str(_),
            )),
            r matches Ok(s) ==> pairs_get(dict@, field.spec_bytes()) == Some(
                BencodeView::Str(s@),
            ),
            r matches Err(e) ==> (e.kind is MissingField <==> pairs_get(
                dict@,
                field.spec_bytes(),
            ) is None),
    {
        match dict.get(field) {
            Some(element) => match element {
                Bencode::BString(bstring) => Ok(BString(bstring.to_bytes())),
                _ => Err(MetaInfoError::field_type(field)),
            },
            None => Err(MetaInfoError::missing_field(field)),
        }
    }

    fn get_optionstring(dict: &BDict, field: &str) -> (r: Option<String>)
        ensures
            r matches Some(s) ==> str_field_ok(dict@, field.spec_bytes())
                && vstd::utf8::encode_utf8(s@) == str_field_bytes(dict@, field.spec_bytes()),
    {
        match MetaInfo::get_string_or_error(dict, field) {
            Ok(s) => Some(s),
            Err(_) => None,
        }
    }

    fn get_u32_or_error(dict: &BDict, field: &str) -> (r: Result<u32, MetaInfoError>)
        ensures
            (r is Ok) == (pairs_get(dict@, field.spec_bytes()) matches Some(
                BencodeView::Int(_),
            )),
            r matches Ok(v) ==> (pairs_get(dict@, field.spec_bytes()) matches Some(
                BencodeView::Int(n,
            )) && v == n as u32),
    {
        match dict.get(field) {
            Some(element) => match element {
                Bencode::BInt(bint) => Ok(bint.0 as u32),
                _ => Err(MetaInfoError::field_type(field)),
            },
            None => Err(MetaInfoError::missing_field(field)),
        }
    }

    fn get_u64_or_error(dict: &BDict, field: &str) -> (r: Result<u64, MetaInfoError>)
        ensures
            (r is Ok) == (pairs_get(dict@, field.spec_bytes()) matches Some(
                BencodeView::Int(_),
            )),
            r matches Ok(v) ==> (pairs_get(dict@, field.spec_bytes()) matches Some(
                BencodeView::Int(n,
            )) && v == n as u64),
            r matches Err(e) ==> (e.kind is MissingField <==> pairs_get(
                dict@,
                field.spec_bytes(),
            ) is None),
    {
        match dict.get(field) {
            Some(element) => match element {
                Bencode::BInt(bint) => Ok(bint.0 as u64),
                _ => Err(MetaInfoError::field_type(field)),
            },
            None => Err(MetaInfoError::missing_field(field)),
        }
    }

    /// The strings of a `path` list; rejected unless every element is a
    /// UTF-8 string.
    fn get_path(dict: &BDict, field: &str) -> (r: Result<Vec<String>, MetaInfoError>)
        ensures
            (r is Ok) == (pairs_get(dict@, field.spec_bytes()) matches Some(
                BencodeView::List(items),
            ) && forall|i: int|
                0 <= i < items.len() ==> ((#[trigger] items[i]) matches BencodeView::Str(b)
                    && vstd::utf8::valid_utf8(b))),
    {
        let list = match dict.get(field) {
            Some(element) => match element {
                Bencode::BList(blist) => blist,
                _ => {
                    return Err(MetaInfoError::field_type(field));
                },
            },
            None => {
                return Err(MetaInfoError::missing_field(field));
            },
        };
        let ghost items = list@;
        let mut out: Vec<String> = Vec::new();
        let mut i: usize = 0;
        #[verifier::loop_isolation(false)]
        while i < list.0.len()
            invariant
                i <= list.0@.len(),
                items == list@,
                forall|j: int|
                    0 <= j < i ==> ((#[trigger] items[j]) matches BencodeView::Str(b)
                        && vstd::utf8::valid_utf8(b)),
            decreases list.0@.len() - i,
        {
            proof {
                crate::bencode::lemma_views_of_index(list.0@, i as int);
            }
            match &list.0[i] {
                Bencode::BString(bstring) => match bstring.to_string() {
                    Ok(s) => {
                        out.push(s);
                    },
                    Err(_) => {
                        return Err(MetaInfoError::invalid_data(field));
                    },
                },
                _ => {
                    return Err(MetaInfoError::field_type(field));
                },
            }
            i += 1;
        }
        proof {
            crate::bencode::lemma_views_of_len(list.0@);
        }
        Ok(out)
    }

    /// Projects the `info` dictionary.
    pub fn get_info(dict: &BDict) -> (r: Result<FileInfo, MetaInfoError>)
        ensures
            (r is Ok) == (pairs_get(dict@, "info".spec_bytes()) matches Some(
                BencodeView::Dict(ips),
            ) && info_ok(ips)),
            r matches Ok(info) ==> (pairs_get(dict@, "info".spec_bytes()) matches Some(
                BencodeView::Dict(ips),
            ) && info_matches(ips, info)),
            r matches Ok(info) ==> (bencode_wf(Bencode::BDict(*dict)) ==> (info.original
                matches Some(od) && crate::bencode::dict_hash_wf(od))),
    {
        let info_dict = match dict.get("info") {
            Some(element) => match element {
                Bencode::BDict(inner) => inner,
                _ => {
                    return Err(MetaInfoError::field_type("info"));
                },
            },
            None => {
                return Err(MetaInfoError::missing_field("info"));
            },
        };
        let piece_length = match MetaInfo::get_u64_or_error(info_dict, "piece length") {
            Ok(v) => v,
            Err(e) => {
                return Err(e);
            },
        };
        let private = match MetaInfo::get_u32_or_error(info_dict, "private") {
            Ok(v) => Some(v),
            Err(_) => None,
        };
        let pieces_bytes = match MetaInfo::get_bstring_or_error(info_dict, "pieces") {
            Ok(b) => b.to_bytes(),
            Err(e) => {
                return Err(e);
            },
        };
        if pieces_bytes.len() % 20 != 0 {
            return Err(MetaInfoError::invalid_data("pieces"));
        }
        let pieces = split_hashes(&pieces_bytes);
        let name = match MetaInfo::get_string_or_error(info_dict, "name") {
            Ok(s) => s,
            Err(e) => {
                return Err(e);
            },
        };
        // single-file form takes precedence: an integer `length`
        let mode_info = match MetaInfo::get_u64_or_error(info_dict, "length") {
            Ok(length) => {
                let md5_sum = match MetaInfo::get_bstring_or_error(info_dict, "md5sum") {
                    Ok(b) => Some(b.to_bytes()),
                    Err(_) => None,
                };
                ModeInfo::Single(SingleFileInfo { length, md5_sum })
            },
            Err(_) => {
                let file_list = match info_dict.get("files") {
                    Some(element) => match element {
                        Bencode::BList(blist) => blist,
                        _ => {
                            return Err(MetaInfoError::field_type("files"));
                        },
                    },
                    None => {
                        return Err(MetaInfoError::missing_field("files"));
                    },
                };
                let ghost entries = file_list@;
                proof {
                    crate::bencode::lemma_views_of_len(file_list.0@);
                }
                let mut files: Vec<(u64, Option<MD5Sum>, FPath)> = Vec::new();
                let mut i: usize = 0;
                #[verifier::loop_isolation(false)]
                while i < file_list.0.len()
                    invariant
                        i <= file_list.0@.len(),
                        entries == file_list@,
                        entries.len() == file_list.0@.len(),
                        i == files@.len(),
                        forall|j: int| 0 <= j < i ==> file_entry_ok(#[trigger] entries[j]),
                        forall|j: int|
                            0 <= j < i ==> (#[trigger] files@[j]).0 == entry_length(
                                entries[j],
                            ) as u64,
                    decreases file_list.0@.len() - i,
                {
                    proof {
                        crate::bencode::lemma_views_of_index(file_list.0@, i as int);
                    }
                    let fdict = match &file_list.0[i] {
                        Bencode::BDict(inner) => inner,
                        _ => {
                            proof {
                                assert(!file_entry_ok(entries[i as int]));
                                assert(pairs_get(info_dict@, "files".spec_bytes()) == Some(
                                    BencodeView::List(entries),
                                ));
                                assert(!(pairs_get(info_dict@, "length".spec_bytes()) matches Some(
                                    BencodeView::Int(_),
                                )));
                                assert(!(match pairs_get(info_dict@, "files".spec_bytes()) {
                                    Some(BencodeView::List(fs)) => forall|j: int|
                                        0 <= j < fs.len() ==> file_entry_ok(#[trigger] fs[j]),
                                    _ => false,
                                })) by {
                                    assert(entries[i as int] == (match pairs_get(
                                        info_dict@,
                                        "files".spec_bytes(),
                                    ) {
                                        Some(BencodeView::List(fs)) => fs[i as int],
                                        _ => vstd::pervasive::arbitrary(),
                                    }));
                                }
                                assert(!mode_ok(info_dict@));
                                assert(pairs_get(dict@, "info".spec_bytes()) == Some(
                                    BencodeView::Dict(info_dict@),
                                ));
                                assert(!info_ok(info_dict@));
                            }
                            return Err(MetaInfoError::field_type("files"));
                        },
                    };
                    let length = match MetaInfo::get_u64_or_error(fdict, "length") {
                        Ok(v) => v,
                        Err(e) => {
                            proof {
                                assert(entries[i as int] == BencodeView::Dict(fdict@));
                                assert(!file_entry_ok(entries[i as int]));
                                assert(pairs_get(info_dict@, "files".spec_bytes()) == Some(
                                    BencodeView::List(entries),
                                ));
                                assert(!(pairs_get(info_dict@, "length".spec_bytes()) matches Some(
                                    BencodeView::Int(_),
                                )));
                                assert(!(match pairs_get(info_dict@, "files".spec_bytes()) {
                                    Some(BencodeView::List(fs)) => forall|j: int|
                                        0 <= j < fs.len() ==> file_entry_ok(#[trigger] fs[j]),
                                    _ => false,
                                })) by {
                                    assert(entries[i as int] == (match pairs_get(
                                        info_dict@,
                                        "files".spec_bytes(),
                                    ) {
                                        Some(BencodeView::List(fs)) => fs[i as int],
                                        _ => vstd::pervasive::arbitrary(),
                                    }));
                                }
                                assert(!mode_ok(info_dict@));
                                assert(pairs_get(dict@, "info".spec_bytes()) == Some(
                                    BencodeView::Dict(info_dict@),
                                ));
                                assert(!info_ok(info_dict@));
                            }
                            return Err(e);
                        },
                    };
                    let md5_sum = match MetaInfo::get_bstring_or_error(fdict, "md5sum") {
                        Ok(b) => Some(b.to_bytes()),
                        Err(_) => None,
                    };
                    let path = match MetaInfo::get_path(fdict, "path") {
                        Ok(p) => p,
                        Err(e) => {
                            proof {
                                assert(entries[i as int] == BencodeView::Dict(fdict@));
                                assert(!file_entry_ok(entries[i as int]));
                                assert(pairs_get(info_dict@, "files".spec_bytes()) == Some(
                                    BencodeView::List(entries),
                                ));
                                assert(!mode_ok(info_dict@));
                                assert(pairs_get(dict@, "info".spec_bytes()) == Some(
                                    BencodeView::Dict(info_dict@),
                                ));
                                assert(!info_ok(info_dict@));
                            }
                            return Err(e);
                        },
                    };
                    files.push((length, md5_sum, path));
                    i += 1;
                }
                proof {
                    crate::bencode::lemma_views_of_len(file_list.0@);
                }
                ModeInfo::Multi(MultiFileInfo { files })
            },
        };
        Ok(FileInfo {
            piece_length,
            pieces,
            private,
            name,
            mode_info,
            original: Some(info_dict.duplicate()),
        })
    }
}

/// The declared length of one file record.
pub open spec fn entry_length(v: BencodeView) -> int {
    match v {
        BencodeView::Dict(d) => match pairs_get(d, "length".spec_bytes()) {
            Some(BencodeView::Int(n)) => n,
            _ => vstd::pervasive::arbitrary(),
        },
        _ => vstd::pervasive::arbitrary(),
    }
}

/// How a projected `FileInfo` relates to the dictionary it came from.
pub open spec fn info_matches(ips: Seq<(Seq<u8>, BencodeView)>, info: FileInfo) -> bool {
    &&& (pairs_get(ips, "piece length".spec_bytes()) matches Some(BencodeView::Int(pl))
        && info.piece_length == pl as u64)
    &&& (pairs_get(ips, "pieces".spec_bytes()) matches Some(BencodeView::Str(pb))
        && info.pieces@.len() == pb.len() / 20 && forall|i: int|
        0 <= i < info.pieces@.len() ==> (#[trigger] info.pieces@[i])@ == pb.subrange(
            20 * i,
            20 * i + 20,
        ))
    &&& vstd::utf8::encode_utf8(info.name@) == str_field_bytes(ips, "name".spec_bytes())
    &&& (info.original matches Some(od) && od@ == ips)
    &&& (match pairs_get(ips, "length".spec_bytes()) {
        Some(BencodeView::Int(n)) => info.mode_info matches ModeInfo::Single(sf) && sf.length == n
            as u64,
        _ => (pairs_get(ips, "files".spec_bytes()) matches Some(BencodeView::List(fs))
            && info.mode_info matches ModeInfo::Multi(m) && m.files@.len() == fs.len() && forall|
            j: int,
        | 0 <= j < fs.len() ==> (#[trigger] m.files@[j]).0 == entry_length(fs[j]) as u64),
    })
}

/// Splits a run of 20-byte digests.
fn split_hashes(bytes: &Vec<u8>) -> (r: Vec<SHA1Hash20b>)
    requires
        bytes@.len() % 20 == 0,
    ensures
        r@.len() == bytes@.len() / 20,
        forall|i: int|
            0 <= i < r@.len() ==> (#[trigger] r@[i])@ == bytes@.subrange(20 * i, 20 * i + 20),
    {
    let mut out: Vec<SHA1Hash20b> = Vec::new();
    let mut i: usize = 0;
    let count = bytes.len() / 20;
    #[verifier::loop_isolation(false)]
    while i < count
        invariant
            i == out@.len() <= count,
            count == bytes@.len() / 20,
            forall|j: int|
                0 <= j < i ==> (#[trigger] out@[j])@ == bytes@.subrange(20 * j, 20 * j + 20),
        decreases count - i,
    {
        proof {
            assert(20 * (i + 1) <= bytes@.len()) by (nonlinear_arith)
                requires
                    i < count,
                    count == bytes@.len() / 20,
                    bytes@.len() % 20 == 0,
            ;
        }
        let hash = vstd::slice::slice_to_vec(
            vstd::slice::slice_subrange(bytes.as_slice(), 20 * i, 20 * i + 20),
        );
        out.push(hash);
        i += 1;
    }
    out
}

} // verus!

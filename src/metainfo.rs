//! Torrent metadata: the strict mapping from a decoded dictionary to the
//! torrent descriptor.

use vstd::prelude::*;
use vstd::string::StringSliceAdditionalSpecFns;
use vstd::utf8::{decode_utf8, valid_utf8};
use crate::bencode::{
    BDICT_TYPE_NAME, BSTRING_TYPE_NAME, BVal, DecodeError, FieldError, ReadError, field_bytes,
    field_dict, field_int, field_list, field_str, get_bytes, get_dict, get_int, get_list, get_str,
    lookup, dict_get,
};
use crate::codec::{bdict, encode, utf8_error_of};
use crate::grammar::{encoding, spec_dict};
use crate::sha1bytes::{HASH_INPUT_LIMIT, SHA1Hash, SHA1Hashes, sha1_of};

verus! {

broadcast use vstd::utf8::encode_utf8_decode_utf8;

#[verifier::external_type_specification]
#[verifier::external_body]
pub struct ExUrl(url::Url);

#[verifier::external_type_specification]
#[verifier::external_body]
pub struct ExParseError(url::ParseError);

/// Whether url::Url::parse takes the text as an absolute URL.
pub uninterp spec fn url_accepts(s: Seq<char>) -> bool;

/// Relies on url::Url::parse: whether it succeeds depends on the text alone.
#[verifier::external_body]
fn parse_url(s: &str) -> (r: Result<url::Url, url::ParseError>)
    ensures
        r is Ok <==> url_accepts(s@),
{
    url::Url::parse(s)
}

pub const ROOT_KEY: &'static str = "_root_";

pub const ANNOUNCE_KEY: &'static str = "announce";

pub const INFO_KEY: &'static str = "info";

pub const PIECE_LENGTH_KEY: &'static str = "piece length";

pub const PIECES_KEY: &'static str = "pieces";

pub const LENGTH_KEY: &'static str = "length";

pub const NAME_KEY: &'static str = "name";

pub const FILES_KEY: &'static str = "files";

pub const PATH_KEY: &'static str = "path";

/// A torrent descriptor.
#[derive(Debug, PartialEq)]
pub struct Metainfo<'a> {
    pub info: Info<'a>,
    pub announce: url::Url,
    /// SHA-1 of the canonical encoding of the `info` dictionary.
    pub info_hash: SHA1Hash<'static>,
}

#[derive(Debug, PartialEq)]
pub struct Info<'a> {
    pub piece_length: i64,
    pub pieces: SHA1Hashes<'a>,
    pub mode: Mode<'a>,
}

/// One file, or a directory of files.
#[derive(Debug, PartialEq)]
pub enum Mode<'a> {
    Single { name: &'a str, length: i64 },
    Multi { name: &'a str, files: Vec<File<'a>> },
}

/// A file of a multi-file torrent: its length and its relative path, one
/// component per entry.
#[derive(Debug, PartialEq)]
pub struct File<'a> {
    pub length: i64,
    pub path: Vec<&'a str>,
}

#[derive(Debug, PartialEq)]
pub enum InfoError {
    ExtraBytes,
    MissingBytes,
    BencodeParseError,
    MissingKey(&'static str),
    BencodeValError { for_key: &'static str, err: ReadError },
    BadUrl(url::ParseError),
    HashesNotMultiple20Bytes(usize),
    /// A file's path has no components.
    EmptyPath,
    /// The `info` dictionary is too long to hash.
    InfoTooLarge,
}

pub struct FileView {
    pub length: i64,
    pub path: Seq<Seq<u8>>,
}

pub enum ModeView {
    Single { name: Seq<u8>, length: i64 },
    Multi { name: Seq<u8>, files: Seq<FileView> },
}

pub struct InfoView {
    pub piece_length: i64,
    pub pieces: Seq<u8>,
    pub mode: ModeView,
}

/// The bytes of each string.
pub open spec fn strs_view<'a>(s: Seq<&'a str>) -> Seq<Seq<u8>> {
    Seq::new(s.len(), |i: int| s[i].spec_bytes())
}

impl<'a> File<'a> {
    pub open spec fn view(&self) -> FileView {
        FileView { length: self.length, path: strs_view(self.path@) }
    }
}

pub open spec fn files_view<'a>(f: Seq<File<'a>>) -> Seq<FileView> {
    Seq::new(f.len(), |i: int| f[i].view())
}

impl<'a> Mode<'a> {
    pub open spec fn view(&self) -> ModeView {
        match self {
            Mode::Single { name, length } => ModeView::Single { name: name.spec_bytes(), length: *length },
            Mode::Multi { name, files } => ModeView::Multi {
                name: name.spec_bytes(),
                files: files_view(files@),
            },
        }
    }
}

impl<'a> Info<'a> {
    pub open spec fn view(&self) -> InfoView {
        InfoView { piece_length: self.piece_length, pieces: self.pieces.0@, mode: self.mode.view() }
    }
}

pub open spec fn field_err(e: FieldError) -> InfoError {
    match e {
        FieldError::MissingKey(k) => InfoError::MissingKey(k),
        FieldError::Invalid { for_key, err } => InfoError::BencodeValError { for_key, err },
    }
}

/// Path components after those in `acc`; the first that is not UTF-8 text
/// fails.
pub open spec fn spec_path<'a>(l: Seq<BVal<'a>>, acc: Seq<Seq<u8>>) -> Result<Seq<Seq<u8>>, InfoError>
    decreases l.len(),
{
    if l.len() == 0 {
        Ok(acc)
    } else {
        match l[0] {
            BVal::BString(b) => if valid_utf8(b@) {
                spec_path(l.drop_first(), acc.push(b@))
            } else {
                Err(
                    InfoError::BencodeValError {
                        for_key: PATH_KEY,
                        err: ReadError::BadString(utf8_error_of(b@)),
                    },
                )
            },
            v => Err(
                InfoError::BencodeValError { for_key: PATH_KEY, err: v.wrong_type(BSTRING_TYPE_NAME) },
            ),
        }
    }
}

pub open spec fn spec_components<'a>(l: Seq<BVal<'a>>) -> Result<Seq<Seq<u8>>, InfoError> {
    if l.len() == 0 {
        Err(InfoError::EmptyPath)
    } else {
        spec_path(l, Seq::empty())
    }
}

pub open spec fn spec_file<'a>(v: BVal<'a>) -> Result<FileView, InfoError> {
    match v {
        BVal::BDict(d) => match field_int(d@, LENGTH_KEY) {
            Err(e) => Err(field_err(e)),
            Ok(length) => match field_list(d@, PATH_KEY) {
                Err(e) => Err(field_err(e)),
                Ok(l) => match spec_components(l@) {
                    Err(e) => Err(e),
                    Ok(path) => Ok(FileView { length, path }),
                },
            },
        },
        _ => Err(InfoError::BencodeValError { for_key: FILES_KEY, err: v.wrong_type(BDICT_TYPE_NAME) }),
    }
}

/// The files described after those in `acc`; the first bad one fails.
pub open spec fn spec_files<'a>(l: Seq<BVal<'a>>, acc: Seq<FileView>) -> Result<Seq<FileView>, InfoError>
    decreases l.len(),
{
    if l.len() == 0 {
        Ok(acc)
    } else {
        match spec_file(l[0]) {
            Err(e) => Err(e),
            Ok(f) => spec_files(l.drop_first(), acc.push(f)),
        }
    }
}

/// A `length` entry makes a single-file torrent; without one, the torrent
/// lists its `files`.
pub open spec fn spec_mode<'a>(d: Seq<(&'a str, BVal<'a>)>) -> Result<ModeView, InfoError> {
    if lookup(d, LENGTH_KEY.spec_bytes()) is Some {
        match field_int(d, LENGTH_KEY) {
            Err(e) => Err(field_err(e)),
            Ok(length) => match field_str(d, NAME_KEY) {
                Err(e) => Err(field_err(e)),
                Ok(name) => Ok(ModeView::Single { name, length }),
            },
        }
    } else {
        match field_str(d, NAME_KEY) {
            Err(e) => Err(field_err(e)),
            Ok(name) => match field_list(d, FILES_KEY) {
                Err(e) => Err(field_err(e)),
                Ok(l) => match spec_files(l@, Seq::empty()) {
                    Err(e) => Err(e),
                    Ok(files) => Ok(ModeView::Multi { name, files }),
                },
            },
        }
    }
}

pub open spec fn spec_info<'a>(d: Seq<(&'a str, BVal<'a>)>) -> Result<InfoView, InfoError> {
    match field_int(d, PIECE_LENGTH_KEY) {
        Err(e) => Err(field_err(e)),
        Ok(piece_length) => match field_bytes(d, PIECES_KEY) {
            Err(e) => Err(field_err(e)),
            Ok(ps) => if ps@.len() % 20 != 0 {
                Err(InfoError::HashesNotMultiple20Bytes(ps@.len() as usize))
            } else {
                match spec_mode(d) {
                    Err(e) => Err(e),
                    Ok(mode) => Ok(InfoView { piece_length, pieces: ps@, mode }),
                }
            },
        },
    }
}

/// `r` is what decoding the descriptor held by `v` gives: the announce URL
/// first, then the `info` dictionary and its hash.
pub open spec fn metainfo_result<'a>(v: BVal<'a>, r: Result<Metainfo<'a>, InfoError>) -> bool {
    match v {
        BVal::BDict(d) => match field_str(d@, ANNOUNCE_KEY) {
            Err(e) => r == Err::<Metainfo<'a>, InfoError>(field_err(e)),
            Ok(a) => if !url_accepts(decode_utf8(a)) {
                r matches Err(InfoError::BadUrl(_))
            } else {
                match field_dict(d@, INFO_KEY) {
                    Err(e) => r == Err::<Metainfo<'a>, InfoError>(field_err(e)),
                    Ok(iv) => match spec_info(iv->BDict_0@) {
                        Err(e) => r == Err::<Metainfo<'a>, InfoError>(e),
                        Ok(info) => if encoding(iv.view()).len() >= HASH_INPUT_LIMIT {
                            r == Err::<Metainfo<'a>, InfoError>(InfoError::InfoTooLarge)
                        } else {
                            r matches Ok(m) && m.info.view() == info && m.info_hash@ == sha1_of(
                                encoding(iv.view()),
                            )
                        },
                    },
                }
            },
        },
        _ => r == Err::<Metainfo<'a>, InfoError>(
            InfoError::BencodeValError { for_key: ROOT_KEY, err: v.wrong_type(BDICT_TYPE_NAME) },
        ),
    }
}

fn field_error(e: FieldError) -> (r: InfoError)
    ensures
        r == field_err(e),
{
    match e {
        FieldError::MissingKey(k) => InfoError::MissingKey(k),
        FieldError::Invalid { for_key, err } => InfoError::BencodeValError { for_key, err },
    }
}

/// Decodes a torrent file: one dictionary filling the whole buffer.
pub fn parse<'a>(contents: &'a [u8]) -> (r: Result<Metainfo<'a>, InfoError>)
    ensures
        match spec_dict(contents@) {
            Ok((v, n)) => if n == contents@.len() {
                exists|b: BVal<'a>| b.view() == v && metainfo_result(b, r)
            } else {
                r == Err::<Metainfo<'a>, InfoError>(InfoError::ExtraBytes)
            },
            Err(DecodeError::Incomplete) => r == Err::<Metainfo<'a>, InfoError>(InfoError::MissingBytes),
            Err(_) => r == Err::<Metainfo<'a>, InfoError>(InfoError::BencodeParseError),
        },
{
    proof {
        crate::grammar::lemma_value_len(contents@, crate::grammar::MAX_DEPTH as nat);
    }
    match bdict(contents) {
        Ok((rest, bv)) => if rest.len() == 0 {
            metainfo_from_bval(bv)
        } else {
            Err(InfoError::ExtraBytes)
        },
        Err(DecodeError::Incomplete) => Err(InfoError::MissingBytes),
        Err(_) => Err(InfoError::BencodeParseError),
    }
}

/// Maps a decoded dictionary to a torrent descriptor.
pub fn metainfo_from_bval<'a>(bv: BVal<'a>) -> (r: Result<Metainfo<'a>, InfoError>)
    ensures
        metainfo_result(bv, r),
{
    let ghost v = bv;
    let m = match bv.as_bdict() {
        Ok(m) => m,
        Err(e) => {
            return Err(InfoError::BencodeValError { for_key: ROOT_KEY, err: e });
        },
    };
    let announce_str = match get_str(&m, ANNOUNCE_KEY) {
        Ok(s) => s,
        Err(e) => {
            return Err(field_error(e));
        },
    };
    let announce = match parse_url(announce_str) {
        Ok(u) => u,
        Err(e) => {
            return Err(InfoError::BadUrl(e));
        },
    };
    let info_val = match get_dict(&m, INFO_KEY) {
        Ok(i) => i,
        Err(e) => {
            return Err(field_error(e));
        },
    };
    let info = match info_val.as_bdict_ref() {
        Ok(d) => match info_from_dict(d) {
            Ok(i) => i,
            Err(e) => {
                return Err(e);
            },
        },
        Err(e) => {
            return Err(InfoError::BencodeValError { for_key: INFO_KEY, err: e });
        },
    };
    let bytes = encode(info_val);
    if bytes.len() as u64 >= HASH_INPUT_LIMIT {
        return Err(InfoError::InfoTooLarge);
    }
    let info_hash = SHA1Hash::from_bytes(bytes.as_slice());
    Ok(Metainfo { info, announce, info_hash })
}

pub fn info_from_dict<'a>(dict: &Vec<(&'a str, BVal<'a>)>) -> (r: Result<Info<'a>, InfoError>)
    ensures
        match spec_info(dict@) {
            Ok(i) => r matches Ok(x) && x.view() == i,
            Err(e) => r matches Err(x) && x == e,
        },
{
    let piece_length = match get_int(dict, PIECE_LENGTH_KEY) {
        Ok(p) => p,
        Err(e) => {
            return Err(field_error(e));
        },
    };
    let sha_bytes = match get_bytes(dict, PIECES_KEY) {
        Ok(b) => b,
        Err(e) => {
            return Err(field_error(e));
        },
    };
    let pieces = match shas_from_bytes(sha_bytes) {
        Ok(p) => p,
        Err(e) => {
            return Err(e);
        },
    };
    let mode = match mode_from_dict(dict) {
        Ok(m) => m,
        Err(e) => {
            return Err(e);
        },
    };
    Ok(Info { piece_length, pieces, mode })
}

pub fn shas_from_bytes<'a>(bytes: &'a [u8]) -> (r: Result<SHA1Hashes<'a>, InfoError>)
    ensures
        bytes@.len() % 20 != 0 ==> r == Err::<SHA1Hashes<'a>, InfoError>(
            InfoError::HashesNotMultiple20Bytes(bytes@.len() as usize),
        ),
        bytes@.len() % 20 == 0 ==> r == Ok::<SHA1Hashes<'a>, InfoError>(SHA1Hashes(bytes)),
{
    if bytes.len() % 20 != 0 {
        Err(InfoError::HashesNotMultiple20Bytes(bytes.len()))
    } else {
        Ok(SHA1Hashes(bytes))
    }
}

pub fn mode_from_dict<'a>(dict: &Vec<(&'a str, BVal<'a>)>) -> (r: Result<Mode<'a>, InfoError>)
    ensures
        match spec_mode(dict@) {
            Ok(m) => r matches Ok(x) && x.view() == m,
            Err(e) => r matches Err(x) && x == e,
        },
{
    if dict_get(dict, LENGTH_KEY).is_some() {
        let length = match get_int(dict, LENGTH_KEY) {
            Ok(l) => l,
            Err(e) => {
                return Err(field_error(e));
            },
        };
        let name = match get_str(dict, NAME_KEY) {
            Ok(n) => n,
            Err(e) => {
                return Err(field_error(e));
            },
        };
        return Ok(Mode::Single { name, length });
    }
    let name = match get_str(dict, NAME_KEY) {
        Ok(n) => n,
        Err(e) => {
            return Err(field_error(e));
        },
    };
    let file_dicts = match get_list(dict, FILES_KEY) {
        Ok(l) => l,
        Err(e) => {
            return Err(field_error(e));
        },
    };
    let mut files: Vec<File<'a>> = Vec::new();
    let mut i: usize = 0;
    assert(file_dicts@.skip(0) =~= file_dicts@);
    assert(files_view(files@) =~= Seq::<FileView>::empty());
    while i < file_dicts.len()
        invariant
            i <= file_dicts@.len(),
            spec_files(file_dicts@, Seq::empty()) == spec_files(
                file_dicts@.skip(i as int),
                files_view(files@),
            ),
            spec_mode(dict@) == match spec_files(file_dicts@, Seq::empty()) {
                Err(e) => Err(e),
                Ok(files) => Ok(ModeView::Multi { name: name.spec_bytes(), files }),
            },
        decreases file_dicts@.len() - i,
    {
        let ghost rest = file_dicts@.skip(i as int);
        assert(rest[0] == file_dicts@[i as int]);
        assert(rest.drop_first() =~= file_dicts@.skip(i + 1));
        let f = match file_from_bval(&file_dicts[i]) {
            Ok(f) => f,
            Err(e) => {
                return Err(e);
            },
        };
        let ghost before = files_view(files@);
        files.push(f);
        assert(files_view(files@) =~= before.push(f.view()));
        i = i + 1;
    }
    assert(file_dicts@.skip(i as int) =~= Seq::<BVal<'a>>::empty());
    Ok(Mode::Multi { name, files })
}

pub fn file_from_bval<'a>(v: &BVal<'a>) -> (r: Result<File<'a>, InfoError>)
    ensures
        match spec_file(*v) {
            Ok(f) => r matches Ok(x) && x.view() == f,
            Err(e) => r matches Err(x) && x == e,
        },
{
    let file_dict = match v.as_bdict_ref() {
        Ok(d) => d,
        Err(e) => {
            return Err(InfoError::BencodeValError { for_key: FILES_KEY, err: e });
        },
    };
    let length = match get_int(file_dict, LENGTH_KEY) {
        Ok(l) => l,
        Err(e) => {
            return Err(field_error(e));
        },
    };
    let ps = match get_list(file_dict, PATH_KEY) {
        Ok(p) => p,
        Err(e) => {
            return Err(field_error(e));
        },
    };
    match components_to_path(ps) {
        Ok(path) => Ok(File { length, path }),
        Err(e) => Err(e),
    }
}

/// The components of a file's path, each of which must be UTF-8 text.
pub fn components_to_path<'a>(ps: &Vec<BVal<'a>>) -> (r: Result<Vec<&'a str>, InfoError>)
    ensures
        match spec_components(ps@) {
            Ok(p) => r matches Ok(x) && strs_view(x@) == p,
            Err(e) => r matches Err(x) && x == e,
        },
{
    if ps.len() == 0 {
        return Err(InfoError::EmptyPath);
    }
    let mut strs: Vec<&'a str> = Vec::new();
    let mut i: usize = 0;
    assert(ps@.skip(0) =~= ps@);
    assert(strs_view(strs@) =~= Seq::<Seq<u8>>::empty());
    while i < ps.len()
        invariant
            i <= ps@.len(),
            ps@.len() > 0,
            spec_components(ps@) == spec_path(ps@.skip(i as int), strs_view(strs@)),
        decreases ps@.len() - i,
    {
        let ghost rest = ps@.skip(i as int);
        assert(rest[0] == ps@[i as int]);
        assert(rest.drop_first() =~= ps@.skip(i + 1));
        let s = match ps[i].as_bstring_str() {
            Ok(s) => s,
            Err(e) => {
                return Err(InfoError::BencodeValError { for_key: PATH_KEY, err: e });
            },
        };
        let ghost before = strs_view(strs@);
        strs.push(s);
        assert(strs_view(strs@) =~= before.push(s.spec_bytes()));
        i = i + 1;
    }
    assert(ps@.skip(i as int) =~= Seq::<BVal<'a>>::empty());
    Ok(strs)
}

/// A torrent dictionary without `announce` fails naming `announce`. With a
/// usable announce URL but no `info`, it fails naming `info`. Never is a
/// missing key reported as any other error.
pub proof fn lemma_missing_top_key<'a>(d: Vec<(&'a str, BVal<'a>)>, r: Result<Metainfo<'a>, InfoError>)
    requires
        metainfo_result(BVal::BDict(d), r),
    ensures
        lookup(d@, ANNOUNCE_KEY.spec_bytes()) is None ==> r == Err::<Metainfo<'a>, InfoError>(
            InfoError::MissingKey(ANNOUNCE_KEY),
        ),
        (field_str(d@, ANNOUNCE_KEY) is Ok && url_accepts(decode_utf8(field_str(d@, ANNOUNCE_KEY)->Ok_0)) && lookup(
            d@,
            INFO_KEY.spec_bytes(),
        ) is None) ==> r == Err::<Metainfo<'a>, InfoError>(InfoError::MissingKey(INFO_KEY)),
{
}

/// An `info` dictionary fails naming the first required key it lacks:
/// `piece length`, then `pieces`; then `name`, and without a `length`,
/// `files`.
pub proof fn lemma_missing_info_key<'a>(d: Seq<(&'a str, BVal<'a>)>)
    ensures
        lookup(d, PIECE_LENGTH_KEY.spec_bytes()) is None ==> spec_info(d) == Err::<InfoView, InfoError>(
            InfoError::MissingKey(PIECE_LENGTH_KEY),
        ),
        (field_int(d, PIECE_LENGTH_KEY) is Ok && lookup(d, PIECES_KEY.spec_bytes()) is None)
            ==> spec_info(d) == Err::<InfoView, InfoError>(InfoError::MissingKey(PIECES_KEY)),
        (field_int(d, PIECE_LENGTH_KEY) is Ok && field_bytes(d, PIECES_KEY) is Ok
            && field_bytes(d, PIECES_KEY)->Ok_0@.len() % 20 == 0 && field_int(d, LENGTH_KEY) is Ok && lookup(
            d,
            NAME_KEY.spec_bytes(),
        ) is None) ==> spec_info(d) == Err::<InfoView, InfoError>(InfoError::MissingKey(NAME_KEY)),
        (field_int(d, PIECE_LENGTH_KEY) is Ok && field_bytes(d, PIECES_KEY) is Ok
            && field_bytes(d, PIECES_KEY)->Ok_0@.len() % 20 == 0 && lookup(d, LENGTH_KEY.spec_bytes()) is None && field_str(
            d,
            NAME_KEY,
        ) is Ok && lookup(d, FILES_KEY.spec_bytes()) is None) ==> spec_info(d) == Err::<
            InfoView,
            InfoError,
        >(InfoError::MissingKey(FILES_KEY)),
{
}

/// A `pieces` string whose length is not a multiple of 20 fails with that
/// length, once `piece length` was read.
pub proof fn lemma_pieces_not_multiple<'a>(d: Seq<(&'a str, BVal<'a>)>)
    ensures
        (field_int(d, PIECE_LENGTH_KEY) is Ok && field_bytes(d, PIECES_KEY) is Ok
            && field_bytes(d, PIECES_KEY)->Ok_0@.len() % 20 != 0) ==> spec_info(d) == Err::<InfoView, InfoError>(
            InfoError::HashesNotMultiple20Bytes(field_bytes(d, PIECES_KEY)->Ok_0@.len() as usize),
        ),
{
}

/// Sum of the files' lengths.
pub open spec fn files_total(f: Seq<FileView>) -> int
    decreases f.len(),
{
    if f.len() == 0 {
        0
    } else {
        files_total(f.drop_last()) + f.last().length
    }
}

/// Bytes in the whole torrent.
pub open spec fn mode_total(m: ModeView) -> int {
    match m {
        ModeView::Single { length, .. } => length as int,
        ModeView::Multi { files, .. } => files_total(files),
    }
}

impl<'a> Mode<'a> {
    /// The number of bytes in the whole torrent, when it is neither negative
    /// nor beyond `u64`.
    pub fn total_length(&self) -> (r: Option<u64>)
        ensures
            r is Some <==> 0 <= mode_total(self.view()) <= u64::MAX,
            r matches Some(n) ==> n == mode_total(self.view()),
    {
        match self {
            Mode::Single { length, .. } => if *length >= 0 {
                Some(*length as u64)
            } else {
                None
            },
            Mode::Multi { files, .. } => {
                let ghost fv = files_view(files@);
                let mut sum: i128 = 0;
                let mut i: usize = 0;
                while i < files.len()
                    invariant
                        i <= files@.len(),
                        fv == files_view(files@),
                        sum == files_total(fv.take(i as int)),
                        -(i as int) * 9223372036854775808 <= sum <= (i as int) * 9223372036854775808,
                    decreases files@.len() - i,
                {
                    assert(fv.take(i + 1).drop_last() =~= fv.take(i as int));
                    assert(fv.take(i + 1).last() == files@[i as int].view());
                    sum = sum + files[i].length as i128;
                    i = i + 1;
                }
                assert(fv.take(i as int) =~= fv);
                if 0 <= sum && sum <= u64::MAX as i128 {
                    Some(sum as u64)
                } else {
                    None
                }
            },
        }
    }
}

} // verus!

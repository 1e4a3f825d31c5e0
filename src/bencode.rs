//! The bencode value model and its typed accessors.

use vstd::prelude::*;
use vstd::string::StringSliceAdditionalSpecFns;
use vstd::utf8::valid_utf8;
use crate::codec::{utf8_error_of, utf8_str};

pub use crate::codec::{bdict, bint, blist, bstring, bval, decode, encode};

verus! {

/// The error std gives for bytes that are not UTF-8.
#[verifier::external_type_specification]
#[verifier::external_body]
pub struct ExUtf8Error(std::str::Utf8Error);

/// Why a typed accessor refused a value.
#[derive(Debug, PartialEq)]
pub enum ReadError {
    /// The value is of another kind than the one asked for.
    WrongType { found: &'static str, expected: &'static str },
    /// The byte string is not UTF-8.
    BadString(std::str::Utf8Error),
}

pub const BSTRING_TYPE_NAME: &'static str = "BString";

pub const BINT_TYPE_NAME: &'static str = "BInt";

pub const BLIST_TYPE_NAME: &'static str = "BList";

pub const BDICT_TYPE_NAME: &'static str = "BDict";

/// Mathematical model of a bencode value.
pub enum Value {
    Bytes(Seq<u8>),
    Int(int),
    List(Seq<Value>),
    Dict(Seq<(Seq<u8>, Value)>),
}

/// Why a buffer could not be decoded.
#[derive(Debug, PartialEq, Eq, Clone, Copy, Structural)]
pub enum DecodeError {
    /// The buffer ends before the value does: more bytes may complete it.
    Incomplete,
    /// The bytes do not follow the grammar.
    Malformed,
    /// Lists and dictionaries are nested deeper than the decoder accepts.
    TooDeep,
    /// A complete value was decoded but bytes follow it.
    TrailingBytes,
}

/// A decoded bencode value. Byte strings and dictionary keys borrow from the
/// buffer they were decoded from. The decoder keeps dictionary entries
/// sorted by key, each key once: when a key repeats, its last value stands.
#[derive(Debug, PartialEq)]
pub enum BVal<'a> {
    BString(&'a [u8]),
    BInt(i64),
    BList(Vec<BVal<'a>>),
    BDict(Vec<(&'a str, BVal<'a>)>),
}

/// The models of a sequence of values.
pub open spec fn items_view<'a>(l: Seq<BVal<'a>>) -> Seq<Value> {
    Seq::new(l.len(), |i: int| l[i].view())
}

/// The models of dictionary entries: each key as its UTF-8 bytes.
pub open spec fn entries_view<'a>(d: Seq<(&'a str, BVal<'a>)>) -> Seq<(Seq<u8>, Value)> {
    Seq::new(d.len(), |i: int| (d[i].0.spec_bytes(), d[i].1.view()))
}

impl<'a> BVal<'a> {
    pub open spec fn view(&self) -> Value
        decreases self,
    {
        match self {
            BVal::BString(s) => Value::Bytes(s@),
            BVal::BInt(i) => Value::Int(*i as int),
            BVal::BList(l) => Value::List(
                Seq::new(l@.len(), |i: int| if 0 <= i < l.len() { l[i].view() } else { Value::Int(0) }),
            ),
            BVal::BDict(d) => Value::Dict(
                Seq::new(
                    d@.len(),
                    |i: int|
                        if 0 <= i < d.len() {
                            (d[i].0.spec_bytes(), d[i].1.view())
                        } else {
                            (Seq::empty(), Value::Int(0))
                        },
                ),
            ),
        }
    }
}

pub proof fn lemma_list_view<'a>(v: BVal<'a>)
    requires
        v is BList,
    ensures
        v.view() == Value::List(items_view(v->BList_0@)),
{
    assert(v.view()->List_0 =~= items_view(v->BList_0@));
}

pub proof fn lemma_dict_view<'a>(v: BVal<'a>)
    requires
        v is BDict,
    ensures
        v.view() == Value::Dict(entries_view(v->BDict_0@)),
{
    assert(v.view()->Dict_0 =~= entries_view(v->BDict_0@));
}

impl<'a> BVal<'a> {
    /// The name of this value's kind.
    pub open spec fn kind_name(&self) -> &'static str {
        match self {
            BVal::BString(_) => BSTRING_TYPE_NAME,
            BVal::BInt(_) => BINT_TYPE_NAME,
            BVal::BList(_) => BLIST_TYPE_NAME,
            BVal::BDict(_) => BDICT_TYPE_NAME,
        }
    }

    /// The error for asking this value for the kind `expected`.
    pub open spec fn wrong_type(&self, expected: &'static str) -> ReadError {
        ReadError::WrongType { found: self.kind_name(), expected }
    }

    fn report_error(&self, expected: &'static str) -> (r: ReadError)
        ensures
            r == self.wrong_type(expected),
    {
        match self {
            BVal::BString(_) => ReadError::WrongType { found: BSTRING_TYPE_NAME, expected },
            BVal::BInt(_) => ReadError::WrongType { found: BINT_TYPE_NAME, expected },
            BVal::BList(_) => ReadError::WrongType { found: BLIST_TYPE_NAME, expected },
            BVal::BDict(_) => ReadError::WrongType { found: BDICT_TYPE_NAME, expected },
        }
    }

    fn report<T>(&self, expected: &'static str) -> (r: Result<T, ReadError>)
        ensures
            r == Err::<T, ReadError>(self.wrong_type(expected)),
    {
        Err(self.report_error(expected))
    }

    /// The byte string as text.
    pub fn as_bstring_str(&self) -> (r: Result<&'a str, ReadError>)
        ensures
            match self {
                BVal::BString(b) => if valid_utf8(b@) {
                    r matches Ok(s) && s.spec_bytes() == b@
                } else {
                    r == Err::<&'a str, ReadError>(ReadError::BadString(utf8_error_of(b@)))
                },
                _ => r == Err::<&'a str, ReadError>(self.wrong_type(BSTRING_TYPE_NAME)),
            },
    {
        match self {
            BVal::BString(bs) => match utf8_str(bs) {
                Ok(s) => Ok(s),
                Err(e) => Err(ReadError::BadString(e)),
            },
            _ => self.report(BSTRING_TYPE_NAME),
        }
    }

    /// The bytes of a byte string.
    pub fn as_bstring_bytes(&self) -> (r: Result<&'a [u8], ReadError>)
        ensures
            match self {
                BVal::BString(b) => r == Ok::<&'a [u8], ReadError>(*b),
                _ => r == Err::<&'a [u8], ReadError>(self.wrong_type(BSTRING_TYPE_NAME)),
            },
    {
        match self {
            BVal::BString(s) => Ok(s),
            _ => self.report(BSTRING_TYPE_NAME),
        }
    }

    /// The number held by an integer.
    pub fn as_bint(&self) -> (r: Result<i64, ReadError>)
        ensures
            match self {
                BVal::BInt(i) => r == Ok::<i64, ReadError>(*i),
                _ => r == Err::<i64, ReadError>(self.wrong_type(BINT_TYPE_NAME)),
            },
    {
        match self {
            BVal::BInt(i) => Ok(*i),
            _ => self.report(BINT_TYPE_NAME),
        }
    }

    /// The items of a list.
    pub fn as_blist(&self) -> (r: Result<&Vec<BVal<'a>>, ReadError>)
        ensures
            match self {
                BVal::BList(l) => r matches Ok(x) && *x == *l,
                _ => r matches Err(e) && e == self.wrong_type(BLIST_TYPE_NAME),
            },
    {
        match self {
            BVal::BList(v) => Ok(v),
            _ => self.report(BLIST_TYPE_NAME),
        }
    }

    /// The entries of a dictionary.
    pub fn as_bdict_ref(&self) -> (r: Result<&Vec<(&'a str, BVal<'a>)>, ReadError>)
        ensures
            match self {
                BVal::BDict(d) => r matches Ok(x) && *x == *d,
                _ => r matches Err(e) && e == self.wrong_type(BDICT_TYPE_NAME),
            },
    {
        match self {
            BVal::BDict(m) => Ok(m),
            _ => self.report(BDICT_TYPE_NAME),
        }
    }

    /// The entries of a dictionary, taken out of the value.
    pub fn as_bdict(self) -> (r: Result<Vec<(&'a str, BVal<'a>)>, ReadError>)
        ensures
            match self {
                BVal::BDict(d) => r == Ok::<Vec<(&'a str, BVal<'a>)>, ReadError>(d),
                _ => r == Err::<Vec<(&'a str, BVal<'a>)>, ReadError>(self.wrong_type(BDICT_TYPE_NAME)),
            },
    {
        match self {
            BVal::BDict(m) => Ok(m),
            _ => self.report(BDICT_TYPE_NAME),
        }
    }
}

/// The value of the first entry whose key has the bytes `key`.
pub open spec fn lookup<'a>(d: Seq<(&'a str, BVal<'a>)>, key: Seq<u8>) -> Option<BVal<'a>>
    decreases d.len(),
{
    if d.len() == 0 {
        None
    } else if d[0].0.spec_bytes() == key {
        Some(d[0].1)
    } else {
        lookup(d.drop_first(), key)
    }
}

/// Looks up `key` among dictionary entries.
pub fn dict_get<'a, 'b>(d: &'b Vec<(&'a str, BVal<'a>)>, key: &str) -> (r: Option<&'b BVal<'a>>)
    ensures
        match lookup(d@, key.spec_bytes()) {
            Some(v) => r matches Some(x) && *x == v,
            None => r is None,
        },
{
    let kb = key.as_bytes();
    let mut i: usize = 0;
    assert(d@.skip(0) =~= d@);
    while i < d.len()
        invariant
            i <= d@.len(),
            kb@ == key.spec_bytes(),
            lookup(d@, key.spec_bytes()) == lookup(d@.skip(i as int), key.spec_bytes()),
        decreases d@.len() - i,
    {
        let ghost rest = d@.skip(i as int);
        assert(rest[0] == d@[i as int]);
        if crate::codec::compare_bytes(d[i].0.as_bytes(), kb) == 0 {
            return Some(&d[i].1);
        }
        assert(rest.drop_first() =~= d@.skip(i + 1));
        i = i + 1;
    }
    None
}

/// Why a dictionary entry could not be read as the kind asked for.
#[derive(Debug, PartialEq)]
pub enum FieldError {
    MissingKey(&'static str),
    Invalid { for_key: &'static str, err: ReadError },
}

pub open spec fn field_int<'a>(d: Seq<(&'a str, BVal<'a>)>, key: &'static str) -> Result<i64, FieldError> {
    match lookup(d, key.spec_bytes()) {
        None => Err(FieldError::MissingKey(key)),
        Some(BVal::BInt(i)) => Ok(i),
        Some(v) => Err(FieldError::Invalid { for_key: key, err: v.wrong_type(BINT_TYPE_NAME) }),
    }
}

/// The bytes of a byte-string entry that must be UTF-8.
pub open spec fn field_str<'a>(d: Seq<(&'a str, BVal<'a>)>, key: &'static str) -> Result<Seq<u8>, FieldError> {
    match lookup(d, key.spec_bytes()) {
        None => Err(FieldError::MissingKey(key)),
        Some(BVal::BString(b)) => if valid_utf8(b@) {
            Ok(b@)
        } else {
            Err(FieldError::Invalid { for_key: key, err: ReadError::BadString(utf8_error_of(b@)) })
        },
        Some(v) => Err(FieldError::Invalid { for_key: key, err: v.wrong_type(BSTRING_TYPE_NAME) }),
    }
}

pub open spec fn field_bytes<'a>(d: Seq<(&'a str, BVal<'a>)>, key: &'static str) -> Result<&'a [u8], FieldError> {
    match lookup(d, key.spec_bytes()) {
        None => Err(FieldError::MissingKey(key)),
        Some(BVal::BString(b)) => Ok(b),
        Some(v) => Err(FieldError::Invalid { for_key: key, err: v.wrong_type(BSTRING_TYPE_NAME) }),
    }
}

pub open spec fn field_list<'a>(d: Seq<(&'a str, BVal<'a>)>, key: &'static str) -> Result<Vec<BVal<'a>>, FieldError> {
    match lookup(d, key.spec_bytes()) {
        None => Err(FieldError::MissingKey(key)),
        Some(BVal::BList(l)) => Ok(l),
        Some(v) => Err(FieldError::Invalid { for_key: key, err: v.wrong_type(BLIST_TYPE_NAME) }),
    }
}

pub open spec fn field_dict<'a>(d: Seq<(&'a str, BVal<'a>)>, key: &'static str) -> Result<
    BVal<'a>,
    FieldError,
> {
    match lookup(d, key.spec_bytes()) {
        None => Err(FieldError::MissingKey(key)),
        Some(BVal::BDict(e)) => Ok(BVal::BDict(e)),
        Some(v) => Err(FieldError::Invalid { for_key: key, err: v.wrong_type(BDICT_TYPE_NAME) }),
    }
}

/// The integer stored under `key`.
pub fn get_int<'a>(d: &Vec<(&'a str, BVal<'a>)>, key: &'static str) -> (r: Result<i64, FieldError>)
    ensures
        r == field_int(d@, key),
{
    match dict_get(d, key) {
        None => Err(FieldError::MissingKey(key)),
        Some(v) => match v.as_bint() {
            Ok(i) => Ok(i),
            Err(e) => Err(FieldError::Invalid { for_key: key, err: e }),
        },
    }
}

/// The text stored under `key`.
pub fn get_str<'a>(d: &Vec<(&'a str, BVal<'a>)>, key: &'static str) -> (r: Result<&'a str, FieldError>)
    ensures
        match field_str(d@, key) {
            Ok(b) => r matches Ok(s) && s.spec_bytes() == b,
            Err(e) => r matches Err(x) && x == e,
        },
{
    match dict_get(d, key) {
        None => Err(FieldError::MissingKey(key)),
        Some(v) => match v.as_bstring_str() {
            Ok(s) => Ok(s),
            Err(e) => Err(FieldError::Invalid { for_key: key, err: e }),
        },
    }
}

/// The bytes stored under `key`.
pub fn get_bytes<'a>(d: &Vec<(&'a str, BVal<'a>)>, key: &'static str) -> (r: Result<&'a [u8], FieldError>)
    ensures
        r == field_bytes(d@, key),
{
    match dict_get(d, key) {
        None => Err(FieldError::MissingKey(key)),
        Some(v) => match v.as_bstring_bytes() {
            Ok(b) => Ok(b),
            Err(e) => Err(FieldError::Invalid { for_key: key, err: e }),
        },
    }
}

/// The list stored under `key`.
pub fn get_list<'a, 'b>(d: &'b Vec<(&'a str, BVal<'a>)>, key: &'static str) -> (r: Result<
    &'b Vec<BVal<'a>>,
    FieldError,
>)
    ensures
        match field_list(d@, key) {
            Ok(l) => r matches Ok(x) && *x == l,
            Err(e) => r matches Err(x) && x == e,
        },
{
    match dict_get(d, key) {
        None => Err(FieldError::MissingKey(key)),
        Some(v) => match v.as_blist() {
            Ok(l) => Ok(l),
            Err(e) => Err(FieldError::Invalid { for_key: key, err: e }),
        },
    }
}

/// The dictionary stored under `key`, as the value that holds it.
pub fn get_dict<'a, 'b>(d: &'b Vec<(&'a str, BVal<'a>)>, key: &'static str) -> (r: Result<
    &'b BVal<'a>,
    FieldError,
>)
    ensures
        match field_dict(d@, key) {
            Ok(v) => r matches Ok(x) && *x == v,
            Err(e) => r matches Err(x) && x == e,
        },
{
    match dict_get(d, key) {
        None => Err(FieldError::MissingKey(key)),
        Some(v) => match v {
            BVal::BDict(_) => Ok(v),
            _ => Err(FieldError::Invalid { for_key: key, err: v.report_error(BDICT_TYPE_NAME) }),
        },
    }
}

} // verus!

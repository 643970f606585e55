//! The MessagePack form of a byte-array key and of a string key.
//!
//! MessagePack's own decode does not separate `bin` from `str` in either
//! direction: a generic reader takes a `str` where bytes are asked for, and any
//! `bin` that holds valid UTF-8 where text is. A bytes key and a string key are
//! different keys, so a relabelled payload would decode into the wrong variant
//! and then answer `0` for every key it holds.
//!
//! [`WireBytes`] and [`WireString`] close both halves: each is written as its
//! own MessagePack family and refuses the other, so neither a `str`-keyed
//! payload relabelled as bytes nor a UTF-8 `bin`-keyed payload relabelled as
//! text decodes.

use vstd::prelude::*;
use vstd::string::*;

verus! {

/// A value as a MessagePack reader sees it, as far as keys go.
#[derive(Debug)]
pub enum WireValue {
    /// A `bin`.
    Bin(Vec<u8>),
    /// A `str`.
    Str(String),
    /// Anything else.
    Other,
}

/// What a [`WireValue`] holds.
pub enum ValueModel {
    Bin(Seq<u8>),
    Str(Seq<char>),
    Other,
}

impl View for WireValue {
    type V = ValueModel;

    open spec fn view(&self) -> ValueModel {
        match self {
            WireValue::Bin(bytes) => ValueModel::Bin(bytes@),
            WireValue::Str(text) => ValueModel::Str(text@),
            WireValue::Other => ValueModel::Other,
        }
    }
}

/// Why a value is not the key that was asked for.
#[derive(Clone, Copy, Debug, PartialEq, Eq)]
pub enum WireKeyError {
    /// A bytes key was written as a `str`.
    StrForBytes,
    /// A string key was written as a `bin`.
    BinForString,
    /// A bytes key was written as neither.
    NotBytes,
    /// A string key was written as neither.
    NotString,
}

/// The text of a [`WireKeyError`]. For a value of neither family, it names
/// what was expected.
pub open spec fn error_text(error: WireKeyError) -> Seq<char> {
    match error {
        WireKeyError::StrForBytes => "ASAPv1: a bytes key must be msgpack bin, not str"@,
        WireKeyError::BinForString => "ASAPv1: a string key must be msgpack str, not bin"@,
        WireKeyError::NotBytes => "a msgpack bin value"@,
        WireKeyError::NotString => "a msgpack str value"@,
    }
}

impl WireKeyError {
    /// What is wrong, in words.
    pub fn message(&self) -> (text: String)
        ensures
            text@ == error_text(*self),
    {
        match self {
            WireKeyError::StrForBytes => {
                "ASAPv1: a bytes key must be msgpack bin, not str".to_owned()
            },
            WireKeyError::BinForString => {
                "ASAPv1: a string key must be msgpack str, not bin".to_owned()
            },
            WireKeyError::NotBytes => "a msgpack bin value".to_owned(),
            WireKeyError::NotString => "a msgpack str value".to_owned(),
        }
    }
}

/// A byte-array key: a `bin`, and a `bin` only.
#[derive(Debug)]
pub struct WireBytes(pub Vec<u8>);

impl View for WireBytes {
    type V = Seq<u8>;

    open spec fn view(&self) -> Seq<u8> {
        self.0@
    }
}

/// What reading a bytes key from a value gives.
pub open spec fn read_bytes(value: ValueModel) -> Result<Seq<u8>, WireKeyError> {
    match value {
        ValueModel::Bin(bytes) => Ok(bytes),
        ValueModel::Str(_) => Err(WireKeyError::StrForBytes),
        ValueModel::Other => Err(WireKeyError::NotBytes),
    }
}

impl WireBytes {
    /// Takes the bytes back out.
    pub fn into_vec(self) -> (bytes: Vec<u8>)
        ensures
            bytes@ == self@,
    {
        self.0
    }

    /// The value to write.
    pub fn to_wire(self) -> (value: WireValue)
        ensures
            value@ == ValueModel::Bin(self@),
    {
        WireValue::Bin(self.0)
    }

    /// Reads a key from a value.
    pub fn from_wire(value: WireValue) -> (key: Result<Self, WireKeyError>)
        ensures
            match key {
                Ok(key) => read_bytes(value@) == Ok::<Seq<u8>, WireKeyError>(key@),
                Err(error) => read_bytes(value@) == Err::<Seq<u8>, WireKeyError>(error),
            },
    {
        match value {
            WireValue::Bin(bytes) => Ok(WireBytes(bytes)),
            WireValue::Str(_) => Err(WireKeyError::StrForBytes),
            WireValue::Other => Err(WireKeyError::NotBytes),
        }
    }
}

/// A text key: a `str`, and a `str` only.
#[derive(Debug)]
pub struct WireString(pub String);

impl View for WireString {
    type V = Seq<char>;

    open spec fn view(&self) -> Seq<char> {
        self.0@
    }
}

/// What reading a string key from a value gives.
pub open spec fn read_string(value: ValueModel) -> Result<Seq<char>, WireKeyError> {
    match value {
        ValueModel::Bin(_) => Err(WireKeyError::BinForString),
        ValueModel::Str(text) => Ok(text),
        ValueModel::Other => Err(WireKeyError::NotString),
    }
}

impl WireString {
    /// Takes the string back out.
    pub fn into_string(self) -> (text: String)
        ensures
            text@ == self@,
    {
        self.0
    }

    /// The value to write.
    pub fn to_wire(self) -> (value: WireValue)
        ensures
            value@ == ValueModel::Str(self@),
    {
        WireValue::Str(self.0)
    }

    /// Reads a key from a value.
    pub fn from_wire(value: WireValue) -> (key: Result<Self, WireKeyError>)
        ensures
            match key {
                Ok(key) => read_string(value@) == Ok::<Seq<char>, WireKeyError>(key@),
                Err(error) => read_string(value@) == Err::<Seq<char>, WireKeyError>(error),
            },
    {
        match value {
            WireValue::Bin(_) => Err(WireKeyError::BinForString),
            WireValue::Str(text) => Ok(WireString(text)),
            WireValue::Other => Err(WireKeyError::NotString),
        }
    }
}

/// A key is read back as it was written, under its own family.
pub proof fn law_keys_round_trip(bytes: Seq<u8>, text: Seq<char>)
    ensures
        read_bytes(ValueModel::Bin(bytes)) == Ok::<Seq<u8>, WireKeyError>(bytes),
        read_string(ValueModel::Str(text)) == Ok::<Seq<char>, WireKeyError>(text),
{
}

/// A relabelled key does not decode, in either direction: no value is read
/// both as a bytes key and as a string key.
pub proof fn law_families_do_not_mix(value: ValueModel)
    ensures
        read_bytes(value) is Err || read_string(value) is Err,
        value is Str ==> read_bytes(value) == Err::<Seq<u8>, WireKeyError>(
            WireKeyError::StrForBytes,
        ),
        value is Bin ==> read_string(value) == Err::<Seq<char>, WireKeyError>(
            WireKeyError::BinForString,
        ),
{
}

/// A key is read from its own family alone, unchanged, and each refusal says
/// which family was met.
pub proof fn law_keys_come_from_their_family(value: ValueModel)
    ensures
        read_bytes(value) is Ok <==> value is Bin,
        read_string(value) is Ok <==> value is Str,
        value matches ValueModel::Bin(bytes) ==> read_bytes(value) == Ok::<Seq<u8>, WireKeyError>(
            bytes,
        ),
        value matches ValueModel::Str(text) ==> read_string(value) == Ok::<
            Seq<char>,
            WireKeyError,
        >(text),
        value is Other ==> read_bytes(value) == Err::<Seq<u8>, WireKeyError>(
            WireKeyError::NotBytes,
        ) && read_string(value) == Err::<Seq<char>, WireKeyError>(WireKeyError::NotString),
{
}

} // verus!

//! Metainfo documents: the `info` dictionary, its name and its identifier.

use vstd::prelude::*;
use vstd::utf8::{decode_utf8, valid_utf8};
use crate::digest::{hex_lower, sha1_digest, ContentId, DIGEST_LIMIT};
use crate::encode::{canonical, write_dict};
use crate::roundtrip::lemma_canonical_injective;
use crate::model::{
    has_key, keys_ascending, lemma_lookup_with_entry, lookup, with_entry, Bencode, Entries,
};
use crate::value::{Dict, Value};

verus! {

/// Why a value is no metainfo document, or why it got no identifier.
#[derive(Clone, Copy, Debug, PartialEq, Eq)]
pub enum MetainfoError {
    /// The document is not a dictionary.
    NotADict,
    /// The document has no `info` entry.
    MissingInfo,
    /// The `info` entry is not a dictionary.
    InfoNotADict,
    /// The `info` dictionary has no `name` entry.
    MissingName,
    /// The `name` entry is not a byte string.
    NameNotByteString,
    /// The canonical encoding of the `info` dictionary has `DIGEST_LIMIT`
    /// bytes or more.
    InfoTooLarge,
}

/// The key `info`.
pub open spec fn info_key() -> Seq<u8> {
    seq![0x69u8, 0x6eu8, 0x66u8, 0x6fu8]
}

/// The key `name`.
pub open spec fn name_key() -> Seq<u8> {
    seq![0x6eu8, 0x61u8, 0x6du8, 0x65u8]
}

/// The text that `String::from_utf8_lossy` makes of `bytes`.
pub uninterp spec fn utf8_lossy(bytes: Seq<u8>) -> Seq<char>;

/// The `info` dictionary of a document, or why the document has none that
/// can be used: it must be a dictionary itself and hold a byte string
/// under `name`.
pub open spec fn info_of(document: Bencode) -> Result<Entries, MetainfoError> {
    match document {
        Bencode::Dict(top) => match lookup(top, info_key()) {
            None => Err(MetainfoError::MissingInfo),
            Some(Bencode::Dict(info)) => match lookup(info, name_key()) {
                None => Err(MetainfoError::MissingName),
                Some(Bencode::Bytes(_)) => Ok(info),
                Some(_) => Err(MetainfoError::NameNotByteString),
            },
            Some(_) => Err(MetainfoError::InfoNotADict),
        },
        _ => Err(MetainfoError::NotADict),
    }
}

/// The bytes held under `name` in an `info` dictionary.
pub open spec fn name_of(info: Entries) -> Seq<u8> {
    match lookup(info, name_key()) {
        Some(Bencode::Bytes(name)) => name,
        _ => Seq::empty(),
    }
}

/// The bytes that are hashed for an `info` dictionary: its canonical
/// encoding.
pub open spec fn hashed_bytes(info: Entries) -> Seq<u8> {
    canonical(Bencode::Dict(info))
}

/// The display name and the identifier in hexadecimal that a document
/// gets, or why it gets none.
pub open spec fn identity_of(document: Bencode) -> Result<(Seq<char>, Seq<char>), MetainfoError> {
    match info_of(document) {
        Err(e) => Err(e),
        Ok(info) => if hashed_bytes(info).len() >= DIGEST_LIMIT {
            Err(MetainfoError::InfoTooLarge)
        } else {
            Ok((utf8_lossy(name_of(info)), hex_lower(sha1_digest(hashed_bytes(info)))))
        },
    }
}

/// `String::from_utf8_lossy`: the text that `bytes` hold in UTF-8, with
/// U+FFFD in place of what is not valid. Valid UTF-8 is handed back as the
/// text it encodes.
#[verifier::external_body]
fn lossy_text(bytes: &[u8]) -> (text: String)
    ensures
        text@ == utf8_lossy(bytes@),
        valid_utf8(bytes@) ==> text@ == decode_utf8(bytes@),
{
    String::from_utf8_lossy(bytes).into_owned()
}

/// A metainfo document seen through its `info` dictionary, which holds a
/// byte string under `name`.
pub struct Metainfo<'a> {
    info: &'a Dict,
    name: &'a Vec<u8>,
}

impl<'a> View for Metainfo<'a> {
    type V = Entries;

    closed spec fn view(&self) -> Entries {
        self.info@
    }
}

impl<'a> Metainfo<'a> {
    #[verifier::type_invariant]
    spec fn named(&self) -> bool {
        lookup(self.info@, name_key()) == Some(Bencode::Bytes(self.name@))
    }

    /// Reads `document` as a metainfo document.
    pub fn from_value(document: &'a Value) -> (res: Result<Metainfo<'a>, MetainfoError>)
        ensures
            match res {
                Ok(metainfo) => info_of(document@) == Ok::<Entries, MetainfoError>(metainfo@),
                Err(e) => info_of(document@) == Err::<Entries, MetainfoError>(e),
            },
    {
        let top = match document {
            Value::Dict(top) => top,
            _ => {
                return Err(MetainfoError::NotADict);
            },
        };
        let info_key_bytes: [u8; 4] = [0x69, 0x6e, 0x66, 0x6f];
        let name_key_bytes: [u8; 4] = [0x6e, 0x61, 0x6d, 0x65];
        assert(info_key_bytes@ =~= info_key());
        assert(name_key_bytes@ =~= name_key());
        let info = match top.get(info_key_bytes.as_slice()) {
            None => {
                return Err(MetainfoError::MissingInfo);
            },
            Some(Value::Dict(info)) => info,
            Some(_) => {
                return Err(MetainfoError::InfoNotADict);
            },
        };
        match info.get(name_key_bytes.as_slice()) {
            None => Err(MetainfoError::MissingName),
            Some(Value::ByteString(name)) => Ok(Metainfo { info, name }),
            Some(_) => Err(MetainfoError::NameNotByteString),
        }
    }

    /// The bytes held under `name`.
    pub fn name(&self) -> (name: &'a Vec<u8>)
        ensures
            name@ == name_of(self@),
    {
        proof {
            use_type_invariant(self);
        }
        self.name
    }

    /// The name as text for display, with U+FFFD in place of bytes that
    /// are not valid UTF-8.
    pub fn display_name(&self) -> (text: String)
        ensures
            text@ == utf8_lossy(name_of(self@)),
            valid_utf8(name_of(self@)) ==> text@ == decode_utf8(name_of(self@)),
    {
        proof {
            use_type_invariant(self);
        }
        lossy_text(self.name.as_slice())
    }

    /// The canonical encoding of the `info` dictionary, with the keys of
    /// every dictionary in ascending order.
    pub fn canonical_info(&self) -> (bytes: Vec<u8>)
        ensures
            bytes@ == hashed_bytes(self@),
            Bencode::Dict(self@).wf(),
    {
        let mut bytes: Vec<u8> = Vec::new();
        write_dict(self.info, &mut bytes);
        assert(bytes@ =~= hashed_bytes(self@));
        bytes
    }

    /// The identifier of the content: the SHA-1 digest of the canonical
    /// encoding of the `info` dictionary.
    pub fn content_id(&self) -> (res: Result<ContentId, MetainfoError>)
        ensures
            match res {
                Ok(id) => hashed_bytes(self@).len() < DIGEST_LIMIT && id@ == sha1_digest(
                    hashed_bytes(self@),
                ),
                Err(e) => hashed_bytes(self@).len() >= DIGEST_LIMIT && e
                    == MetainfoError::InfoTooLarge,
            },
    {
        let bytes = self.canonical_info();
        match ContentId::of(bytes.as_slice()) {
            Some(id) => Ok(id),
            None => Err(MetainfoError::InfoTooLarge),
        }
    }
}

/// The display name of a metainfo document and the identifier of its
/// content as 40 hexadecimal digits.
pub fn extract_identity(document: &Value) -> (res: Result<(String, String), MetainfoError>)
    ensures
        match res {
            Ok((name, id)) => identity_of(document@) == Ok::<
                (Seq<char>, Seq<char>),
                MetainfoError,
            >((name@, id@)),
            Err(e) => identity_of(document@) == Err::<(Seq<char>, Seq<char>), MetainfoError>(e),
        },
        res matches Ok((_, id)) ==> id@.len() == 40,
{
    let metainfo = match Metainfo::from_value(document) {
        Ok(metainfo) => metainfo,
        Err(e) => {
            return Err(e);
        },
    };
    let id = match metainfo.content_id() {
        Ok(id) => id,
        Err(e) => {
            return Err(e);
        },
    };
    Ok((metainfo.display_name(), id.to_hex()))
}

/// The identity of a document depends on its `info` entry alone: two
/// documents that hold the same value under `info`, or both none, get the
/// same name and identifier, or fail alike.
pub proof fn lemma_identity_depends_on_info(a: Entries, b: Entries)
    requires
        lookup(a, info_key()) == lookup(b, info_key()),
    ensures
        identity_of(Bencode::Dict(a)) == identity_of(Bencode::Dict(b)),
{
}

/// An entry beside `info` does not change the identity of a document,
/// wherever among the others it is put.
pub proof fn lemma_identity_ignores_other_entries(
    document: Entries,
    key: Seq<u8>,
    value: Bencode,
)
    requires
        keys_ascending(document),
        !has_key(document, key),
        key != info_key(),
    ensures
        identity_of(Bencode::Dict(with_entry(document, key, value))) == identity_of(
            Bencode::Dict(document),
        ),
{
    lemma_lookup_with_entry(document, key, value, info_key());
}

/// The bytes that are hashed tell `info` dictionaries apart: two of them
/// with the same canonical encoding are the same.
pub proof fn lemma_hashed_bytes_tell_apart(a: Entries, b: Entries)
    requires
        Bencode::Dict(a).wf(),
        Bencode::Dict(b).wf(),
        hashed_bytes(a) == hashed_bytes(b),
    ensures
        a == b,
{
    lemma_canonical_injective(Bencode::Dict(a), Bencode::Dict(b));
}

} // verus!

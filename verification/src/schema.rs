//! The record classes and the fields that each schema version declares for
//! them. A version, once declared, is never changed; a new one is added.

use crate::envelope::{
    envelope_bytes, frame, lemma_envelope_round_trip, open_envelope, unframe, ENVELOPE_HEAD,
    MAX_PAYLOAD_LEN,
};
use crate::error::CacheError;
use crate::fields::{
    all_writable, decode_fields, decode_payload, encode_fields, kinds_of,
    lemma_fields_round_trip, payload_bytes, values, Field, FieldKind, FieldValue,
};
use crate::wire::{get_u16, lemma_u16_found, u16_at, u16_le};
use vstd::prelude::*;

verus! {

/// The class of the records in one cache file.
#[derive(Clone, Copy, Debug, PartialEq, Eq, Structural)]
pub enum RecordClass {
    /// What the release monitor knows of an upstream project.
    Release,
    /// What a feed says of an upstream project.
    Rss,
}

/// The tag under which the class `Release` is written.
pub const RELEASE_TAG: u16 = 1;

/// The tag under which the class `Rss` is written.
pub const RSS_TAG: u16 = 2;

/// The newest schema version that this library knows.
pub const NEWEST_VERSION: u16 = 1;

/// The tag under which a class is written.
pub open spec fn tag_of(class: RecordClass) -> u16 {
    match class {
        RecordClass::Release => RELEASE_TAG,
        RecordClass::Rss => RSS_TAG,
    }
}

/// The class that a tag stands for.
pub open spec fn class_of(tag: u16) -> Option<RecordClass> {
    if tag == RELEASE_TAG {
        Some(RecordClass::Release)
    } else if tag == RSS_TAG {
        Some(RecordClass::Rss)
    } else {
        None
    }
}

/// The kinds of the fields that a schema declares, in their order; nothing
/// for a class and version that this library does not know.
pub open spec fn schema(class: RecordClass, version: u16) -> Option<Seq<FieldKind>> {
    if version != 1 {
        None
    } else {
        match class {
            RecordClass::Release => Some(seq![FieldKind::Number, FieldKind::Text, FieldKind::Text]),
            RecordClass::Rss => Some(seq![FieldKind::Text, FieldKind::Text]),
        }
    }
}

/// The names of the fields that a schema declares, in their order; nothing
/// for a class and version that this library does not know.
pub open spec fn schema_names(class: RecordClass, version: u16) -> Option<Seq<Seq<char>>> {
    if version != 1 {
        None
    } else {
        match class {
            RecordClass::Release => Some(
                seq!["upstream_id"@, "upstream_name"@, "latest_version"@],
            ),
            RecordClass::Rss => Some(seq!["rss_url"@, "latest_version"@]),
        }
    }
}

/// The texts of the names.
pub open spec fn name_texts(names: Seq<&'static str>) -> Seq<Seq<char>> {
    Seq::new(names.len(), |i: int| names[i]@)
}

/// The value of a record: its fields in their envelope.
pub open spec fn value_bytes(version: u16, vs: Seq<FieldValue>) -> Seq<u8> {
    envelope_bytes(version, payload_bytes(vs))
}

/// The version and the fields that a value holds, or why it holds none: a
/// value too short for its head is corrupt; a version that the class does not
/// have is unsupported; a payload of another length than announced, or not
/// made of exactly the fields of the schema, is corrupt.
pub open spec fn decode_value(class: RecordClass, data: Seq<u8>) -> Result<
    (u16, Seq<FieldValue>),
    CacheError,
> {
    if data.len() < ENVELOPE_HEAD {
        Err(CacheError::CorruptCache)
    } else {
        match schema(class, u16_at(data, 0)) {
            None => Err(CacheError::UnsupportedSchemaVersion),
            Some(kinds) => match open_envelope(data) {
                None => Err(CacheError::CorruptCache),
                Some((version, payload)) => match decode_payload(kinds, payload) {
                    None => Err(CacheError::CorruptCache),
                    Some(vs) => Ok((version, vs)),
                },
            },
        }
    }
}

impl RecordClass {
    /// The tag under which the class is written.
    pub fn tag(self) -> (tag: u16)
        ensures
            tag == tag_of(self),
            class_of(tag) == Some(self),
    {
        match self {
            RecordClass::Release => RELEASE_TAG,
            RecordClass::Rss => RSS_TAG,
        }
    }

    /// The class that a tag stands for.
    pub fn from_tag(tag: u16) -> (class: Option<RecordClass>)
        ensures
            class == class_of(tag),
    {
        if tag == RELEASE_TAG {
            Some(RecordClass::Release)
        } else if tag == RSS_TAG {
            Some(RecordClass::Rss)
        } else {
            None
        }
    }
}

/// The kinds of the fields that a schema declares.
pub fn schema_of(class: RecordClass, version: u16) -> (kinds: Option<Vec<FieldKind>>)
    ensures
        match kinds {
            Some(k) => schema(class, version) == Some(k@),
            None => schema(class, version).is_none(),
        },
{
    if version != 1 {
        return None;
    }
    let mut kinds: Vec<FieldKind> = Vec::new();
    match class {
        RecordClass::Release => {
            kinds.push(FieldKind::Number);
            kinds.push(FieldKind::Text);
            kinds.push(FieldKind::Text);
            assert(kinds@ =~= seq![FieldKind::Number, FieldKind::Text, FieldKind::Text]);
        },
        RecordClass::Rss => {
            kinds.push(FieldKind::Text);
            kinds.push(FieldKind::Text);
            assert(kinds@ =~= seq![FieldKind::Text, FieldKind::Text]);
        },
    }
    Some(kinds)
}

/// The names of the fields that a schema declares: one name for each field.
pub fn field_names(class: RecordClass, version: u16) -> (names: Option<Vec<&'static str>>)
    ensures
        match names {
            Some(n) => {
                &&& schema_names(class, version) == Some(name_texts(n@))
                &&& schema(class, version).is_some()
                &&& n@.len() == schema(class, version).unwrap().len()
            },
            None => schema_names(class, version).is_none() && schema(class, version).is_none(),
        },
{
    if version != 1 {
        return None;
    }
    let mut names: Vec<&'static str> = Vec::new();
    match class {
        RecordClass::Release => {
            names.push("upstream_id");
            names.push("upstream_name");
            names.push("latest_version");
            assert(name_texts(names@) =~= seq![
                "upstream_id"@,
                "upstream_name"@,
                "latest_version"@,
            ]);
        },
        RecordClass::Rss => {
            names.push("rss_url");
            names.push("latest_version");
            assert(name_texts(names@) =~= seq!["rss_url"@, "latest_version"@]);
        },
    }
    Some(names)
}

/// Whether the fields are of the kinds `kinds`, in their order.
pub fn fits_schema(kinds: &Vec<FieldKind>, fields: &Vec<Field>) -> (fit: bool)
    ensures
        fit == (kinds_of(values(fields@)) == kinds@),
{
    if kinds.len() != fields.len() {
        return false;
    }
    let mut i: usize = 0;
    while i < fields.len()
        invariant
            kinds@.len() == fields@.len(),
            i <= fields@.len(),
            forall|k: int| 0 <= k < i ==> kinds_of(values(fields@))[k] == kinds@[k],
        decreases fields@.len() - i,
    {
        let kind = match &fields[i] {
            Field::Number(_) => FieldKind::Number,
            Field::Text(_) => FieldKind::Text,
        };
        assert(kind == kinds_of(values(fields@))[i as int]);
        if kind != kinds[i] {
            return false;
        }
        i = i + 1;
    }
    assert(kinds_of(values(fields@)) =~= kinds@);
    true
}

/// Writes the value of a record of the given class and schema version.
///
/// Fails with `UnsupportedSchemaVersion` when the class has no such version
/// or the fields are not those that the schema declares; else with
/// `FileTooLarge` when a text or the payload is longer than a length can say.
pub fn encode_value(class: RecordClass, version: u16, fields: &Vec<Field>) -> (r: Result<
    Vec<u8>,
    CacheError,
>)
    ensures
        match r {
            Ok(value) => {
                &&& schema(class, version) == Some(kinds_of(values(fields@)))
                &&& all_writable(values(fields@))
                &&& payload_bytes(values(fields@)).len() <= MAX_PAYLOAD_LEN
                &&& value@ == value_bytes(version, values(fields@))
            },
            Err(e) => if schema(class, version) != Some(kinds_of(values(fields@))) {
                e == CacheError::UnsupportedSchemaVersion
            } else {
                &&& e == CacheError::FileTooLarge
                &&& (!all_writable(values(fields@)) || payload_bytes(values(fields@)).len()
                    > MAX_PAYLOAD_LEN)
            },
        },
{
    let kinds = match schema_of(class, version) {
        Some(k) => k,
        None => {
            return Err(CacheError::UnsupportedSchemaVersion);
        },
    };
    if !fits_schema(&kinds, fields) {
        return Err(CacheError::UnsupportedSchemaVersion);
    }
    let payload = match encode_fields(fields) {
        Ok(p) => p,
        Err(e) => {
            return Err(e);
        },
    };
    frame(version, payload.as_slice())
}

/// Reads the version and the fields out of the value of a record of the
/// given class.
pub fn read_value(class: RecordClass, data: &[u8]) -> (r: Result<(u16, Vec<Field>), CacheError>)
    ensures
        match r {
            Ok((version, fields)) => decode_value(class, data@) == Ok::<
                (u16, Seq<FieldValue>),
                CacheError,
            >((version, values(fields@))),
            Err(e) => decode_value(class, data@) == Err::<(u16, Seq<FieldValue>), CacheError>(e),
        },
{
    if data.len() < ENVELOPE_HEAD {
        return Err(CacheError::CorruptCache);
    }
    let kinds = match schema_of(class, get_u16(data, 0)) {
        Some(k) => k,
        None => {
            return Err(CacheError::UnsupportedSchemaVersion);
        },
    };
    let (version, payload) = match unframe(data) {
        Ok(pair) => pair,
        Err(e) => {
            return Err(e);
        },
    };
    match decode_fields(&kinds, payload.as_slice()) {
        Ok(fields) => Ok((version, fields)),
        Err(e) => Err(e),
    }
}

/// Decoding the value written from `vs` gives the version and `vs` back.
/// With any bytes after it, decoding fails as corrupt.
pub proof fn lemma_value_round_trip(
    class: RecordClass,
    version: u16,
    vs: Seq<FieldValue>,
    extra: Seq<u8>,
)
    requires
        schema(class, version) == Some(kinds_of(vs)),
        all_writable(vs),
        payload_bytes(vs).len() <= MAX_PAYLOAD_LEN,
    ensures
        extra.len() == 0 ==> decode_value(class, value_bytes(version, vs) + extra) == Ok::<
            (u16, Seq<FieldValue>),
            CacheError,
        >((version, vs)),
        extra.len() > 0 ==> decode_value(class, value_bytes(version, vs) + extra) == Err::<
            (u16, Seq<FieldValue>),
            CacheError,
        >(CacheError::CorruptCache),
{
    let data = value_bytes(version, vs) + extra;
    assert(data.subrange(0, 2) =~= u16_le(version));
    lemma_u16_found(data, 0, version);
    lemma_envelope_round_trip(version, payload_bytes(vs), extra);
    lemma_fields_round_trip(vs, Seq::empty());
    assert(payload_bytes(vs) + Seq::<u8>::empty() =~= payload_bytes(vs));
}

} // verus!

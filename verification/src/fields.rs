//! The fields of a record: how they are laid out in a payload, one after the
//! other without tags, and how a payload is taken apart again.

use crate::chunks::{
    chunk_start, concat, lemma_chunk_found, lemma_concat_all, lemma_concat_step,
};
use crate::error::CacheError;
use crate::wire::{copy_range, get_u32, lemma_u32_found, put_bytes, put_u32, u32_at, u32_le};
use vstd::prelude::*;
use vstd::utf8::{
    decode_utf8, decode_utf8_encode_utf8, encode_utf8, encode_utf8_decode_utf8,
    encode_utf8_valid_utf8, valid_utf8,
};

verus! {

/// What a field holds.
#[derive(Clone, Copy, Debug, PartialEq, Eq, Structural)]
pub enum FieldKind {
    /// A number of thirty-two bits, four bytes, least significant first.
    Number,
    /// A text: the number of its bytes, then its bytes in UTF-8.
    Text,
}

/// One field of a record.
#[derive(Clone, Debug, PartialEq, Eq)]
pub enum Field {
    Number(u32),
    Text(String),
}

/// A field as a mathematical value.
pub enum FieldValue {
    Number(u32),
    Text(Seq<char>),
}

impl View for Field {
    type V = FieldValue;

    open spec fn view(&self) -> FieldValue {
        match self {
            Field::Number(n) => FieldValue::Number(*n),
            Field::Text(s) => FieldValue::Text(s@),
        }
    }
}

/// The fields as mathematical values.
pub open spec fn values(fields: Seq<Field>) -> Seq<FieldValue> {
    Seq::new(fields.len(), |i: int| fields[i]@)
}

/// The kind of a field.
pub open spec fn kind_of(v: FieldValue) -> FieldKind {
    match v {
        FieldValue::Number(_) => FieldKind::Number,
        FieldValue::Text(_) => FieldKind::Text,
    }
}

/// The kinds of the fields, in their order.
pub open spec fn kinds_of(vs: Seq<FieldValue>) -> Seq<FieldKind> {
    Seq::new(vs.len(), |i: int| kind_of(vs[i]))
}

/// A field as it lies in a payload.
pub open spec fn field_bytes(v: FieldValue) -> Seq<u8> {
    match v {
        FieldValue::Number(n) => u32_le(n),
        FieldValue::Text(s) => u32_le(encode_utf8(s).len() as u32) + encode_utf8(s),
    }
}

/// The fields as they lie in a payload, one chunk each.
pub open spec fn field_chunks(vs: Seq<FieldValue>) -> Seq<Seq<u8>> {
    Seq::new(vs.len(), |i: int| field_bytes(vs[i]))
}

/// The payload that holds the fields `vs`.
pub open spec fn payload_bytes(vs: Seq<FieldValue>) -> Seq<u8> {
    concat(field_chunks(vs))
}

/// A field can be written: a text has no more bytes than a length can say.
pub open spec fn writable(v: FieldValue) -> bool {
    match v {
        FieldValue::Number(_) => true,
        FieldValue::Text(s) => encode_utf8(s).len() <= 0xFFFF_FFFF,
    }
}

/// All the fields can be written.
pub open spec fn all_writable(vs: Seq<FieldValue>) -> bool {
    forall|i: int| 0 <= i < vs.len() ==> writable(#[trigger] vs[i])
}

/// The field of kind `kind` that begins at `at`, and where it ends; nothing
/// if the bytes run out or a text is not UTF-8.
pub open spec fn field_at(kind: FieldKind, data: Seq<u8>, at: int) -> Option<(FieldValue, int)> {
    if at < 0 || at + 4 > data.len() {
        None
    } else {
        match kind {
            FieldKind::Number => Some((FieldValue::Number(u32_at(data, at)), at + 4)),
            FieldKind::Text => {
                let end = at + 4 + u32_at(data, at);
                if end > data.len() || !valid_utf8(data.subrange(at + 4, end)) {
                    None
                } else {
                    Some((FieldValue::Text(decode_utf8(data.subrange(at + 4, end))), end))
                }
            },
        }
    }
}

/// The fields of the kinds `kinds`, from the `k`-th on, that lie one after
/// the other from `at` to the end of the bytes; nothing if a field cannot be
/// read or bytes are left over.
pub open spec fn parse_fields(kinds: Seq<FieldKind>, data: Seq<u8>, k: int, at: int) -> Option<
    Seq<FieldValue>,
>
    decreases kinds.len() - k,
{
    if k >= kinds.len() {
        if at == data.len() {
            Some(Seq::empty())
        } else {
            None
        }
    } else {
        match field_at(kinds[k], data, at) {
            None => None,
            Some((v, next)) => match parse_fields(kinds, data, k + 1, next) {
                None => None,
                Some(rest) => Some(seq![v] + rest),
            },
        }
    }
}

/// The fields that a payload holds under the kinds `kinds`.
pub open spec fn decode_payload(kinds: Seq<FieldKind>, data: Seq<u8>) -> Option<Seq<FieldValue>> {
    parse_fields(kinds, data, 0, 0)
}

/// Turns bytes into a text with `String::from_utf8`. The standard library
/// returns the text that the bytes spell in UTF-8, and fails exactly when
/// they are not UTF-8.
#[verifier::external_body]
fn text_from_utf8(bytes: Vec<u8>) -> (r: Option<String>)
    ensures
        match r {
            Some(s) => valid_utf8(bytes@) && s@ == decode_utf8(bytes@),
            None => !valid_utf8(bytes@),
        },
{
    match String::from_utf8(bytes) {
        Ok(s) => Some(s),
        Err(_) => None,
    }
}

/// Writes the fields into a payload, in their order.
///
/// Fails with `FileTooLarge`, and only then, when a text has more bytes than
/// a length can say.
pub fn encode_fields(fields: &Vec<Field>) -> (r: Result<Vec<u8>, CacheError>)
    ensures
        match r {
            Ok(payload) => all_writable(values(fields@)) && payload@ == payload_bytes(
                values(fields@),
            ),
            Err(e) => e == CacheError::FileTooLarge && !all_writable(values(fields@)),
        },
{
    let ghost vs = values(fields@);
    let ghost chunks = field_chunks(vs);
    let mut out: Vec<u8> = Vec::new();
    let mut i: usize = 0;
    proof {
        assert(chunks.take(0).len() == 0);
    }
    while i < fields.len()
        invariant
            vs == values(fields@),
            chunks == field_chunks(vs),
            i <= fields@.len(),
            out@ == concat(chunks.take(i as int)),
            forall|k: int| 0 <= k < i ==> writable(#[trigger] vs[k]),
        decreases fields@.len() - i,
    {
        proof {
            lemma_concat_step(chunks, i as int);
            assert(vs[i as int] == fields@[i as int]@);
        }
        match &fields[i] {
            Field::Number(n) => {
                put_u32(&mut out, *n);
            },
            Field::Text(s) => {
                let bytes = s.as_str().as_bytes();
                if bytes.len() > 0xFFFF_FFFF {
                    return Err(CacheError::FileTooLarge);
                }
                put_u32(&mut out, bytes.len() as u32);
                put_bytes(&mut out, bytes);
            },
        }
        proof {
            assert(out@ =~= concat(chunks.take(i as int)) + chunks[i as int]);
        }
        i = i + 1;
    }
    proof {
        lemma_concat_all(chunks);
    }
    Ok(out)
}

/// Reads the field of kind `kind` that begins at `at`.
fn read_field(kind: FieldKind, data: &[u8], at: usize) -> (r: Option<(Field, usize)>)
    ensures
        match r {
            Some((f, next)) => field_at(kind, data@, at as int) == Some((f@, next as int)),
            None => field_at(kind, data@, at as int).is_none(),
        },
{
    let size = data.len();
    if size < 4 || at > size - 4 {
        return None;
    }
    let n = get_u32(data, at);
    match kind {
        FieldKind::Number => Some((Field::Number(n), at + 4)),
        FieldKind::Text => {
            if n as u64 > (size - 4 - at) as u64 {
                return None;
            }
            let end: usize = at + 4 + n as usize;
            let bytes = copy_range(data, at + 4, end);
            match text_from_utf8(bytes) {
                None => None,
                Some(s) => Some((Field::Text(s), end)),
            }
        },
    }
}

/// Takes a payload apart into fields of the kinds `kinds`, in their order.
///
/// Fails with `CorruptCache`, and only then, when the bytes run out before
/// the kinds do, a text is not UTF-8, or bytes are left over.
pub fn decode_fields(kinds: &Vec<FieldKind>, data: &[u8]) -> (r: Result<Vec<Field>, CacheError>)
    ensures
        match r {
            Ok(fields) => decode_payload(kinds@, data@) == Some(values(fields@)),
            Err(e) => e == CacheError::CorruptCache && decode_payload(kinds@, data@).is_none(),
        },
{
    let mut out: Vec<Field> = Vec::new();
    let mut k: usize = 0;
    let mut at: usize = 0;
    while k < kinds.len()
        invariant
            k <= kinds@.len(),
            match parse_fields(kinds@, data@, k as int, at as int) {
                None => decode_payload(kinds@, data@).is_none(),
                Some(rest) => decode_payload(kinds@, data@) == Some(values(out@) + rest),
            },
        decreases kinds@.len() - k,
    {
        match read_field(kinds[k], data, at) {
            None => {
                assert(parse_fields(kinds@, data@, k as int, at as int).is_none());
                return Err(CacheError::CorruptCache);
            },
            Some((f, next)) => {
                let ghost before = values(out@);
                let ghost v = f@;
                out.push(f);
                proof {
                    assert(values(out@) =~= before.push(v));
                    match parse_fields(kinds@, data@, k + 1, next as int) {
                        None => {},
                        Some(rest) => {
                            assert(before + (seq![v] + rest) =~= values(out@) + rest);
                        },
                    }
                }
                at = next;
                k = k + 1;
            },
        }
    }
    if at != data.len() {
        return Err(CacheError::CorruptCache);
    }
    proof {
        assert(values(out@) + Seq::<FieldValue>::empty() =~= values(out@));
    }
    Ok(out)
}

/// A field is read back from where it was written.
proof fn lemma_field_found(v: FieldValue, data: Seq<u8>, at: int)
    requires
        writable(v),
        0 <= at,
        at + field_bytes(v).len() <= data.len(),
        data.subrange(at, at + field_bytes(v).len()) == field_bytes(v),
    ensures
        field_at(kind_of(v), data, at) == Some((v, at + field_bytes(v).len())),
{
    let w = data.subrange(at, at + field_bytes(v).len());
    match v {
        FieldValue::Number(n) => {
            assert(data.subrange(at, at + 4) =~= w);
            lemma_u32_found(data, at, n);
        },
        FieldValue::Text(s) => {
            let b = encode_utf8(s);
            assert(data.subrange(at, at + 4) =~= w.subrange(0, 4));
            assert(w.subrange(0, 4) =~= u32_le(b.len() as u32));
            lemma_u32_found(data, at, b.len() as u32);
            let n = b.len() as int;
            assert(data.subrange(at + 4, at + 4 + n) =~= w.subrange(4, 4 + n));
            assert(w.subrange(4, 4 + n) =~= b);
            encode_utf8_valid_utf8(s);
            encode_utf8_decode_utf8(s);
        },
    }
}

/// Parsing what was written, from field `k` on, gives those fields back if
/// nothing follows them, and fails if something does.
proof fn lemma_parse_written(vs: Seq<FieldValue>, extra: Seq<u8>, k: int)
    requires
        all_writable(vs),
        0 <= k <= vs.len(),
    ensures
        parse_fields(
            kinds_of(vs),
            payload_bytes(vs) + extra,
            k,
            chunk_start(field_chunks(vs), k),
        ) == (if extra.len() == 0 {
            Some(vs.skip(k))
        } else {
            None
        }),
    decreases vs.len() - k,
{
    let chunks = field_chunks(vs);
    let data = payload_bytes(vs) + extra;
    let at = chunk_start(chunks, k);
    lemma_concat_all(chunks);
    if k == vs.len() {
        assert(vs.skip(k) =~= Seq::<FieldValue>::empty());
    } else {
        lemma_chunk_found(chunks, k);
        lemma_concat_step(chunks, k);
        assert(data.subrange(at, at + chunks[k].len()) =~= concat(chunks).subrange(
            at,
            at + chunks[k].len(),
        ));
        lemma_field_found(vs[k], data, at);
        lemma_parse_written(vs, extra, k + 1);
        assert(seq![vs[k]] + vs.skip(k + 1) =~= vs.skip(k));
    }
}

/// Decoding the payload written from `vs` gives `vs` back. With any bytes
/// after it, decoding fails.
pub proof fn lemma_fields_round_trip(vs: Seq<FieldValue>, extra: Seq<u8>)
    requires
        all_writable(vs),
    ensures
        extra.len() == 0 ==> decode_payload(kinds_of(vs), payload_bytes(vs) + extra) == Some(vs),
        extra.len() > 0 ==> decode_payload(kinds_of(vs), payload_bytes(vs) + extra).is_none(),
{
    assert(field_chunks(vs).take(0).len() == 0);
    lemma_parse_written(vs, extra, 0);
    assert(vs.skip(0) =~= vs);
}

} // verus!

//! The envelope round every value: the schema version, the length of the
//! payload, the payload, and nothing after it.

use crate::error::CacheError;
use crate::wire::{
    copy_range, get_u16, get_u32, lemma_u16_found, lemma_u32_found, put_bytes, put_u16, put_u32,
    u16_at, u16_le, u32_at, u32_le,
};
use vstd::prelude::*;

verus! {

/// The number of bytes before the payload.
pub const ENVELOPE_HEAD: usize = 6;

/// The greatest length a payload may have.
pub const MAX_PAYLOAD_LEN: usize = 0xFFFF_FFFF;

/// A payload in its envelope.
pub open spec fn envelope_bytes(version: u16, payload: Seq<u8>) -> Seq<u8> {
    u16_le(version) + u32_le(payload.len() as u32) + payload
}

/// The version and the payload of an envelope; nothing if the bytes are
/// shorter than the head or the payload is not exactly as long as announced.
pub open spec fn open_envelope(data: Seq<u8>) -> Option<(u16, Seq<u8>)> {
    if data.len() < ENVELOPE_HEAD || ENVELOPE_HEAD + u32_at(data, 2) != data.len() {
        None
    } else {
        Some((u16_at(data, 0), data.subrange(ENVELOPE_HEAD as int, data.len() as int)))
    }
}

/// Puts a payload into its envelope.
///
/// Fails with `FileTooLarge`, and only then, when the payload is longer than
/// a payload may be.
pub fn frame(version: u16, payload: &[u8]) -> (r: Result<Vec<u8>, CacheError>)
    ensures
        match r {
            Ok(value) => payload@.len() <= MAX_PAYLOAD_LEN && value@ == envelope_bytes(
                version,
                payload@,
            ),
            Err(e) => e == CacheError::FileTooLarge && payload@.len() > MAX_PAYLOAD_LEN,
        },
{
    if payload.len() > MAX_PAYLOAD_LEN {
        return Err(CacheError::FileTooLarge);
    }
    let mut out: Vec<u8> = Vec::new();
    put_u16(&mut out, version);
    put_u32(&mut out, payload.len() as u32);
    put_bytes(&mut out, payload);
    proof {
        assert(out@ =~= envelope_bytes(version, payload@));
    }
    Ok(out)
}

/// Takes a payload out of its envelope.
///
/// Fails with `CorruptCache`, and only then, when the bytes are shorter than
/// the head or the payload is not exactly as long as announced.
pub fn unframe(data: &[u8]) -> (r: Result<(u16, Vec<u8>), CacheError>)
    ensures
        match r {
            Ok((version, payload)) => open_envelope(data@) == Some((version, payload@)),
            Err(e) => e == CacheError::CorruptCache && open_envelope(data@).is_none(),
        },
{
    let size = data.len();
    if size < ENVELOPE_HEAD {
        return Err(CacheError::CorruptCache);
    }
    let version = get_u16(data, 0);
    let announced = get_u32(data, 2);
    if announced as u64 != (size - ENVELOPE_HEAD) as u64 {
        return Err(CacheError::CorruptCache);
    }
    let payload = copy_range(data, ENVELOPE_HEAD, size);
    Ok((version, payload))
}

/// An envelope gives back its version and payload. With any bytes after it,
/// it is refused.
pub proof fn lemma_envelope_round_trip(version: u16, payload: Seq<u8>, extra: Seq<u8>)
    requires
        payload.len() <= MAX_PAYLOAD_LEN,
    ensures
        extra.len() == 0 ==> open_envelope(envelope_bytes(version, payload) + extra) == Some(
            (version, payload),
        ),
        extra.len() > 0 ==> open_envelope(envelope_bytes(version, payload) + extra).is_none(),
{
    let data = envelope_bytes(version, payload) + extra;
    assert(data.subrange(0, 2) =~= u16_le(version));
    assert(data.subrange(2, 6) =~= u32_le(payload.len() as u32));
    lemma_u16_found(data, 0, version);
    lemma_u32_found(data, 2, payload.len() as u32);
    if extra.len() == 0 {
        assert(data.subrange(ENVELOPE_HEAD as int, data.len() as int) =~= payload);
    }
}

} // verus!

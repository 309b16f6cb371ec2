//! The reserved first record of every cache file, which says what the file
//! holds: its record class, its schema version, the revision of the recipe
//! tree that it was made from, and when it was made.

use crate::envelope::{envelope_bytes, open_envelope, unframe, MAX_PAYLOAD_LEN};
use crate::error::CacheError;
use crate::schema::{class_of, schema, schema_of, tag_of, RecordClass};
use crate::wire::{
    copy_bytes, copy_range, get_i64, get_u16, get_u32, i64_at, i64_le, lemma_i64_found, lemma_u16_found,
    lemma_u32_found, put_bytes, put_i64, put_u16, put_u32, same_bytes, u16_at, u16_le, u32_at,
    u32_le,
};
use vstd::prelude::*;

verus! {

/// The greatest length a revision identifier may have.
pub const MAX_REVISION_LEN: usize = 64;

/// The number of bytes of a meta payload before the revision identifier.
pub const META_HEAD: usize = 15;

/// The key of the reserved record: a zero byte and `__meta__`.
pub open spec fn meta_key() -> Seq<u8> {
    seq![0u8, 0x5Fu8, 0x5Fu8, 0x6Du8, 0x65u8, 0x74u8, 0x61u8, 0x5Fu8, 0x5Fu8]
}

/// The bytes that every meta payload begins with: `ENTCDB1`.
pub open spec fn magic() -> Seq<u8> {
    seq![0x45u8, 0x4Eu8, 0x54u8, 0x43u8, 0x44u8, 0x42u8, 0x31u8]
}

/// A byte that may stand in a revision identifier: an ASCII letter or digit,
/// `-`, `_` or `=`.
pub open spec fn token_byte(b: u8) -> bool {
    (0x30 <= b <= 0x39) || (0x41 <= b <= 0x5A) || (0x61 <= b <= 0x7A) || b == 0x2D || b == 0x5F
        || b == 0x3D
}

/// A revision identifier: one to sixty-four token bytes.
pub open spec fn valid_revision(rev: Seq<u8>) -> bool {
    &&& 1 <= rev.len() <= MAX_REVISION_LEN
    &&& forall|i: int| 0 <= i < rev.len() ==> token_byte(#[trigger] rev[i])
}

/// Whether the bytes are a revision identifier.
pub fn is_revision(rev: &[u8]) -> (ok: bool)
    ensures
        ok == valid_revision(rev@),
{
    if rev.len() < 1 || rev.len() > MAX_REVISION_LEN {
        return false;
    }
    let mut i: usize = 0;
    while i < rev.len()
        invariant
            i <= rev@.len(),
            forall|k: int| 0 <= k < i ==> token_byte(#[trigger] rev@[k]),
        decreases rev@.len() - i,
    {
        let b = rev[i];
        let ok = (0x30 <= b && b <= 0x39) || (0x41 <= b && b <= 0x5A) || (0x61 <= b && b <= 0x7A)
            || b == 0x2D || b == 0x5F || b == 0x3D;
        if !ok {
            return false;
        }
        i = i + 1;
    }
    true
}

/// The name of the snapshot of the recipe tree from which a file was made.
#[derive(Debug, PartialEq, Eq)]
pub struct Revision {
    bytes: Vec<u8>,
}

impl View for Revision {
    type V = Seq<u8>;

    closed spec fn view(&self) -> Seq<u8> {
        self.bytes@
    }
}

impl Revision {
    #[verifier::type_invariant]
    spec fn well_formed(self) -> bool {
        valid_revision(self.bytes@)
    }

    /// Makes a revision identifier of the bytes, if they are one.
    pub fn new(bytes: Vec<u8>) -> (r: Option<Revision>)
        ensures
            match r {
                Some(rev) => valid_revision(bytes@) && rev@ == bytes@,
                None => !valid_revision(bytes@),
            },
    {
        if is_revision(bytes.as_slice()) {
            Some(Revision { bytes })
        } else {
            None
        }
    }

    /// The bytes of the identifier.
    pub fn as_bytes(&self) -> (bytes: &[u8])
        ensures
            bytes@ == self@,
            valid_revision(self@),
    {
        proof {
            use_type_invariant(self);
        }
        self.bytes.as_slice()
    }

    /// Whether two identifiers name the same snapshot.
    pub fn same(&self, other: &Revision) -> (same: bool)
        ensures
            same == (self@ == other@),
    {
        same_bytes(self.bytes.as_slice(), other.bytes.as_slice())
    }

    /// A copy of the identifier.
    pub fn copy(&self) -> (r: Revision)
        ensures
            r@ == self@,
    {
        proof {
            use_type_invariant(self);
        }
        Revision { bytes: copy_bytes(self.bytes.as_slice()) }
    }
}

/// What a cache file says of itself.
#[derive(Debug, PartialEq, Eq)]
pub struct Meta {
    pub class: RecordClass,
    pub version: u16,
    pub revision: Revision,
    pub created: i64,
}

/// What a cache file says of itself, as a mathematical value.
pub struct MetaView {
    pub class: RecordClass,
    pub version: u16,
    pub revision: Seq<u8>,
    pub created: i64,
}

impl View for Meta {
    type V = MetaView;

    open spec fn view(&self) -> MetaView {
        MetaView {
            class: self.class,
            version: self.version,
            revision: self.revision@,
            created: self.created,
        }
    }
}

/// The class has the schema version, and the revision is an identifier.
pub open spec fn valid_meta(m: MetaView) -> bool {
    schema(m.class, m.version).is_some() && valid_revision(m.revision)
}

/// The payload of the reserved record.
pub open spec fn meta_payload(m: MetaView) -> Seq<u8> {
    magic() + u16_le(tag_of(m.class)) + u16_le(m.version) + u32_le(m.revision.len() as u32)
        + m.revision + i64_le(m.created)
}

/// The value of the reserved record: its payload in an envelope of the
/// file's schema version.
pub open spec fn meta_value(m: MetaView) -> Seq<u8> {
    envelope_bytes(m.version, meta_payload(m))
}

/// What the value of a reserved record says, or why it says nothing: a
/// damaged envelope, a payload too short, or another magic is corrupt; a
/// class or version that this library does not know is unsupported; an
/// envelope of another version than the payload names, a payload of another
/// length than its revision needs, or a revision that is no identifier is
/// corrupt.
pub open spec fn parse_meta(value: Seq<u8>) -> Result<MetaView, CacheError> {
    match open_envelope(value) {
        None => Err(CacheError::CorruptCache),
        Some((outer, p)) => if p.len() < META_HEAD || p.subrange(0, 7) != magic() {
            Err(CacheError::CorruptCache)
        } else {
            match class_of(u16_at(p, 7)) {
                None => Err(CacheError::UnsupportedSchemaVersion),
                Some(class) => {
                    let version = u16_at(p, 9);
                    let n = u32_at(p, 11) as int;
                    if schema(class, version).is_none() {
                        Err(CacheError::UnsupportedSchemaVersion)
                    } else if outer != version || META_HEAD + n + 8 != p.len() || !valid_revision(
                        p.subrange(META_HEAD as int, META_HEAD + n),
                    ) {
                        Err(CacheError::CorruptCache)
                    } else {
                        Ok(
                            MetaView {
                                class,
                                version,
                                revision: p.subrange(META_HEAD as int, META_HEAD + n),
                                created: i64_at(p, META_HEAD + n),
                            },
                        )
                    }
                },
            }
        },
    }
}

/// Makes the key of the reserved record.
pub fn make_meta_key() -> (key: Vec<u8>)
    ensures
        key@ == meta_key(),
{
    let mut key: Vec<u8> = Vec::new();
    key.push(0u8);
    key.push(0x5Fu8);
    key.push(0x5Fu8);
    key.push(0x6Du8);
    key.push(0x65u8);
    key.push(0x74u8);
    key.push(0x61u8);
    key.push(0x5Fu8);
    key.push(0x5Fu8);
    assert(key@ =~= meta_key());
    key
}

/// Makes the bytes that every meta payload begins with.
fn make_magic() -> (m: Vec<u8>)
    ensures
        m@ == magic(),
{
    let mut m: Vec<u8> = Vec::new();
    m.push(0x45u8);
    m.push(0x4Eu8);
    m.push(0x54u8);
    m.push(0x43u8);
    m.push(0x44u8);
    m.push(0x42u8);
    m.push(0x31u8);
    assert(m@ =~= magic());
    m
}

/// Writes the value of the reserved record.
pub fn write_meta(m: &Meta) -> (value: Vec<u8>)
    ensures
        value@ == meta_value(m@),
{
    let rev = m.revision.as_bytes();
    let mut p = make_magic();
    put_u16(&mut p, m.class.tag());
    put_u16(&mut p, m.version);
    put_u32(&mut p, rev.len() as u32);
    put_bytes(&mut p, rev);
    put_i64(&mut p, m.created);
    assert(p@ == meta_payload(m@));
    let mut value: Vec<u8> = Vec::new();
    put_u16(&mut value, m.version);
    put_u32(&mut value, p.len() as u32);
    put_bytes(&mut value, p.as_slice());
    assert(value@ =~= meta_value(m@));
    value
}

/// Reads the value of a reserved record.
pub fn read_meta(value: &[u8]) -> (r: Result<Meta, CacheError>)
    ensures
        match r {
            Ok(m) => parse_meta(value@) == Ok::<MetaView, CacheError>(m@),
            Err(e) => parse_meta(value@) == Err::<MetaView, CacheError>(e),
        },
{
    let (outer, payload) = match unframe(value) {
        Ok(pair) => pair,
        Err(e) => {
            return Err(e);
        },
    };
    let p = payload.as_slice();
    let size = p.len();
    if size < META_HEAD {
        return Err(CacheError::CorruptCache);
    }
    let head = copy_range(p, 0, 7);
    let good = make_magic();
    if !same_bytes(head.as_slice(), good.as_slice()) {
        return Err(CacheError::CorruptCache);
    }
    let class = match RecordClass::from_tag(get_u16(p, 7)) {
        Some(c) => c,
        None => {
            return Err(CacheError::UnsupportedSchemaVersion);
        },
    };
    let version = get_u16(p, 9);
    let n = get_u32(p, 11);
    if schema_of(class, version).is_none() {
        return Err(CacheError::UnsupportedSchemaVersion);
    }
    if outer != version || n as u64 + 8 != (size - META_HEAD) as u64 {
        return Err(CacheError::CorruptCache);
    }
    let end: usize = META_HEAD + n as usize;
    let revision = match Revision::new(copy_range(p, META_HEAD, end)) {
        Some(r) => r,
        None => {
            return Err(CacheError::CorruptCache);
        },
    };
    let created = get_i64(p, end);
    Ok(Meta { class, version, revision, created })
}

/// Where the parts of a meta payload lie in it.
proof fn lemma_meta_payload(m: MetaView)
    requires
        valid_meta(m),
    ensures
        meta_payload(m).len() == META_HEAD + m.revision.len() + 8,
        meta_payload(m).len() <= MAX_PAYLOAD_LEN,
        meta_payload(m).subrange(0, 7) == magic(),
        u16_at(meta_payload(m), 7) == tag_of(m.class),
        u16_at(meta_payload(m), 9) == m.version,
        u32_at(meta_payload(m), 11) == m.revision.len(),
        meta_payload(m).subrange(META_HEAD as int, META_HEAD + m.revision.len()) == m.revision,
        i64_at(meta_payload(m), META_HEAD + m.revision.len()) == m.created,
{
    let p = meta_payload(m);
    let n = m.revision.len() as int;
    assert(p.len() == 23 + n);
    assert(p.subrange(0, 7) =~= magic());
    assert(p.subrange(7, 9) =~= u16_le(tag_of(m.class)));
    assert(p.subrange(9, 11) =~= u16_le(m.version));
    assert(p.subrange(11, 15) =~= u32_le(n as u32));
    assert(p.subrange(15, 15 + n) =~= m.revision);
    assert(p.subrange(15 + n, 15 + n + 8) =~= i64_le(m.created));
    lemma_u16_found(p, 7, tag_of(m.class));
    lemma_u16_found(p, 9, m.version);
    lemma_u32_found(p, 11, n as u32);
    lemma_i64_found(p, 15 + n, m.created);
}

/// Reading the value written for `m` gives `m` back.
pub proof fn lemma_meta_round_trip(m: MetaView)
    requires
        valid_meta(m),
    ensures
        parse_meta(meta_value(m)) == Ok::<MetaView, CacheError>(m),
{
    let p = meta_payload(m);
    lemma_meta_payload(m);
    crate::envelope::lemma_envelope_round_trip(m.version, p, Seq::empty());
    assert(meta_value(m) + Seq::<u8>::empty() =~= meta_value(m));
    assert(open_envelope(meta_value(m)) == Some((m.version, p)));
    assert(class_of(tag_of(m.class)) == Some(m.class));
}

} // verus!

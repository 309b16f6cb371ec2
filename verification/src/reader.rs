//! The consumer's side: a reader is opened on the image of a cache file,
//! checks what the file says of itself, and yields the entries of the file
//! with their fields. The reserved record is not among the entries.

use crate::error::CacheError;
use crate::fields::{values, Field, FieldValue};
use crate::image::pairs;
use crate::layout::HEADER_LEN;
use crate::meta::{make_meta_key, meta_key, parse_meta, read_meta, Meta, MetaView, Revision};
use crate::names::FileName;
use crate::read::{
    byte_strings, enumerate, enumerate_image, lookup, lookup_image, read_record, record_at,
    records_end,
};
use crate::schema::{decode_value, read_value, RecordClass};
use crate::wire::{copy_bytes, get_u32, same_bytes};
use vstd::prelude::*;

verus! {

/// One entry of a cache file: a key and the fields stored under it.
#[derive(Clone, Debug, PartialEq, Eq)]
pub struct Entry {
    pub key: Vec<u8>,
    pub fields: Vec<Field>,
}

impl View for Entry {
    type V = (Seq<u8>, Seq<FieldValue>);

    open spec fn view(&self) -> (Seq<u8>, Seq<FieldValue>) {
        (self.key@, values(self.fields@))
    }
}

/// The entries as mathematical values.
pub open spec fn entry_views(entries: Seq<Entry>) -> Seq<(Seq<u8>, Seq<FieldValue>)> {
    Seq::new(entries.len(), |i: int| entries[i]@)
}

/// The lists of fields as mathematical values.
pub open spec fn field_lists(lists: Seq<Vec<Field>>) -> Seq<Seq<FieldValue>> {
    Seq::new(lists.len(), |i: int| values(lists[i]@))
}

/// What a file says of itself, or why it cannot be opened: bytes shorter
/// than a header, a records section that reaches beyond the bytes, no first
/// record, or a first record under another key than the reserved one make
/// the file corrupt; otherwise the reserved record decides.
pub open spec fn open_image(data: Seq<u8>) -> Result<MetaView, CacheError> {
    if data.len() < HEADER_LEN || records_end(data) > data.len() {
        Err(CacheError::CorruptCache)
    } else {
        match record_at(data, HEADER_LEN as int, records_end(data)) {
            None => Err(CacheError::CorruptCache),
            Some(r) => if r.0 != meta_key() {
                Err(CacheError::CorruptCache)
            } else {
                parse_meta(r.1)
            },
        }
    }
}

/// The fields that a value holds in a file of `m`, or why it holds none: as
/// the class decides, and a value of another version than the file's is
/// corrupt.
pub open spec fn decode_in(m: MetaView, value: Seq<u8>) -> Result<Seq<FieldValue>, CacheError> {
    match decode_value(m.class, value) {
        Err(e) => Err(e),
        Ok((version, vs)) => if version != m.version {
            Err(CacheError::CorruptCache)
        } else {
            Ok(vs)
        },
    }
}

/// The entries that the records are in a file of `m`; the first record that
/// cannot be decoded decides the error.
pub open spec fn decode_records(m: MetaView, recs: Seq<(Seq<u8>, Seq<u8>)>) -> Result<
    Seq<(Seq<u8>, Seq<FieldValue>)>,
    CacheError,
>
    decreases recs.len(),
{
    if recs.len() == 0 {
        Ok(Seq::empty())
    } else {
        match decode_records(m, recs.drop_last()) {
            Err(e) => Err(e),
            Ok(front) => match decode_in(m, recs.last().1) {
                Err(e) => Err(e),
                Ok(vs) => Ok(front.push((recs.last().0, vs))),
            },
        }
    }
}

/// The lists of fields that the values hold in a file of `m`; the first
/// value that cannot be decoded decides the error.
pub open spec fn decode_values(m: MetaView, vals: Seq<Seq<u8>>) -> Result<
    Seq<Seq<FieldValue>>,
    CacheError,
>
    decreases vals.len(),
{
    if vals.len() == 0 {
        Ok(Seq::empty())
    } else {
        match decode_values(m, vals.drop_last()) {
            Err(e) => Err(e),
            Ok(front) => match decode_in(m, vals.last()) {
                Err(e) => Err(e),
                Ok(vs) => Ok(front.push(vs)),
            },
        }
    }
}

/// The entries of a file of `m`, in insertion order, without the reserved
/// record.
pub open spec fn read_entries(data: Seq<u8>, m: MetaView) -> Result<
    Seq<(Seq<u8>, Seq<FieldValue>)>,
    CacheError,
> {
    match enumerate_image(data) {
        None => Err(CacheError::CorruptCache),
        Some(recs) => decode_records(m, after_reserved(recs)),
    }
}

/// The records after the reserved one.
pub open spec fn after_reserved(recs: Seq<(Seq<u8>, Seq<u8>)>) -> Seq<(Seq<u8>, Seq<u8>)> {
    if recs.len() == 0 {
        recs
    } else {
        recs.skip(1)
    }
}

/// How many of the values found under `key` belong to the reserved record:
/// the first, under the reserved key.
pub open spec fn reserved_hits(key: Seq<u8>, found: Seq<Seq<u8>>) -> int {
    if key == meta_key() && found.len() > 0 {
        1
    } else {
        0
    }
}

/// The lists of fields stored under `key` in a file of `m`, in insertion
/// order, without the reserved record.
pub open spec fn lookup_entries(data: Seq<u8>, m: MetaView, key: Seq<u8>) -> Result<
    Seq<Seq<FieldValue>>,
    CacheError,
> {
    match lookup_image(data, key) {
        None => Err(CacheError::CorruptCache),
        Some(found) => decode_values(m, found.skip(reserved_hits(key, found))),
    }
}

/// Once a record cannot be decoded, no further records mend it.
pub proof fn lemma_decode_records_fails(m: MetaView, recs: Seq<(Seq<u8>, Seq<u8>)>, i: int)
    requires
        0 <= i <= recs.len(),
        decode_records(m, recs.take(i)).is_err(),
    ensures
        decode_records(m, recs) == decode_records(m, recs.take(i)),
    decreases recs.len() - i,
{
    if i == recs.len() {
        assert(recs.take(i) =~= recs);
    } else {
        assert(recs.take(i + 1).drop_last() =~= recs.take(i));
        lemma_decode_records_fails(m, recs, i + 1);
    }
}

/// Once a value cannot be decoded, no further values mend it.
pub proof fn lemma_decode_values_fails(m: MetaView, vals: Seq<Seq<u8>>, i: int)
    requires
        0 <= i <= vals.len(),
        decode_values(m, vals.take(i)).is_err(),
    ensures
        decode_values(m, vals) == decode_values(m, vals.take(i)),
    decreases vals.len() - i,
{
    if i == vals.len() {
        assert(vals.take(i) =~= vals);
    } else {
        assert(vals.take(i + 1).drop_last() =~= vals.take(i));
        lemma_decode_values_fails(m, vals, i + 1);
    }
}

/// Decodes a value of a file of the given class and version.
fn read_in(class: RecordClass, version: u16, value: &[u8], Ghost(m): Ghost<MetaView>) -> (r: Result<
    Vec<Field>,
    CacheError,
>)
    requires
        m.class == class,
        m.version == version,
    ensures
        match r {
            Ok(fields) => decode_in(m, value@) == Ok::<Seq<FieldValue>, CacheError>(
                values(fields@),
            ),
            Err(e) => decode_in(m, value@) == Err::<Seq<FieldValue>, CacheError>(e),
        },
{
    match read_value(class, value) {
        Err(e) => Err(e),
        Ok((found, fields)) => {
            if found != version {
                Err(CacheError::CorruptCache)
            } else {
                Ok(fields)
            }
        },
    }
}

/// An open cache file.
#[derive(Debug)]
pub struct Reader {
    data: Vec<u8>,
    meta: Meta,
}

impl Reader {
    /// The bytes of the file.
    pub closed spec fn image(&self) -> Seq<u8> {
        self.data@
    }

    /// What the file says of itself.
    pub closed spec fn meta(&self) -> MetaView {
        self.meta@
    }

    /// The reader holds what the file says of itself.
    #[verifier::type_invariant]
    pub closed spec fn wf(&self) -> bool {
        open_image(self.data@) == Ok::<MetaView, CacheError>(self.meta@)
    }

    /// Opens the image of a cache file.
    ///
    /// Fails with `CorruptCache` or `UnsupportedSchemaVersion`, as
    /// `open_image` says.
    pub fn open_cache(data: Vec<u8>) -> (r: Result<Reader, CacheError>)
        ensures
            match r {
                Ok(reader) => {
                    &&& reader.wf()
                    &&& reader.image() == data@
                    &&& open_image(data@) == Ok::<MetaView, CacheError>(reader.meta())
                },
                Err(e) => open_image(data@) == Err::<MetaView, CacheError>(e),
            },
    {
        if data.len() < HEADER_LEN {
            return Err(CacheError::CorruptCache);
        }
        let end = get_u32(data.as_slice(), 0) as usize;
        if end > data.len() {
            return Err(CacheError::CorruptCache);
        }
        let first = match read_record(data.as_slice(), HEADER_LEN, end) {
            Some(rec) => rec,
            None => {
                return Err(CacheError::CorruptCache);
            },
        };
        let key = make_meta_key();
        if !same_bytes(first.key.as_slice(), key.as_slice()) {
            return Err(CacheError::CorruptCache);
        }
        match read_meta(first.value.as_slice()) {
            Ok(meta) => Ok(Reader { data, meta }),
            Err(e) => Err(e),
        }
    }

    /// What the reader holds is what the file says of itself.
    pub fn checked(&self)
        ensures
            self.wf(),
            open_image(self.image()) == Ok::<MetaView, CacheError>(self.meta()),
    {
        proof {
            use_type_invariant(self);
        }
    }

    /// The record class of the file.
    pub fn class(&self) -> (class: RecordClass)
        ensures
            class == self.meta().class,
    {
        self.meta.class
    }

    /// The schema version of the file.
    pub fn version(&self) -> (version: u16)
        ensures
            version == self.meta().version,
    {
        self.meta.version
    }

    /// The revision of the recipe tree that the file was made from.
    pub fn revision(&self) -> (revision: &Revision)
        ensures
            revision@ == self.meta().revision,
    {
        &self.meta.revision
    }

    /// When the file was made, in seconds since the epoch.
    pub fn created(&self) -> (created: i64)
        ensures
            created == self.meta().created,
    {
        self.meta.created
    }

    /// Returns all entries of the file, in insertion order.
    ///
    /// Fails as `read_entries` says: with `CorruptCache` when the records
    /// section is damaged, else with the error of the first record that
    /// cannot be decoded.
    pub fn enumerate(&self) -> (r: Result<Vec<Entry>, CacheError>)
        ensures
            match r {
                Ok(entries) => read_entries(self.image(), self.meta()) == Ok::<
                    Seq<(Seq<u8>, Seq<FieldValue>)>,
                    CacheError,
                >(entry_views(entries@)),
                Err(e) => read_entries(self.image(), self.meta()) == Err::<
                    Seq<(Seq<u8>, Seq<FieldValue>)>,
                    CacheError,
                >(e),
            },
    {
        let records = match enumerate(self.data.as_slice()) {
            Ok(records) => records,
            Err(e) => {
                return Err(e);
            },
        };
        let ghost m = self.meta@;
        let ghost rest = after_reserved(pairs(records@));
        let mut out: Vec<Entry> = Vec::new();
        proof {
            assert(rest.take(0).len() == 0);
            assert(entry_views(out@) =~= Seq::<(Seq<u8>, Seq<FieldValue>)>::empty());
        }
        if records.len() == 0 {
            return Ok(out);
        }
        let mut i: usize = 1;
        while i < records.len()
            invariant
                m == self.meta@,
                rest == pairs(records@).skip(1),
                read_entries(self.image(), self.meta()) == decode_records(m, rest),
                1 <= i <= records@.len(),
                decode_records(m, rest.take(i - 1)) == Ok::<
                    Seq<(Seq<u8>, Seq<FieldValue>)>,
                    CacheError,
                >(entry_views(out@)),
            decreases records@.len() - i,
        {
            proof {
                assert(rest.take(i as int).drop_last() =~= rest.take(i - 1));
                assert(rest.take(i as int).last() == records@[i as int]@);
            }
            let fields = match read_in(
                self.meta.class,
                self.meta.version,
                records[i].value.as_slice(),
                Ghost(m),
            ) {
                Ok(fields) => fields,
                Err(e) => {
                    proof {
                        lemma_decode_records_fails(m, rest, i as int);
                    }
                    return Err(e);
                },
            };
            let ghost before = entry_views(out@);
            let entry = Entry { key: copy_bytes(records[i].key.as_slice()), fields };
            let ghost v = entry@;
            out.push(entry);
            proof {
                assert(entry_views(out@) =~= before.push(v));
            }
            i = i + 1;
        }
        proof {
            assert(rest.take(i - 1) =~= rest);
        }
        Ok(out)
    }

    /// Returns the fields of every entry stored under `key`, in insertion
    /// order.
    ///
    /// Fails as `lookup_entries` says: with `CorruptCache` when the hash
    /// table or a record it points to is damaged, else with the error of the
    /// first value that cannot be decoded.
    pub fn lookup(&self, key: &[u8]) -> (r: Result<Vec<Vec<Field>>, CacheError>)
        ensures
            match r {
                Ok(lists) => lookup_entries(self.image(), self.meta(), key@) == Ok::<
                    Seq<Seq<FieldValue>>,
                    CacheError,
                >(field_lists(lists@)),
                Err(e) => lookup_entries(self.image(), self.meta(), key@) == Err::<
                    Seq<Seq<FieldValue>>,
                    CacheError,
                >(e),
            },
    {
        let found = match lookup(self.data.as_slice(), key) {
            Ok(found) => found,
            Err(e) => {
                return Err(e);
            },
        };
        let reserved = make_meta_key();
        let start: usize = if same_bytes(key, reserved.as_slice()) && found.len() > 0 {
            1
        } else {
            0
        };
        let ghost m = self.meta@;
        let ghost rest = byte_strings(found@).skip(start as int);
        let mut out: Vec<Vec<Field>> = Vec::new();
        let mut i: usize = start;
        proof {
            assert(rest.take(0).len() == 0);
            assert(field_lists(out@) =~= Seq::<Seq<FieldValue>>::empty());
        }
        while i < found.len()
            invariant
                m == self.meta@,
                start <= i <= found@.len(),
                rest == byte_strings(found@).skip(start as int),
                lookup_entries(self.image(), self.meta(), key@) == decode_values(m, rest),
                decode_values(m, rest.take(i - start)) == Ok::<Seq<Seq<FieldValue>>, CacheError>(
                    field_lists(out@),
                ),
            decreases found@.len() - i,
        {
            proof {
                assert(rest.take(i - start + 1).drop_last() =~= rest.take(i - start));
                assert(rest.take(i - start + 1).last() == found@[i as int]@);
            }
            let fields = match read_in(
                self.meta.class,
                self.meta.version,
                found[i].as_slice(),
                Ghost(m),
            ) {
                Ok(fields) => fields,
                Err(e) => {
                    proof {
                        lemma_decode_values_fails(m, rest, i - start + 1);
                    }
                    return Err(e);
                },
            };
            let ghost before = field_lists(out@);
            let ghost v = values(fields@);
            out.push(fields);
            proof {
                assert(field_lists(out@) =~= before.push(v));
            }
            i = i + 1;
        }
        proof {
            assert(rest.take(i - start) =~= rest);
        }
        Ok(out)
    }

    /// Whether the file says of itself what the name says of it.
    pub fn is_named(&self, name: &FileName) -> (same: bool)
        ensures
            same == (self.meta().class == name.class && self.meta().version == name.version
                && self.meta().revision == name.revision@),
    {
        self.meta.class == name.class && self.meta.version == name.version
            && self.meta.revision.same(&name.revision)
    }

    /// Closes the reader and hands back the bytes it was opened on.
    pub fn close(self) -> (data: Vec<u8>)
        ensures
            data@ == self.image(),
    {
        self.data
    }
}

} // verus!

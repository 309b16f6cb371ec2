//! The producer's side: a writer takes records one by one and, on commit,
//! yields the image of the finished file. Nothing of a writer is visible
//! before commit, and nothing can be added after it.

use crate::error::CacheError;
use crate::envelope::MAX_PAYLOAD_LEN;
use crate::fields::{all_writable, kinds_of, payload_bytes, values, Field, FieldValue};
use crate::image::{build_image, lemma_pairs_push, pairs, Record};
use crate::layout::{
    file_image, fits, image_len, lemma_image_len_empty, lemma_image_len_push, HEADER_LEN,
    MAX_FILE_LEN,
};
use crate::meta::{
    make_meta_key, meta_key, meta_value, valid_meta, write_meta, Meta, MetaView, Revision,
};
use crate::names::{file_name, format_name};
use crate::schema::{encode_value, schema, schema_of, value_bytes, RecordClass};
use crate::wire::copy_bytes;
use vstd::prelude::*;

verus! {

/// The greatest length a key may have.
pub const MAX_KEY_LEN: usize = 65535;

/// The reserved record of a file.
pub open spec fn meta_pair(m: MetaView) -> (Seq<u8>, Seq<u8>) {
    (meta_key(), meta_value(m))
}

/// The entries as records: each key with its fields in their envelope.
pub open spec fn framed(version: u16, es: Seq<(Seq<u8>, Seq<FieldValue>)>) -> Seq<
    (Seq<u8>, Seq<u8>),
> {
    Seq::new(es.len(), |i: int| (es[i].0, value_bytes(version, es[i].1)))
}

/// The records of a cache file: the reserved record, then the entries in
/// insertion order.
pub open spec fn cache_records(m: MetaView, es: Seq<(Seq<u8>, Seq<FieldValue>)>) -> Seq<
    (Seq<u8>, Seq<u8>),
> {
    seq![meta_pair(m)] + framed(m.version, es)
}

/// The cache file that says `m` of itself and holds the entries `es`.
pub open spec fn cache_image(m: MetaView, es: Seq<(Seq<u8>, Seq<FieldValue>)>) -> Seq<u8> {
    file_image(cache_records(m, es))
}

/// An entry that a file of `m` can hold: its key is not too long and its
/// fields are those of the schema and can be written.
pub open spec fn acceptable(m: MetaView, e: (Seq<u8>, Seq<FieldValue>)) -> bool {
    &&& e.0.len() <= MAX_KEY_LEN
    &&& schema(m.class, m.version) == Some(kinds_of(e.1))
    &&& all_writable(e.1)
    &&& payload_bytes(e.1).len() <= MAX_PAYLOAD_LEN
}

/// Every entry is one that a file of `m` can hold.
#[verifier::opaque]
pub open spec fn all_acceptable(m: MetaView, es: Seq<(Seq<u8>, Seq<FieldValue>)>) -> bool {
    forall|i: int| 0 <= i < es.len() ==> acceptable(m, #[trigger] es[i])
}

/// What `put` answers: a writer that was committed or aborted takes nothing;
/// a key that is too long is refused; fields other than those of the schema
/// are refused; an entry that cannot be written, or with which the file would
/// be longer than a file may be, is refused; any other entry is taken.
pub open spec fn put_answer(
    open: bool,
    m: MetaView,
    es: Seq<(Seq<u8>, Seq<FieldValue>)>,
    key: Seq<u8>,
    vs: Seq<FieldValue>,
) -> Result<(), CacheError> {
    if !open {
        Err(CacheError::WriterFinalized)
    } else if key.len() > MAX_KEY_LEN {
        Err(CacheError::KeyTooLarge)
    } else if schema(m.class, m.version) != Some(kinds_of(vs)) {
        Err(CacheError::UnsupportedSchemaVersion)
    } else if !all_writable(vs) || payload_bytes(vs).len() > MAX_PAYLOAD_LEN || !fits(
        cache_records(m, es.push((key, vs))),
    ) {
        Err(CacheError::FileTooLarge)
    } else {
        Ok(())
    }
}

/// Taking one more entry adds one record to the file, and its length with
/// its two slots to the file's length.
pub proof fn lemma_one_more(
    m: MetaView,
    es: Seq<(Seq<u8>, Seq<FieldValue>)>,
    e: (Seq<u8>, Seq<FieldValue>),
)
    ensures
        cache_records(m, es.push(e)) == cache_records(m, es).push(
            (e.0, value_bytes(m.version, e.1)),
        ),
        image_len(cache_records(m, es.push(e))) == image_len(cache_records(m, es)) + 8
            + e.0.len() + value_bytes(m.version, e.1).len() + 16,
        all_acceptable(m, es) && acceptable(m, e) ==> all_acceptable(m, es.push(e)),
{
    reveal(all_acceptable);
    let r = (e.0, value_bytes(m.version, e.1));
    assert(cache_records(m, es.push(e)) =~= cache_records(m, es).push(r));
    lemma_image_len_push(cache_records(m, es), r);
    if all_acceptable(m, es) && acceptable(m, e) {
        assert forall|i: int| 0 <= i < es.push(e).len() implies acceptable(
            m,
            #[trigger] es.push(e)[i],
        ) by {
            if i < es.len() {
                assert(es.push(e)[i] == es[i]);
            }
        }
    }
}

/// A cache file in the making.
pub struct CacheWriter {
    meta: Meta,
    records: Vec<Record>,
    size: u64,
    open: bool,
    entries: Ghost<Seq<(Seq<u8>, Seq<FieldValue>)>>,
}

impl CacheWriter {
    /// What the file will say of itself.
    pub closed spec fn meta(&self) -> MetaView {
        self.meta@
    }

    /// The entries taken so far, in insertion order.
    pub closed spec fn entries(&self) -> Seq<(Seq<u8>, Seq<FieldValue>)> {
        self.entries@
    }

    /// Whether the writer still takes entries.
    pub closed spec fn is_open(&self) -> bool {
        self.open
    }

    /// The writer holds what it says it holds, and its file fits.
    pub closed spec fn wf(&self) -> bool {
        &&& valid_meta(self.meta@)
        &&& all_acceptable(self.meta@, self.entries@)
        &&& pairs(self.records@) == cache_records(self.meta@, self.entries@)
        &&& self.size == image_len(cache_records(self.meta@, self.entries@))
        &&& self.size <= MAX_FILE_LEN
    }

    /// Begins a cache file of the given class and schema version, made from
    /// the given revision at the given time.
    ///
    /// Fails with `UnsupportedSchemaVersion`, and only then, when the class
    /// has no such version.
    pub fn create_cache(class: RecordClass, version: u16, revision: Revision, created: i64) -> (r:
        Result<CacheWriter, CacheError>)
        ensures
            match r {
                Ok(w) => {
                    &&& schema(class, version).is_some()
                    &&& w.wf()
                    &&& w.is_open()
                    &&& w.meta() == (MetaView { class, version, revision: revision@, created })
                    &&& w.entries() == Seq::<(Seq<u8>, Seq<FieldValue>)>::empty()
                },
                Err(e) => e == CacheError::UnsupportedSchemaVersion && schema(
                    class,
                    version,
                ).is_none(),
            },
    {
        if schema_of(class, version).is_none() {
            return Err(CacheError::UnsupportedSchemaVersion);
        }
        let ghost rev = revision@;
        let bytes = revision.as_bytes();
        let meta = Meta { class, version, revision, created };
        let key = make_meta_key();
        let value = write_meta(&meta);
        let size: u64 = HEADER_LEN as u64 + 8 + key.len() as u64 + value.len() as u64 + 16;
        let mut records: Vec<Record> = Vec::new();
        records.push(Record { key, value });
        let ghost none = Seq::<(Seq<u8>, Seq<FieldValue>)>::empty();
        proof {
            let empty = Seq::<(Seq<u8>, Seq<u8>)>::empty();
            lemma_image_len_empty();
            lemma_image_len_push(empty, meta_pair(meta@));
            reveal(all_acceptable);
            assert(cache_records(meta@, none) =~= empty.push(meta_pair(meta@)));
            assert(pairs(records@) =~= cache_records(meta@, none));
        }
        Ok(CacheWriter { meta, records, size, open: true, entries: Ghost(none) })
    }

    /// Adds an entry: a key and the fields stored under it, in schema order.
    ///
    /// An entry that is refused leaves the writer as it was, and the writer
    /// goes on taking entries.
    pub fn put(&mut self, key: &[u8], fields: &Vec<Field>) -> (r: Result<(), CacheError>)
        requires
            old(self).wf(),
        ensures
            final(self).wf(),
            r == put_answer(
                old(self).is_open(),
                old(self).meta(),
                old(self).entries(),
                key@,
                values(fields@),
            ),
            final(self).meta() == old(self).meta(),
            final(self).is_open() == old(self).is_open(),
            final(self).entries() == (if r.is_ok() {
                old(self).entries().push((key@, values(fields@)))
            } else {
                old(self).entries()
            }),
    {
        let ghost m = self.meta@;
        let ghost es = self.entries@;
        let ghost e = (key@, values(fields@));
        if !self.open {
            return Err(CacheError::WriterFinalized);
        }
        if key.len() > MAX_KEY_LEN {
            return Err(CacheError::KeyTooLarge);
        }
        let value = match encode_value(self.meta.class, self.meta.version, fields) {
            Ok(v) => v,
            Err(err) => {
                return Err(err);
            },
        };
        proof {
            lemma_one_more(m, es, e);
        }
        let grown: u64 = self.size + 8 + key.len() as u64 + value.len() as u64 + 16;
        if grown > MAX_FILE_LEN {
            return Err(CacheError::FileTooLarge);
        }
        let record = Record { key: copy_bytes(key), value };
        proof {
            lemma_pairs_push(self.records@, record);
        }
        self.records.push(record);
        self.size = grown;
        self.entries = Ghost(es.push(e));
        Ok(())
    }

    /// Finishes the file and yields its image. The writer takes nothing
    /// after that.
    ///
    /// Fails with `WriterFinalized`, and only then, when the writer was
    /// committed or aborted before.
    pub fn commit(&mut self) -> (r: Result<Vec<u8>, CacheError>)
        requires
            old(self).wf(),
        ensures
            final(self).wf(),
            !final(self).is_open(),
            final(self).meta() == old(self).meta(),
            final(self).entries() == old(self).entries(),
            valid_meta(old(self).meta()),
            all_acceptable(old(self).meta(), old(self).entries()),
            fits(cache_records(old(self).meta(), old(self).entries())),
            match r {
                Ok(image) => old(self).is_open() && image@ == cache_image(
                    old(self).meta(),
                    old(self).entries(),
                ),
                Err(e) => e == CacheError::WriterFinalized && !old(self).is_open(),
            },
    {
        if !self.open {
            return Err(CacheError::WriterFinalized);
        }
        self.open = false;
        build_image(&self.records)
    }

    /// Gives the file up. The writer takes nothing after that.
    pub fn abort(&mut self)
        requires
            old(self).wf(),
        ensures
            final(self).wf(),
            !final(self).is_open(),
            final(self).meta() == old(self).meta(),
            final(self).entries() == old(self).entries(),
    {
        self.open = false;
    }

    /// The name under which the file is to be published.
    pub fn file_name(&self) -> (name: Vec<u8>)
        ensures
            name@ == format_name(self.meta().class, self.meta().version, self.meta().revision),
    {
        file_name(self.meta.class, self.meta.version, &self.meta.revision)
    }

    /// The number of entries taken so far.
    pub fn len(&self) -> (n: usize)
        requires
            self.wf(),
        ensures
            n == self.entries().len(),
    {
        self.records.len() - 1
    }

    /// The length that the file would have if it were committed now.
    pub fn size(&self) -> (n: u64)
        requires
            self.wf(),
        ensures
            n == image_len(cache_records(self.meta(), self.entries())),
    {
        self.size
    }
}

} // verus!

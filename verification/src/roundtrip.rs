//! What a reader finds in the file that a writer made.

use crate::envelope::ENVELOPE_HEAD;
use crate::error::CacheError;
use crate::fields::FieldValue;
use crate::laws::{
    lemma_enumerate_built, lemma_header_found, lemma_lookup_built, lemma_record_found, values_of,
};
use crate::layout::{
    fits, lemma_image_len, lemma_table_pos, record_chunks, record_offset, tables_start,
};
use crate::meta::{lemma_meta_round_trip, meta_key, meta_value, valid_meta, MetaView};
use crate::reader::{
    after_reserved, decode_in, decode_records, decode_values, lookup_entries, open_image,
    read_entries,
};
use crate::schema::{lemma_value_round_trip, value_bytes, RecordClass};
use crate::view::{member_fault, Member};
use crate::wire::u16_at;
use crate::writer::{
    acceptable, all_acceptable, cache_image, cache_records, framed, meta_pair,
};
use vstd::prelude::*;

verus! {

/// The lists of fields of the entries whose key is `key`, in the order of
/// `es`.
pub open spec fn fields_of(es: Seq<(Seq<u8>, Seq<FieldValue>)>, key: Seq<u8>) -> Seq<
    Seq<FieldValue>,
>
    decreases es.len(),
{
    if es.len() == 0 {
        Seq::empty()
    } else if es.last().0 == key {
        fields_of(es.drop_last(), key).push(es.last().1)
    } else {
        fields_of(es.drop_last(), key)
    }
}

/// The first entries of acceptable entries are acceptable, and so is the
/// last.
proof fn lemma_front_acceptable(m: MetaView, es: Seq<(Seq<u8>, Seq<FieldValue>)>)
    requires
        all_acceptable(m, es),
        es.len() > 0,
    ensures
        all_acceptable(m, es.drop_last()),
        acceptable(m, es.last()),
        framed(m.version, es).drop_last() == framed(m.version, es.drop_last()),
        framed(m.version, es).last() == (es.last().0, value_bytes(m.version, es.last().1)),
{
    reveal(all_acceptable);
    assert(es.last() == es[es.len() - 1]);
    assert forall|i: int| 0 <= i < es.drop_last().len() implies acceptable(
        m,
        #[trigger] es.drop_last()[i],
    ) by {
        assert(es.drop_last()[i] == es[i]);
    }
    assert(framed(m.version, es).drop_last() =~= framed(m.version, es.drop_last()));
}

/// The value written for an acceptable entry is decoded to its fields.
proof fn lemma_decode_in_written(m: MetaView, e: (Seq<u8>, Seq<FieldValue>))
    requires
        acceptable(m, e),
    ensures
        decode_in(m, value_bytes(m.version, e.1)) == Ok::<Seq<FieldValue>, CacheError>(e.1),
{
    lemma_value_round_trip(m.class, m.version, e.1, Seq::empty());
    assert(value_bytes(m.version, e.1) + Seq::<u8>::empty() =~= value_bytes(m.version, e.1));
}

/// The records written for acceptable entries are decoded to the entries.
proof fn lemma_decode_records_written(m: MetaView, es: Seq<(Seq<u8>, Seq<FieldValue>)>)
    requires
        all_acceptable(m, es),
    ensures
        decode_records(m, framed(m.version, es)) == Ok::<
            Seq<(Seq<u8>, Seq<FieldValue>)>,
            CacheError,
        >(es),
    decreases es.len(),
{
    if es.len() == 0 {
        assert(es =~= Seq::<(Seq<u8>, Seq<FieldValue>)>::empty());
    } else {
        lemma_front_acceptable(m, es);
        lemma_decode_records_written(m, es.drop_last());
        lemma_decode_in_written(m, es.last());
        assert(es.drop_last().push(es.last()) =~= es);
    }
}

/// The values written under `key` for acceptable entries are decoded to the
/// fields of the entries with that key.
proof fn lemma_decode_values_written(
    m: MetaView,
    es: Seq<(Seq<u8>, Seq<FieldValue>)>,
    key: Seq<u8>,
)
    requires
        all_acceptable(m, es),
    ensures
        decode_values(m, values_of(framed(m.version, es), key)) == Ok::<
            Seq<Seq<FieldValue>>,
            CacheError,
        >(fields_of(es, key)),
    decreases es.len(),
{
    if es.len() > 0 {
        lemma_front_acceptable(m, es);
        lemma_decode_values_written(m, es.drop_last(), key);
        lemma_decode_in_written(m, es.last());
        let front = values_of(framed(m.version, es.drop_last()), key);
        if es.last().0 == key {
            assert(front.push(value_bytes(m.version, es.last().1)).drop_last() =~= front);
        }
    }
}

/// The values under a key in records laid end to end are the values in the
/// first, then those in the second.
proof fn lemma_values_of_concat(
    a: Seq<(Seq<u8>, Seq<u8>)>,
    b: Seq<(Seq<u8>, Seq<u8>)>,
    key: Seq<u8>,
)
    ensures
        values_of(a + b, key) == values_of(a, key) + values_of(b, key),
    decreases b.len(),
{
    if b.len() == 0 {
        assert(a + b =~= a);
        assert(values_of(a, key) + values_of(b, key) =~= values_of(a, key));
    } else {
        lemma_values_of_concat(a, b.drop_last(), key);
        assert((a + b).drop_last() =~= a + b.drop_last());
        assert((a + b).last() == b.last());
        if b.last().0 == key {
            assert((values_of(a, key) + values_of(b.drop_last(), key)).push(b.last().1)
                =~= values_of(a, key) + values_of(b.drop_last(), key).push(b.last().1));
        }
    }
}

/// Opening the file that a writer made finds what the writer said of it.
pub proof fn lemma_open_written(m: MetaView, es: Seq<(Seq<u8>, Seq<FieldValue>)>)
    requires
        valid_meta(m),
        all_acceptable(m, es),
        fits(cache_records(m, es)),
    ensures
        open_image(cache_image(m, es)) == Ok::<MetaView, CacheError>(m),
{
    let recs = cache_records(m, es);
    lemma_image_len(recs);
    lemma_header_found(recs, 0);
    lemma_table_pos(recs, 0);
    assert(record_chunks(recs).take(0).len() == 0);
    assert(record_offset(recs, 0) == crate::layout::HEADER_LEN);
    lemma_record_found(recs, 0, tables_start(recs));
    assert(recs[0] == meta_pair(m));
    lemma_meta_round_trip(m);
}

/// Enumerating the file that a writer made yields the entries that the
/// writer took, in insertion order.
pub proof fn lemma_enumerate_written(m: MetaView, es: Seq<(Seq<u8>, Seq<FieldValue>)>)
    requires
        valid_meta(m),
        all_acceptable(m, es),
        fits(cache_records(m, es)),
    ensures
        read_entries(cache_image(m, es), m) == Ok::<Seq<(Seq<u8>, Seq<FieldValue>)>, CacheError>(
            es,
        ),
{
    let recs = cache_records(m, es);
    lemma_enumerate_built(recs);
    assert(after_reserved(recs) =~= framed(m.version, es));
    lemma_decode_records_written(m, es);
}

/// Looking up `key` in the file that a writer made yields the fields of
/// exactly the entries that the writer took under `key`, in insertion order.
pub proof fn lemma_lookup_written(
    m: MetaView,
    es: Seq<(Seq<u8>, Seq<FieldValue>)>,
    key: Seq<u8>,
)
    requires
        valid_meta(m),
        all_acceptable(m, es),
        fits(cache_records(m, es)),
    ensures
        lookup_entries(cache_image(m, es), m, key) == Ok::<Seq<Seq<FieldValue>>, CacheError>(
            fields_of(es, key),
        ),
{
    let recs = cache_records(m, es);
    let first = seq![meta_pair(m)];
    let rest = framed(m.version, es);
    lemma_lookup_built(recs, key);
    lemma_values_of_concat(first, rest, key);
    let found = values_of(recs, key);
    assert(first.drop_last() =~= Seq::<(Seq<u8>, Seq<u8>)>::empty());
    assert(values_of(first.drop_last(), key) =~= Seq::<Seq<u8>>::empty());
    if key == meta_key() {
        assert(values_of(first, key) =~= seq![meta_value(m)]);
        assert(found.skip(1) =~= values_of(rest, key));
    } else {
        assert(values_of(first, key) =~= Seq::<Seq<u8>>::empty());
        assert(found.skip(0) =~= values_of(rest, key));
    }
    lemma_decode_values_written(m, es, key);
}

/// A key under which the writer took nothing is not found.
pub proof fn lemma_lookup_missing(m: MetaView, es: Seq<(Seq<u8>, Seq<FieldValue>)>, key: Seq<u8>)
    requires
        valid_meta(m),
        all_acceptable(m, es),
        fits(cache_records(m, es)),
        forall|i: int| 0 <= i < es.len() ==> (#[trigger] es[i]).0 != key,
    ensures
        lookup_entries(cache_image(m, es), m, key) == Ok::<Seq<Seq<FieldValue>>, CacheError>(
            Seq::empty(),
        ),
{
    lemma_lookup_written(m, es, key);
    lemma_fields_of_missing(es, key);
}

/// No entry with the key, no fields.
proof fn lemma_fields_of_missing(es: Seq<(Seq<u8>, Seq<FieldValue>)>, key: Seq<u8>)
    requires
        forall|i: int| 0 <= i < es.len() ==> (#[trigger] es[i]).0 != key,
    ensures
        fields_of(es, key) == Seq::<Seq<FieldValue>>::empty(),
    decreases es.len(),
{
    if es.len() > 0 {
        assert(es.last() == es[es.len() - 1]);
        assert forall|i: int| 0 <= i < es.drop_last().len() implies (#[trigger] es.drop_last()[i]).0
            != key by {
            assert(es.drop_last()[i] == es[i]);
        }
        lemma_fields_of_missing(es.drop_last(), key);
    }
}

/// Two writers that said the same of their file and took the same entries in
/// the same order made the same file, byte for byte.
pub proof fn lemma_written_deterministic(
    m1: MetaView,
    es1: Seq<(Seq<u8>, Seq<FieldValue>)>,
    m2: MetaView,
    es2: Seq<(Seq<u8>, Seq<FieldValue>)>,
)
    requires
        m1 == m2,
        es1 == es2,
    ensures
        cache_image(m1, es1) == cache_image(m2, es2),
{
}

/// Every value that is decoded in a file carries the schema version of the
/// file in its envelope.
pub proof fn lemma_versions_agree(m: MetaView, vals: Seq<Seq<u8>>, i: int)
    requires
        decode_values(m, vals).is_ok(),
        0 <= i < vals.len(),
    ensures
        vals[i].len() >= ENVELOPE_HEAD,
        u16_at(vals[i], 0) == m.version,
        decode_in(m, vals[i]).is_ok(),
    decreases vals.len(),
{
    if i < vals.len() - 1 {
        lemma_versions_agree(m, vals.drop_last(), i);
    }
}

/// What is seen through a view was written for the revision of the view: a
/// member file that a writer made is a file that the writer made for the
/// view's revision and for the class that the member stands for, and its
/// entries are the entries that the writer took.
pub proof fn lemma_member_written_for_revision(
    class: RecordClass,
    rev: Seq<u8>,
    member: Member,
    m: MetaView,
    es: Seq<(Seq<u8>, Seq<FieldValue>)>,
)
    requires
        valid_meta(m),
        all_acceptable(m, es),
        fits(cache_records(m, es)),
        member.image == cache_image(m, es),
        open_image(member.image) == Ok::<MetaView, CacheError>(member.meta),
        member_fault(class, rev, Some(member)).is_none(),
    ensures
        m.revision == rev,
        m.class == class,
        member.meta == m,
        read_entries(member.image, member.meta) == Ok::<
            Seq<(Seq<u8>, Seq<FieldValue>)>,
            CacheError,
        >(es),
{
    lemma_open_written(m, es);
    lemma_enumerate_written(m, es);
}

} // verus!

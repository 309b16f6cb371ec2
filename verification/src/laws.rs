//! What holds of every file that `build_image` makes.

use crate::chunks::{
    chunk_start, concat, lemma_chunk_found, lemma_concat_all, lemma_concat_step,
    lemma_equal_chunks, lemma_middle,
};
use crate::hash::hash_of;
use crate::image::{pairs, Record};
use crate::layout::{
    entries, entry, file_image, fits, header_chunks, image_len, lemma_entries_placed,
    lemma_image_len, lemma_record_in_file, lemma_routed, lemma_sub_table_len, lemma_table_pos,
    record_bytes, record_chunks, record_offset, routed, slot_bytes, slot_chunks, sub_table,
    table_chunks, table_of, table_pos, tables_start, HEADER_LEN,
};
use crate::read::{
    enumerate_image, gather, lookup_image, record_at, record_len, scan, slot_in, slots_in,
};
use crate::table::{lemma_fill, matching, Slot};
use crate::wire::{lemma_u32_found, u32_at, u32_le};
use vstd::prelude::*;

verus! {

/// The values of the records whose key is `key`, in the order of `recs`.
pub open spec fn values_of(recs: Seq<(Seq<u8>, Seq<u8>)>, key: Seq<u8>) -> Seq<Seq<u8>>
    decreases recs.len(),
{
    if recs.len() == 0 {
        Seq::empty()
    } else if recs.last().0 == key {
        values_of(recs.drop_last(), key).push(recs.last().1)
    } else {
        values_of(recs.drop_last(), key)
    }
}

/// Two numbers are read from the eight bytes that spell them.
proof fn lemma_pair_found(s: Seq<u8>, at: int, a: u32, b: u32)
    requires
        0 <= at,
        at + 8 <= s.len(),
        s.subrange(at, at + 8) == u32_le(a) + u32_le(b),
    ensures
        u32_at(s, at) == a,
        u32_at(s, at + 4) == b,
{
    let w = s.subrange(at, at + 8);
    assert(s.subrange(at, at + 4) =~= w.subrange(0, 4));
    assert(w.subrange(0, 4) =~= u32_le(a));
    assert(s.subrange(at + 4, at + 8) =~= w.subrange(4, 8));
    assert(w.subrange(4, 8) =~= u32_le(b));
    lemma_u32_found(s, at, a);
    lemma_u32_found(s, at + 4, b);
}

/// The header of a built file gives, for each sub-table, where it begins and
/// how many slots it has.
pub proof fn lemma_header_found(recs: Seq<(Seq<u8>, Seq<u8>)>, t: int)
    requires
        fits(recs),
        0 <= t < 256,
    ensures
        u32_at(file_image(recs), 8 * t) == table_pos(recs, t),
        u32_at(file_image(recs), 8 * t + 4) == sub_table(recs, t).len(),
{
    reveal(file_image);
    let image = file_image(recs);
    let h = header_chunks(recs);
    lemma_image_len(recs);
    lemma_equal_chunks(h, 8, t);
    lemma_chunk_found(h, t);
    lemma_table_pos(recs, t);
    lemma_sub_table_len(recs, t);
    lemma_routed(entries(recs), t);
    assert(image.subrange(8 * t, 8 * t + 8) =~= concat(h).subrange(8 * t, 8 * t + 8));
    lemma_pair_found(image, 8 * t, table_pos(recs, t) as u32, sub_table(recs, t).len() as u32);
}

/// A record is read back from the bytes that spell it.
proof fn lemma_record_window(data: Seq<u8>, off: int, end: int, r: (Seq<u8>, Seq<u8>))
    requires
        HEADER_LEN <= off,
        off + record_bytes(r).len() <= end <= data.len(),
        r.0.len() <= 0xFFFF_FFFF,
        r.1.len() <= 0xFFFF_FFFF,
        data.subrange(off, off + record_bytes(r).len()) == record_bytes(r),
    ensures
        record_at(data, off, end) == Some(r),
{
    let w = record_bytes(r);
    let klen = r.0.len() as int;
    let vlen = r.1.len() as int;
    assert(w.len() == 8 + klen + vlen);
    assert(data.subrange(off, off + 8) =~= w.subrange(0, 8));
    assert(w.subrange(0, 8) =~= u32_le(klen as u32) + u32_le(vlen as u32));
    lemma_pair_found(data, off, klen as u32, vlen as u32);
    assert(data.subrange(off + 8, off + 8 + klen) =~= w.subrange(8, 8 + klen));
    assert(w.subrange(8, 8 + klen) =~= r.0);
    assert(data.subrange(off + 8 + klen, off + 8 + klen + vlen) =~= w.subrange(
        8 + klen,
        8 + klen + vlen,
    ));
    assert(w.subrange(8 + klen, 8 + klen + vlen) =~= r.1);
}

/// Each record of a built file is read back from its offset.
pub proof fn lemma_record_found(recs: Seq<(Seq<u8>, Seq<u8>)>, i: int, end: int)
    requires
        fits(recs),
        0 <= i < recs.len(),
        tables_start(recs) <= end <= image_len(recs),
    ensures
        record_at(file_image(recs), record_offset(recs, i), end) == Some(recs[i]),
{
    let chunks = record_chunks(recs);
    let at = chunk_start(chunks, i);
    let w = record_bytes(recs[i]);
    lemma_image_len(recs);
    lemma_chunk_found(chunks, i);
    lemma_record_in_file(recs, i);
    assert(chunks[i] == w);
    assert(file_image(recs).subrange(HEADER_LEN + at, HEADER_LEN + at + w.len()) == w) by {
        reveal(file_image);
        lemma_middle(
            concat(header_chunks(recs)),
            concat(chunks),
            concat(table_chunks(recs)),
            at,
            at + w.len(),
        );
    }
    lemma_record_window(file_image(recs), record_offset(recs, i), end, recs[i]);
}

/// A record begins where the one before it ends.
proof fn lemma_next_offset(recs: Seq<(Seq<u8>, Seq<u8>)>, i: int)
    requires
        0 <= i < recs.len(),
    ensures
        record_offset(recs, i + 1) == record_offset(recs, i) + record_len(recs[i]),
{
    lemma_concat_step(record_chunks(recs), i);
}

/// Scanning a built file from the offset of record `i` yields the records
/// from `i` on.
proof fn lemma_scan_built(recs: Seq<(Seq<u8>, Seq<u8>)>, i: int)
    requires
        fits(recs),
        0 <= i <= recs.len(),
    ensures
        scan(file_image(recs), record_offset(recs, i), tables_start(recs)) == Some(recs.skip(i)),
    decreases recs.len() - i,
{
    let end = tables_start(recs);
    if i == recs.len() {
        lemma_concat_all(record_chunks(recs));
        assert(recs.skip(i) =~= Seq::<(Seq<u8>, Seq<u8>)>::empty());
    } else {
        lemma_record_in_file(recs, i);
        lemma_record_found(recs, i, end);
        lemma_next_offset(recs, i);
        lemma_scan_built(recs, i + 1);
        assert(seq![recs[i]] + recs.skip(i + 1) =~= recs.skip(i));
    }
}

/// Enumerating the file built from `recs` yields `recs`, in insertion order.
pub proof fn lemma_enumerate_built(recs: Seq<(Seq<u8>, Seq<u8>)>)
    requires
        fits(recs),
    ensures
        enumerate_image(file_image(recs)) == Some(recs),
{
    let image = file_image(recs);
    lemma_image_len(recs);
    lemma_header_found(recs, 0);
    lemma_table_pos(recs, 0);
    assert(record_chunks(recs).take(0).len() == 0);
    lemma_scan_built(recs, 0);
    assert(recs.skip(0) =~= recs);
}

/// Each sub-table of a built file is read back from its position.
pub proof fn lemma_table_found(recs: Seq<(Seq<u8>, Seq<u8>)>, t: int)
    requires
        fits(recs),
        0 <= t < 256,
    ensures
        slots_in(file_image(recs), table_pos(recs, t), sub_table(recs, t).len()) == sub_table(
            recs,
            t,
        ),
{
    reveal(file_image);
    let image = file_image(recs);
    let table = sub_table(recs, t);
    let pos = table_pos(recs, t);
    let tc = table_chunks(recs);
    let sc = slot_chunks(table);
    lemma_image_len(recs);
    lemma_chunk_found(tc, t);
    lemma_table_pos(recs, t);
    assert forall|j: int| 0 <= j < table.len() implies slot_in(image, pos, j) == table[j] by {
        lemma_equal_chunks(sc, 8, j);
        lemma_chunk_found(sc, j);
        let inner = concat(sc);
        assert(tc[t] == inner);
        assert(image.subrange(pos + 8 * j, pos + 8 * j + 8) =~= inner.subrange(8 * j, 8 * j + 8));
        assert(sc[j] == slot_bytes(table[j]));
        lemma_pair_found(image, pos + 8 * j, table[j].hash, table[j].offset);
    }
    assert(slots_in(image, pos, table.len()) =~= table);
}

/// The entries with hash `h` all belong to the sub-table of `h`.
proof fn lemma_matching_routed(es: Seq<Slot>, h: u32)
    ensures
        matching(routed(es, table_of(h)), h) == matching(es, h),
    decreases es.len(),
{
    if es.len() > 0 {
        lemma_matching_routed(es.drop_last(), h);
        let own = routed(es.drop_last(), table_of(h));
        if table_of(es.last().hash) == table_of(h) {
            assert(own.push(es.last()).drop_last() =~= own);
        }
    }
}

/// The offsets of the first `i` records with the hash of `key` lead to the
/// values that the first `i` records store under `key`.
proof fn lemma_gather_built(recs: Seq<(Seq<u8>, Seq<u8>)>, key: Seq<u8>, i: int)
    requires
        fits(recs),
        0 <= i <= recs.len(),
    ensures
        gather(file_image(recs), matching(entries(recs).take(i), hash_of(key)), key) == Some(
            values_of(recs.take(i), key),
        ),
    decreases i,
{
    let image = file_image(recs);
    let es = entries(recs);
    let h = hash_of(key);
    if i == 0 {
        assert(es.take(0).len() == 0);
        assert(recs.take(0).len() == 0);
    } else {
        lemma_gather_built(recs, key, i - 1);
        assert(es.take(i).drop_last() =~= es.take(i - 1));
        assert(recs.take(i).drop_last() =~= recs.take(i - 1));
        assert(es.take(i).last() == entry(recs, i - 1));
        assert(recs.take(i).last() == recs[i - 1]);
        lemma_image_len(recs);
        lemma_record_in_file(recs, i - 1);
        lemma_record_found(recs, i - 1, image_len(recs));
        let before = matching(es.take(i - 1), h);
        if hash_of(recs[i - 1].0) == h {
            assert(before.push(entry(recs, i - 1).offset).drop_last() =~= before);
        }
    }
}

/// Looking up `key` in the file built from `recs` yields exactly the values
/// of the records whose key is `key`, in insertion order.
pub proof fn lemma_lookup_built(recs: Seq<(Seq<u8>, Seq<u8>)>, key: Seq<u8>)
    requires
        fits(recs),
    ensures
        lookup_image(file_image(recs), key) == Some(values_of(recs, key)),
{
    let image = file_image(recs);
    let h = hash_of(key);
    let t = table_of(h);
    let es = entries(recs);
    let own = routed(es, t);
    lemma_image_len(recs);
    lemma_header_found(recs, t);
    lemma_table_pos(recs, t);
    lemma_table_found(recs, t);
    lemma_entries_placed(recs);
    lemma_routed(es, t);
    lemma_fill(own, 2 * own.len(), h);
    lemma_matching_routed(es, h);
    lemma_gather_built(recs, key, recs.len() as int);
    assert(es.take(recs.len() as int) =~= es);
    assert(recs.take(recs.len() as int) =~= recs);
}

/// A key that no record has is not found in the file built from `recs`.
pub proof fn lemma_lookup_absent(recs: Seq<(Seq<u8>, Seq<u8>)>, key: Seq<u8>)
    requires
        fits(recs),
        forall|i: int| 0 <= i < recs.len() ==> (#[trigger] recs[i]).0 != key,
    ensures
        lookup_image(file_image(recs), key) == Some(Seq::<Seq<u8>>::empty()),
{
    lemma_lookup_built(recs, key);
    lemma_values_of_absent(recs, key);
}

/// No record with the key, no value.
proof fn lemma_values_of_absent(recs: Seq<(Seq<u8>, Seq<u8>)>, key: Seq<u8>)
    requires
        forall|i: int| 0 <= i < recs.len() ==> (#[trigger] recs[i]).0 != key,
    ensures
        values_of(recs, key) == Seq::<Seq<u8>>::empty(),
    decreases recs.len(),
{
    if recs.len() > 0 {
        assert(recs.last() == recs[recs.len() - 1]);
        assert forall|i: int| 0 <= i < recs.drop_last().len() implies (#[trigger] recs.drop_last()[i]).0
            != key by {
            assert(recs.drop_last()[i] == recs[i]);
        }
        lemma_values_of_absent(recs.drop_last(), key);
    }
}

/// Two builds from the same records, in the same order, give the same file,
/// byte for byte.
pub proof fn lemma_build_deterministic(a: Seq<Record>, b: Seq<Record>)
    requires
        pairs(a) == pairs(b),
    ensures
        file_image(pairs(a)) == file_image(pairs(b)),
        image_len(pairs(a)) == image_len(pairs(b)),
{
}

} // verus!

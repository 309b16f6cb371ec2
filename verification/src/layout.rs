//! What a cache file looks like, as a function of the records it holds.
//!
//! A file is a header of 256 pairs (position, slot count), one for each
//! sub-table; then the records in insertion order; then the 256 sub-tables.
//! A record with hash `h` belongs to sub-table `h % 256`, and each sub-table
//! has two slots for every record that belongs to it.

use crate::chunks::{
    chunk_start, concat, lemma_chunk_found, lemma_concat_all, lemma_concat_step,
    lemma_equal_chunks,
};
use crate::hash::hash_of;
use crate::table::{all_placed, fill, lemma_fill, Slot};
use crate::wire::u32_le;
use vstd::prelude::*;

verus! {

/// The length of the header in bytes.
pub const HEADER_LEN: usize = 2048;

/// The number of sub-tables.
pub const TABLES: usize = 256;

/// The greatest length a file may have.
pub const MAX_FILE_LEN: u64 = 0xFFFF_FFFF;

/// A record as it lies in the file: the two lengths, the key, the value.
pub open spec fn record_bytes(r: (Seq<u8>, Seq<u8>)) -> Seq<u8> {
    u32_le(r.0.len() as u32) + u32_le(r.1.len() as u32) + r.0 + r.1
}

/// The records as they lie in the file, one chunk each.
pub open spec fn record_chunks(recs: Seq<(Seq<u8>, Seq<u8>)>) -> Seq<Seq<u8>> {
    Seq::new(recs.len(), |i: int| record_bytes(recs[i]))
}

/// Where record `i` begins in the file.
pub open spec fn record_offset(recs: Seq<(Seq<u8>, Seq<u8>)>, i: int) -> int {
    HEADER_LEN + chunk_start(record_chunks(recs), i)
}

/// The hash-table entry of record `i`.
pub open spec fn entry(recs: Seq<(Seq<u8>, Seq<u8>)>, i: int) -> Slot {
    Slot { hash: hash_of(recs[i].0), offset: record_offset(recs, i) as u32 }
}

/// The hash-table entries of all records, in insertion order.
pub open spec fn entries(recs: Seq<(Seq<u8>, Seq<u8>)>) -> Seq<Slot> {
    Seq::new(recs.len(), |i: int| entry(recs, i))
}

/// The sub-table to which a hash belongs.
pub open spec fn table_of(h: u32) -> int {
    h as int % 256
}

/// The entries that belong to sub-table `t`, in insertion order.
pub open spec fn routed(es: Seq<Slot>, t: int) -> Seq<Slot>
    decreases es.len(),
{
    if es.len() == 0 {
        Seq::empty()
    } else if table_of(es.last().hash) == t {
        routed(es.drop_last(), t).push(es.last())
    } else {
        routed(es.drop_last(), t)
    }
}

/// The number of entries that belong to a sub-table before `t`.
pub open spec fn below(es: Seq<Slot>, t: int) -> int
    decreases es.len(),
{
    if es.len() == 0 {
        0
    } else if table_of(es.last().hash) < t {
        below(es.drop_last(), t) + 1
    } else {
        below(es.drop_last(), t)
    }
}

/// Sub-table `t` of the file that holds `recs`.
pub open spec fn sub_table(recs: Seq<(Seq<u8>, Seq<u8>)>, t: int) -> Seq<Slot> {
    let own = routed(entries(recs), t);
    fill(own, 2 * own.len())
}

/// A slot as it lies in the file.
pub open spec fn slot_bytes(s: Slot) -> Seq<u8> {
    u32_le(s.hash) + u32_le(s.offset)
}

/// The slots of a table as they lie in the file, one chunk each.
pub open spec fn slot_chunks(t: Seq<Slot>) -> Seq<Seq<u8>> {
    Seq::new(t.len(), |i: int| slot_bytes(t[i]))
}

/// The sub-tables as they lie in the file, one chunk each.
pub open spec fn table_chunks(recs: Seq<(Seq<u8>, Seq<u8>)>) -> Seq<Seq<u8>> {
    Seq::new(TABLES as nat, |t: int| concat(slot_chunks(sub_table(recs, t))))
}

/// Where the records end and the sub-tables begin.
pub open spec fn tables_start(recs: Seq<(Seq<u8>, Seq<u8>)>) -> int {
    HEADER_LEN + concat(record_chunks(recs)).len()
}

/// Where sub-table `t` begins in the file.
pub open spec fn table_pos(recs: Seq<(Seq<u8>, Seq<u8>)>, t: int) -> int {
    tables_start(recs) + chunk_start(table_chunks(recs), t)
}

/// The header's pair for sub-table `t`.
pub open spec fn header_entry(recs: Seq<(Seq<u8>, Seq<u8>)>, t: int) -> Seq<u8> {
    u32_le(table_pos(recs, t) as u32) + u32_le(sub_table(recs, t).len() as u32)
}

/// The header, one chunk for each sub-table.
pub open spec fn header_chunks(recs: Seq<(Seq<u8>, Seq<u8>)>) -> Seq<Seq<u8>> {
    Seq::new(TABLES as nat, |t: int| header_entry(recs, t))
}

/// The file that holds `recs`.
#[verifier::opaque]
pub open spec fn file_image(recs: Seq<(Seq<u8>, Seq<u8>)>) -> Seq<u8> {
    concat(header_chunks(recs)) + concat(record_chunks(recs)) + concat(table_chunks(recs))
}

/// The length of the file that holds `recs`: the header, the records, and
/// two slots of eight bytes for every record.
pub open spec fn image_len(recs: Seq<(Seq<u8>, Seq<u8>)>) -> int {
    HEADER_LEN + concat(record_chunks(recs)).len() + 16 * recs.len()
}

/// The file that holds `recs` is no longer than a file may be.
pub open spec fn fits(recs: Seq<(Seq<u8>, Seq<u8>)>) -> bool {
    image_len(recs) <= MAX_FILE_LEN
}

/// In a file that fits, every record lies below the length limit, so its
/// entry holds its true offset, which is not zero, and its lengths fit.
pub proof fn lemma_record_in_file(recs: Seq<(Seq<u8>, Seq<u8>)>, i: int)
    requires
        fits(recs),
        0 <= i < recs.len(),
    ensures
        HEADER_LEN <= record_offset(recs, i),
        record_offset(recs, i) + 8 + recs[i].0.len() + recs[i].1.len() <= tables_start(recs),
        tables_start(recs) <= MAX_FILE_LEN,
        entry(recs, i).offset == record_offset(recs, i),
        entry(recs, i).offset != 0,
{
    lemma_chunk_found(record_chunks(recs), i);
}

/// The entries of a file that fits are all placed.
pub proof fn lemma_entries_placed(recs: Seq<(Seq<u8>, Seq<u8>)>)
    requires
        fits(recs),
    ensures
        all_placed(entries(recs)),
{
    assert forall|i: int| 0 <= i < entries(recs).len() implies (#[trigger] entries(recs)[i]).offset
        != 0 by {
        lemma_record_in_file(recs, i);
    }
}

/// Routing keeps entries placed and cannot make them more.
pub proof fn lemma_routed(es: Seq<Slot>, t: int)
    ensures
        routed(es, t).len() <= es.len(),
        all_placed(es) ==> all_placed(routed(es, t)),
        below(es, t + 1) == below(es, t) + routed(es, t).len(),
        0 <= below(es, t) <= es.len(),
        t <= 0 ==> below(es, t) == 0,
        t >= 256 ==> below(es, t) == es.len(),
    decreases es.len(),
{
    if es.len() > 0 {
        lemma_routed(es.drop_last(), t);
        if all_placed(es) {
            assert forall|i: int| 0 <= i < es.drop_last().len() implies (#[trigger] es.drop_last()[i]).offset
                != 0 by {
                assert(es.drop_last()[i] == es[i]);
            }
            assert(es.last() == es[es.len() - 1]);
        }
    }
}

/// A sub-table has two slots for each of its entries, and takes eight bytes
/// for each slot.
pub proof fn lemma_sub_table_len(recs: Seq<(Seq<u8>, Seq<u8>)>, t: int)
    requires
        fits(recs),
    ensures
        sub_table(recs, t).len() == 2 * routed(entries(recs), t).len(),
        concat(slot_chunks(sub_table(recs, t))).len() == 16 * routed(entries(recs), t).len(),
{
    let own = routed(entries(recs), t);
    lemma_entries_placed(recs);
    lemma_routed(entries(recs), t);
    lemma_fill(own, 2 * own.len(), 0);
    let chunks = slot_chunks(sub_table(recs, t));
    lemma_equal_chunks(chunks, 8, chunks.len() as int);
    lemma_concat_all(chunks);
}

/// Sub-table `t` begins sixteen bytes after the records for each entry of an
/// earlier sub-table.
pub proof fn lemma_table_pos(recs: Seq<(Seq<u8>, Seq<u8>)>, t: int)
    requires
        fits(recs),
        0 <= t <= 256,
    ensures
        table_pos(recs, t) == tables_start(recs) + 16 * below(entries(recs), t),
        table_pos(recs, t) <= image_len(recs),
        t < 256 ==> table_pos(recs, t) + 8 * sub_table(recs, t).len() <= image_len(recs),
    decreases t,
{
    let es = entries(recs);
    lemma_routed(es, t);
    if t > 0 {
        lemma_table_pos(recs, t - 1);
        lemma_concat_step(table_chunks(recs), t - 1);
        lemma_sub_table_len(recs, t - 1);
        lemma_routed(es, t - 1);
    } else {
        assert(table_chunks(recs).take(0).len() == 0);
    }
    if t < 256 {
        lemma_sub_table_len(recs, t);
        lemma_routed(es, t + 1);
    }
}

/// The file that holds `recs` has the length that `image_len` gives.
pub proof fn lemma_image_len(recs: Seq<(Seq<u8>, Seq<u8>)>)
    requires
        fits(recs),
    ensures
        concat(header_chunks(recs)).len() == HEADER_LEN,
        concat(table_chunks(recs)).len() == 16 * recs.len(),
        file_image(recs).len() == image_len(recs),
{
    reveal(file_image);
    let h = header_chunks(recs);
    lemma_equal_chunks(h, 8, 256);
    lemma_concat_all(h);
    lemma_table_pos(recs, 256);
    lemma_concat_all(table_chunks(recs));
    lemma_routed(entries(recs), 256);
}

/// One more record makes the file longer by the record and its two slots.
pub proof fn lemma_image_len_push(recs: Seq<(Seq<u8>, Seq<u8>)>, r: (Seq<u8>, Seq<u8>))
    ensures
        image_len(recs.push(r)) == image_len(recs) + 8 + r.0.len() + r.1.len() + 16,
{
    let more = recs.push(r);
    let n = recs.len() as int;
    lemma_concat_step(record_chunks(more), n);
    lemma_concat_all(record_chunks(more));
    assert(record_chunks(more).take(n) =~= record_chunks(recs));
}

/// The file that holds no record is a header and nothing else.
pub proof fn lemma_image_len_empty()
    ensures
        image_len(Seq::<(Seq<u8>, Seq<u8>)>::empty()) == HEADER_LEN,
{
    assert(record_chunks(Seq::<(Seq<u8>, Seq<u8>)>::empty()).len() == 0);
}

} // verus!

//! Building the image of a cache file from its records.

use crate::chunks::{
    chunk_start, concat, lemma_chunk_found, lemma_chunk_starts, lemma_concat_all,
    lemma_concat_step,
};
use crate::error::CacheError;
use crate::hash::cdb_hash;
use crate::layout::{
    entries, entry, file_image, fits, header_chunks, lemma_entries_placed, lemma_record_in_file,
    lemma_routed, lemma_sub_table_len, lemma_table_pos, record_bytes, record_chunks, routed,
    slot_bytes, slot_chunks, sub_table, table_chunks, table_pos, tables_start, HEADER_LEN,
    MAX_FILE_LEN, TABLES,
};
use crate::table::{all_placed, fill, insert_slot, lemma_fill, new_table, Slot};
use crate::wire::{put_bytes, put_u32};
use vstd::prelude::*;

verus! {

/// One record: a key and the value stored under it.
#[derive(Clone, Debug, PartialEq, Eq)]
pub struct Record {
    pub key: Vec<u8>,
    pub value: Vec<u8>,
}

impl View for Record {
    type V = (Seq<u8>, Seq<u8>);

    open spec fn view(&self) -> (Seq<u8>, Seq<u8>) {
        (self.key@, self.value@)
    }
}

/// The records as pairs of byte strings.
pub open spec fn pairs(records: Seq<Record>) -> Seq<(Seq<u8>, Seq<u8>)> {
    Seq::new(records.len(), |i: int| records[i]@)
}

/// One more record is one more pair.
pub proof fn lemma_pairs_push(records: Seq<Record>, record: Record)
    ensures
        pairs(records.push(record)) == pairs(records).push(record@),
{
    assert(pairs(records.push(record)) =~= pairs(records).push(record@));
}

/// Computes the hash-table entry of every record and where the records
/// end, or finds that the file would be too long.
fn index_entries(records: &Vec<Record>) -> (r: Option<(Vec<Slot>, u64)>)
    ensures
        match r {
            Some((es, end)) => {
                &&& fits(pairs(records@))
                &&& es@ == entries(pairs(records@))
                &&& end == tables_start(pairs(records@))
            },
            None => !fits(pairs(records@)),
        },
{
    let ghost recs = pairs(records@);
    let ghost chunks = record_chunks(recs);
    let n = records.len();
    let mut es: Vec<Slot> = Vec::new();
    let mut cursor: u64 = HEADER_LEN as u64;
    let mut i: usize = 0;
    proof {
        assert(chunks.take(0).len() == 0);
    }
    while i < n
        invariant
            n == records@.len(),
            recs == pairs(records@),
            chunks == record_chunks(recs),
            i <= n,
            cursor == HEADER_LEN + chunk_start(chunks, i as int),
            cursor + 16 * i <= MAX_FILE_LEN,
            es@ == entries(recs).take(i as int),
        decreases n - i,
    {
        let klen = records[i].key.len();
        let vlen = records[i].value.len();
        proof {
            lemma_chunk_found(chunks, i as int);
            lemma_concat_step(chunks, i as int);
            lemma_chunk_starts(chunks, i + 1, n as int);
            assert(chunks[i as int] == record_bytes(recs[i as int]));
        }
        if klen > 0xFFFF_FFFF || vlen > 0xFFFF_FFFF {
            return None;
        }
        let next: u64 = cursor + 8 + klen as u64 + vlen as u64;
        if next + 16 * (i as u64 + 1) > MAX_FILE_LEN {
            return None;
        }
        let h = cdb_hash(records[i].key.as_slice());
        es.push(Slot { hash: h, offset: cursor as u32 });
        proof {
            assert(es@[i as int] == entry(recs, i as int));
            assert(es@ =~= entries(recs).take(i + 1));
        }
        cursor = next;
        i = i + 1;
    }
    proof {
        lemma_concat_all(chunks);
        assert(entries(recs).take(n as int) =~= entries(recs));
    }
    Some((es, cursor))
}

/// The first entries have no more entries for a sub-table than all have.
proof fn lemma_routed_prefix(es: Seq<Slot>, i: int, t: int)
    requires
        0 <= i <= es.len(),
    ensures
        routed(es.take(i), t).len() <= routed(es, t).len(),
    decreases es.len() - i,
{
    if i == es.len() {
        assert(es.take(i) =~= es);
    } else {
        assert(es.take(i + 1).drop_last() =~= es.take(i));
        lemma_routed_prefix(es, i + 1, t);
    }
}

/// Counts, for each sub-table, the entries that belong to it.
fn count_routed(es: &Vec<Slot>) -> (counts: Vec<usize>)
    ensures
        counts@.len() == TABLES,
        forall|t: int| 0 <= t < TABLES ==> (#[trigger] counts@[t]) == routed(es@, t).len(),
{
    let mut counts: Vec<usize> = Vec::new();
    let mut t: usize = 0;
    while t < TABLES
        invariant
            t <= TABLES,
            counts@.len() == t,
            forall|k: int| 0 <= k < t ==> (#[trigger] counts@[k]) == 0,
        decreases TABLES - t,
    {
        counts.push(0);
        t = t + 1;
    }
    let mut i: usize = 0;
    proof {
        assert(es@.take(0).len() == 0);
    }
    while i < es.len()
        invariant
            i <= es@.len(),
            counts@.len() == TABLES,
            forall|k: int|
                0 <= k < TABLES ==> (#[trigger] counts@[k]) == routed(es@.take(i as int), k).len(),
        decreases es@.len() - i,
    {
        let own: usize = (es[i].hash % 256) as usize;
        proof {
            assert(es@.take(i + 1).drop_last() =~= es@.take(i as int));
            lemma_routed(es@.take(i as int), own as int);
        }
        let more = counts[own] + 1;
        counts.set(own, more);
        i = i + 1;
    }
    proof {
        assert(es@.take(i as int) =~= es@);
    }
    counts
}

/// Builds all sub-tables: each gets two slots for every entry that belongs
/// to it, and the entries are inserted in their order.
fn build_tables(es: &Vec<Slot>, Ghost(recs): Ghost<Seq<(Seq<u8>, Seq<u8>)>>) -> (tables: Vec<
    Vec<Slot>,
>)
    requires
        fits(recs),
        es@ == entries(recs),
    ensures
        tables@.len() == TABLES,
        forall|t: int| 0 <= t < TABLES ==> (#[trigger] tables@[t])@ == sub_table(recs, t),
{
    let counts = count_routed(es);
    let mut tables: Vec<Vec<Slot>> = Vec::new();
    let mut t: usize = 0;
    proof {
        lemma_entries_placed(recs);
        assert(es@.take(0).len() == 0);
    }
    while t < TABLES
        invariant
            fits(recs),
            es@ == entries(recs),
            t <= TABLES,
            counts@.len() == TABLES,
            forall|k: int| 0 <= k < TABLES ==> (#[trigger] counts@[k]) == routed(es@, k).len(),
            tables@.len() == t,
            forall|k: int|
                0 <= k < t ==> (#[trigger] tables@[k])@ == fill(
                    routed(es@.take(0), k),
                    2 * routed(es@, k).len(),
                ),
        decreases TABLES - t,
    {
        proof {
            lemma_routed(es@, t as int);
        }
        tables.push(new_table(2 * counts[t]));
        t = t + 1;
    }
    let mut i: usize = 0;
    while i < es.len()
        invariant
            all_placed(es@),
            i <= es@.len(),
            tables@.len() == TABLES,
            forall|k: int|
                0 <= k < TABLES ==> (#[trigger] tables@[k])@ == fill(
                    routed(es@.take(i as int), k),
                    2 * routed(es@, k).len(),
                ),
        decreases es@.len() - i,
    {
        let own: usize = (es[i].hash % 256) as usize;
        proof {
            let before = routed(es@.take(i as int), own as int);
            assert(es@.take(i + 1).drop_last() =~= es@.take(i as int));
            assert(all_placed(es@.take(i as int))) by {
                assert forall|k: int| 0 <= k < i implies (#[trigger] es@.take(i as int)[k]).offset
                    != 0 by {
                    assert(es@.take(i as int)[k] == es@[k]);
                }
            }
            lemma_routed(es@.take(i as int), own as int);
            lemma_routed_prefix(es@, i + 1, own as int);
            lemma_fill(before, 2 * routed(es@, own as int).len(), 0);
        }
        let ghost prev = tables@;
        insert_slot(&mut tables[own], es[i].hash, es[i].offset);
        proof {
            let now = es@.take(i + 1);
            let before = routed(es@.take(i as int), own as int);
            assert(now.last() == es@[i as int]);
            assert(before.push(es@[i as int]).drop_last() =~= before);
            assert forall|k: int| 0 <= k < TABLES implies (#[trigger] tables@[k])@ == fill(
                routed(now, k),
                2 * routed(es@, k).len(),
            ) by {
                if k != own {
                    assert(tables@[k] == prev[k]);
                }
            }
        }
        i = i + 1;
    }
    proof {
        assert(es@.take(i as int) =~= es@);
    }
    tables
}

/// Appends a record as it lies in the file.
fn put_record(out: &mut Vec<u8>, record: &Record)
    requires
        record@.0.len() <= 0xFFFF_FFFF,
        record@.1.len() <= 0xFFFF_FFFF,
    ensures
        final(out)@ == old(out)@ + record_bytes(record@),
{
    put_u32(out, record.key.len() as u32);
    put_u32(out, record.value.len() as u32);
    put_bytes(out, record.key.as_slice());
    put_bytes(out, record.value.as_slice());
    assert(out@ =~= old(out)@ + record_bytes(record@));
}

/// Appends a slot as it lies in the file.
fn put_slot(out: &mut Vec<u8>, slot: Slot)
    ensures
        final(out)@ == old(out)@ + slot_bytes(slot),
{
    put_u32(out, slot.hash);
    put_u32(out, slot.offset);
    assert(out@ =~= old(out)@ + slot_bytes(slot));
}

/// Builds the image of the file that holds `records`, in their order.
///
/// Fails with `FileTooLarge`, and only then, when the file would be longer
/// than a file may be.
pub fn build_image(records: &Vec<Record>) -> (r: Result<Vec<u8>, CacheError>)
    ensures
        match r {
            Ok(image) => fits(pairs(records@)) && image@ == file_image(pairs(records@)),
            Err(e) => e == CacheError::FileTooLarge && !fits(pairs(records@)),
        },
{
    let ghost recs = pairs(records@);
    let (es, end) = match index_entries(records) {
        Some(found) => found,
        None => {
            return Err(CacheError::FileTooLarge);
        },
    };
    let tables = build_tables(&es, Ghost(recs));
    let mut out: Vec<u8> = Vec::new();

    // The header: where each sub-table begins and how many slots it has.
    let ghost hchunks = header_chunks(recs);
    let mut t: usize = 0;
    let mut pos: u64 = end;
    proof {
        assert(hchunks.take(0).len() == 0);
        lemma_table_pos(recs, 0);
    }
    while t < TABLES
        invariant
            fits(recs),
            t <= TABLES,
            hchunks == header_chunks(recs),
            tables@.len() == TABLES,
            forall|k: int| 0 <= k < TABLES ==> (#[trigger] tables@[k])@ == sub_table(recs, k),
            out@ == concat(hchunks.take(t as int)),
            pos == table_pos(recs, t as int),
        decreases TABLES - t,
    {
        let slots = tables[t].len();
        proof {
            lemma_table_pos(recs, t as int);
            lemma_table_pos(recs, t + 1);
            lemma_sub_table_len(recs, t as int);
            lemma_concat_step(hchunks, t as int);
            lemma_concat_step(table_chunks(recs), t as int);
        }
        put_u32(&mut out, pos as u32);
        put_u32(&mut out, slots as u32);
        pos = pos + 8 * (slots as u64);
        t = t + 1;
    }
    proof {
        lemma_concat_all(hchunks);
    }

    // The records, in insertion order.
    let ghost header = out@;
    let ghost rchunks = record_chunks(recs);
    let n = records.len();
    let mut i: usize = 0;
    proof {
        assert(rchunks.take(0).len() == 0);
    }
    while i < n
        invariant
            n == records@.len(),
            recs == pairs(records@),
            rchunks == record_chunks(recs),
            fits(recs),
            i <= n,
            out@ == header + concat(rchunks.take(i as int)),
        decreases n - i,
    {
        proof {
            lemma_record_in_file(recs, i as int);
            lemma_concat_step(rchunks, i as int);
            assert(rchunks[i as int] == record_bytes(records@[i as int]@));
        }
        put_record(&mut out, &records[i]);
        proof {
            assert(out@ =~= header + concat(rchunks.take(i + 1)));
        }
        i = i + 1;
    }
    proof {
        lemma_concat_all(rchunks);
    }

    // The sub-tables.
    let ghost front = out@;
    let ghost tchunks = table_chunks(recs);
    t = 0;
    proof {
        assert(tchunks.take(0).len() == 0);
    }
    while t < TABLES
        invariant
            t <= TABLES,
            tchunks == table_chunks(recs),
            tables@.len() == TABLES,
            forall|k: int| 0 <= k < TABLES ==> (#[trigger] tables@[k])@ == sub_table(recs, k),
            out@ == front + concat(tchunks.take(t as int)),
        decreases TABLES - t,
    {
        let table = &tables[t];
        let ghost before = out@;
        let ghost schunks = slot_chunks(table@);
        let mut j: usize = 0;
        proof {
            assert(schunks.take(0).len() == 0);
        }
        while j < table.len()
            invariant
                j <= table@.len(),
                schunks == slot_chunks(table@),
                out@ == before + concat(schunks.take(j as int)),
            decreases table@.len() - j,
        {
            proof {
                lemma_concat_step(schunks, j as int);
            }
            put_slot(&mut out, table[j]);
            proof {
                assert(out@ =~= before + concat(schunks.take(j + 1)));
            }
            j = j + 1;
        }
        proof {
            lemma_concat_all(schunks);
            lemma_concat_step(tchunks, t as int);
            assert(tchunks[t as int] == concat(schunks));
            assert(out@ =~= front + concat(tchunks.take(t + 1)));
        }
        t = t + 1;
    }
    proof {
        lemma_concat_all(tchunks);
        reveal(file_image);
    }
    Ok(out)
}

} // verus!

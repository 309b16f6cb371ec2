//! Reading records out of the image of a cache file.
//!
//! The functions here take any bytes. What they return is defined on the
//! bytes alone, so that a damaged file is refused instead of trusted; that a
//! file built from records gives those records back is proved in `laws`.

use crate::error::CacheError;
use crate::hash::{cdb_hash, hash_of};
use crate::image::{pairs, Record};
use crate::layout::{table_of, HEADER_LEN};
use crate::table::{candidates, lemma_probe_start_in_range, probe_start, slot_at, walk, wrap, Slot};
use crate::wire::{copy_bytes, copy_range, get_u32, same_bytes, u32_at};
use vstd::prelude::*;

verus! {

/// The record that begins at `off` and ends no later than `end`, if the
/// bytes hold one there.
pub open spec fn record_at(data: Seq<u8>, off: int, end: int) -> Option<(Seq<u8>, Seq<u8>)> {
    if off < HEADER_LEN || off + 8 > end || end > data.len() {
        None
    } else {
        let klen = u32_at(data, off) as int;
        let vlen = u32_at(data, off + 4) as int;
        if off + 8 + klen + vlen > end {
            None
        } else {
            Some(
                (
                    data.subrange(off + 8, off + 8 + klen),
                    data.subrange(off + 8 + klen, off + 8 + klen + vlen),
                ),
            )
        }
    }
}

/// The number of bytes that a record takes in the file.
pub open spec fn record_len(r: (Seq<u8>, Seq<u8>)) -> int {
    8 + r.0.len() as int + r.1.len() as int
}

/// The records that lie one after the other from `cursor` up to `end`, if
/// the bytes between are records and nothing else.
pub open spec fn scan(data: Seq<u8>, cursor: int, end: int) -> Option<Seq<(Seq<u8>, Seq<u8>)>>
    decreases end - cursor,
{
    if cursor >= end {
        Some(Seq::empty())
    } else {
        match record_at(data, cursor, end) {
            None => None,
            Some(r) => match scan(data, cursor + record_len(r), end) {
                None => None,
                Some(rest) => Some(seq![r] + rest),
            },
        }
    }
}

/// Where the records end: the position of the first sub-table.
pub open spec fn records_end(data: Seq<u8>) -> int {
    u32_at(data, 0) as int
}

/// All records of a file in insertion order; nothing if the bytes are not a
/// well-formed file.
pub open spec fn enumerate_image(data: Seq<u8>) -> Option<Seq<(Seq<u8>, Seq<u8>)>> {
    if data.len() < HEADER_LEN || records_end(data) > data.len() {
        None
    } else {
        scan(data, HEADER_LEN as int, records_end(data))
    }
}

/// Slot `i` of the sub-table that begins at `pos`.
pub open spec fn slot_in(data: Seq<u8>, pos: int, i: int) -> Slot {
    Slot { hash: u32_at(data, pos + 8 * i), offset: u32_at(data, pos + 8 * i + 4) }
}

/// The sub-table of `len` slots that begins at `pos`.
pub open spec fn slots_in(data: Seq<u8>, pos: int, len: nat) -> Seq<Slot> {
    Seq::new(len, |i: int| slot_in(data, pos, i))
}

/// The values of the records at the offsets `cands` whose key is `key`, in
/// the order of `cands`; nothing if one of the offsets holds no record.
pub open spec fn gather(data: Seq<u8>, cands: Seq<u32>, key: Seq<u8>) -> Option<Seq<Seq<u8>>>
    decreases cands.len(),
{
    if cands.len() == 0 {
        Some(Seq::empty())
    } else {
        match gather(data, cands.drop_last(), key) {
            None => None,
            Some(found) => match record_at(data, cands.last() as int, data.len() as int) {
                None => None,
                Some(r) => Some(
                    if r.0 == key {
                        found.push(r.1)
                    } else {
                        found
                    },
                ),
            },
        }
    }
}

/// The values stored under `key`, as the hash table of the file leads to
/// them; nothing if the bytes are not a well-formed file.
pub open spec fn lookup_image(data: Seq<u8>, key: Seq<u8>) -> Option<Seq<Seq<u8>>> {
    if data.len() < HEADER_LEN {
        None
    } else {
        let h = hash_of(key);
        let pos = u32_at(data, 8 * table_of(h)) as int;
        let len = u32_at(data, 8 * table_of(h) + 4);
        if pos + 8 * len > data.len() {
            None
        } else {
            gather(data, candidates(slots_in(data, pos, len as nat), h), key)
        }
    }
}

/// The byte strings that the vectors hold.
pub open spec fn byte_strings(values: Seq<Vec<u8>>) -> Seq<Seq<u8>> {
    Seq::new(values.len(), |i: int| values[i]@)
}

/// Once an offset holds no record, no further offsets mend it.
pub proof fn lemma_gather_fails(data: Seq<u8>, a: Seq<u32>, b: Seq<u32>, key: Seq<u8>)
    requires
        gather(data, a, key).is_none(),
    ensures
        gather(data, a + b, key).is_none(),
    decreases b.len(),
{
    if b.len() == 0 {
        assert(a + b =~= a);
    } else {
        lemma_gather_fails(data, a, b.drop_last(), key);
        assert((a + b).drop_last() =~= a + b.drop_last());
    }
}

/// Reads the record that begins at `off` and ends no later than `end`.
pub fn read_record(data: &[u8], off: usize, end: usize) -> (r: Option<Record>)
    ensures
        match r {
            Some(rec) => record_at(data@, off as int, end as int) == Some(rec@),
            None => record_at(data@, off as int, end as int).is_none(),
        },
{
    if off < HEADER_LEN || end > data.len() || end < 8 || off > end - 8 {
        return None;
    }
    let klen = get_u32(data, off);
    let vlen = get_u32(data, off + 4);
    let room: usize = end - 8 - off;
    if klen as u64 + vlen as u64 > room as u64 {
        return None;
    }
    let key_end: usize = off + 8 + klen as usize;
    let key = copy_range(data, off + 8, key_end);
    let value = copy_range(data, key_end, key_end + vlen as usize);
    Some(Record { key, value })
}

/// Returns all records of a file, in insertion order.
///
/// Fails with `CorruptCache`, and only then, when the bytes are shorter than
/// a header, the records section reaches beyond the bytes, or a record
/// overruns the records section.
pub fn enumerate(data: &[u8]) -> (r: Result<Vec<Record>, CacheError>)
    ensures
        match r {
            Ok(records) => enumerate_image(data@) == Some(pairs(records@)),
            Err(e) => e == CacheError::CorruptCache && enumerate_image(data@).is_none(),
        },
{
    if data.len() < HEADER_LEN {
        return Err(CacheError::CorruptCache);
    }
    let end = get_u32(data, 0) as usize;
    if end > data.len() {
        return Err(CacheError::CorruptCache);
    }
    let mut out: Vec<Record> = Vec::new();
    let mut cursor: usize = HEADER_LEN;
    while cursor < end
        invariant
            HEADER_LEN <= data@.len(),
            end == records_end(data@),
            end <= data@.len(),
            HEADER_LEN <= cursor,
            match scan(data@, cursor as int, end as int) {
                None => scan(data@, HEADER_LEN as int, end as int).is_none(),
                Some(rest) => scan(data@, HEADER_LEN as int, end as int) == Some(
                    pairs(out@) + rest,
                ),
            },
        decreases end - cursor,
    {
        match read_record(data, cursor, end) {
            None => {
                assert(scan(data@, cursor as int, end as int).is_none());
                return Err(CacheError::CorruptCache);
            },
            Some(rec) => {
                let ghost before = pairs(out@);
                let ghost r = rec@;
                cursor = cursor + 8 + rec.key.len() + rec.value.len();
                out.push(rec);
                proof {
                    assert(pairs(out@) =~= before.push(r));
                    match scan(data@, cursor as int, end as int) {
                        None => {},
                        Some(rest) => {
                            assert(before + (seq![r] + rest) =~= pairs(out@) + rest);
                        },
                    }
                }
            },
        }
    }
    proof {
        assert(pairs(out@) + Seq::<(Seq<u8>, Seq<u8>)>::empty() =~= pairs(out@));
    }
    Ok(out)
}

/// Returns the values stored under `key`, in insertion order.
///
/// Fails with `CorruptCache`, and only then, when the bytes are shorter than
/// a header, the sub-table of the key reaches beyond the bytes, or a slot on
/// the key's walk points to where no record lies.
pub fn lookup(data: &[u8], key: &[u8]) -> (r: Result<Vec<Vec<u8>>, CacheError>)
    ensures
        match r {
            Ok(values) => lookup_image(data@, key@) == Some(byte_strings(values@)),
            Err(e) => e == CacheError::CorruptCache && lookup_image(data@, key@).is_none(),
        },
{
    if data.len() < HEADER_LEN {
        return Err(CacheError::CorruptCache);
    }
    let h = cdb_hash(key);
    let t: usize = (h % 256) as usize;
    let pos = get_u32(data, 8 * t);
    let len = get_u32(data, 8 * t + 4);
    if pos as u64 + 8 * (len as u64) > data.len() as u64 {
        return Err(CacheError::CorruptCache);
    }
    let mut out: Vec<Vec<u8>> = Vec::new();
    if len == 0 {
        proof {
            assert(byte_strings(out@) =~= Seq::<Seq<u8>>::empty());
        }
        return Ok(out);
    }
    let ghost table = slots_in(data@, pos as int, len as nat);
    let ghost seen: Seq<u32> = Seq::empty();
    let start: usize = ((h / 256) % len) as usize;
    let mut at: usize = start;
    let mut d: u32 = 0;
    proof {
        lemma_probe_start_in_range(h, len as int);
        assert(seen + walk(table, h, start as int, 0) =~= candidates(table, h));
        assert(byte_strings(out@) =~= Seq::<Seq<u8>>::empty());
    }
    while d < len
        invariant
            HEADER_LEN <= data@.len() <= usize::MAX,
            pos + 8 * len <= data@.len(),
            0 < len,
            table == slots_in(data@, pos as int, len as nat),
            start == probe_start(h, len as int),
            0 <= start < len,
            d <= len,
            at == wrap(start + d, len as int),
            d == len ==> at == start,
            lookup_image(data@, key@) == gather(data@, candidates(table, h), key@),
            candidates(table, h) == seen + walk(table, h, start as int, d as int),
            gather(data@, seen, key@) == Some(byte_strings(out@)),
            h == hash_of(key@),
        decreases len - d,
    {
        let slot_pos: usize = pos as usize + 8 * at;
        let slot_hash = get_u32(data, slot_pos);
        let slot_offset = get_u32(data, slot_pos + 4);
        proof {
            assert(slot_at(table, start as int, d as int) == slot_in(data@, pos as int, at as int));
        }
        if slot_offset == 0 {
            proof {
                assert(seen + Seq::<u32>::empty() =~= seen);
            }
            return Ok(out);
        }
        if slot_hash == h {
            let ghost longer = seen.push(slot_offset);
            proof {
                assert(longer.drop_last() =~= seen);
                assert(seen + (seq![slot_offset] + walk(table, h, start as int, d + 1)) =~= longer
                    + walk(table, h, start as int, d + 1));
            }
            match read_record(data, slot_offset as usize, data.len()) {
                None => {
                    proof {
                        lemma_gather_fails(
                            data@,
                            longer,
                            walk(table, h, start as int, d + 1),
                            key@,
                        );
                    }
                    return Err(CacheError::CorruptCache);
                },
                Some(rec) => {
                    let ghost before = byte_strings(out@);
                    if same_bytes(rec.key.as_slice(), key) {
                        let ghost v = rec.value@;
                        out.push(rec.value);
                        proof {
                            assert(byte_strings(out@) =~= before.push(v));
                        }
                    }
                    proof {
                        seen = longer;
                    }
                },
            }
        }
        d = d + 1;
        at = if at + 1 == len as usize {
            0
        } else {
            at + 1
        };
    }
    proof {
        assert(seen + Seq::<u32>::empty() =~= seen);
    }
    Ok(out)
}

/// A place in the records of a file, from which the records are read one
/// by one up to the end of the records. A cursor runs through the records
/// once; to read them again, a new cursor is opened.
#[derive(Debug)]
pub struct Cursor {
    at: usize,
    end: usize,
}

impl Cursor {
    /// Where the next record begins.
    pub closed spec fn position(&self) -> int {
        self.at as int
    }

    /// Where the records end.
    pub closed spec fn limit(&self) -> int {
        self.end as int
    }

    /// Opens a cursor at the first record of a file.
    ///
    /// Fails with `CorruptCache`, and only then, when the bytes are shorter
    /// than a header or the records section reaches beyond the bytes.
    pub fn open(data: &[u8]) -> (r: Result<Cursor, CacheError>)
        ensures
            match r {
                Ok(cursor) => {
                    &&& HEADER_LEN <= data@.len()
                    &&& records_end(data@) <= data@.len()
                    &&& cursor.position() == HEADER_LEN
                    &&& cursor.limit() == records_end(data@)
                    &&& enumerate_image(data@) == scan(data@, cursor.position(), cursor.limit())
                },
                Err(e) => e == CacheError::CorruptCache && (data@.len() < HEADER_LEN
                    || records_end(data@) > data@.len()),
            },
    {
        if data.len() < HEADER_LEN {
            return Err(CacheError::CorruptCache);
        }
        let end = get_u32(data, 0) as usize;
        if end > data.len() {
            return Err(CacheError::CorruptCache);
        }
        Ok(Cursor { at: HEADER_LEN, end })
    }

    /// Reads the next record and moves behind it. At the end of the records
    /// there is no next record, and the cursor stays.
    ///
    /// Fails with `CorruptCache`, and only then, when the bytes at the
    /// cursor are no record that ends within the records; the cursor then
    /// stays where it is.
    pub fn advance(&mut self, data: &[u8]) -> (r: Result<Option<Record>, CacheError>)
        ensures
            final(self).limit() == old(self).limit(),
            match r {
                Ok(Some(rec)) => {
                    &&& old(self).position() < old(self).limit()
                    &&& record_at(data@, old(self).position(), old(self).limit()) == Some(rec@)
                    &&& final(self).position() == old(self).position() + record_len(rec@)
                    &&& scan(data@, old(self).position(), old(self).limit()) == (match scan(
                        data@,
                        final(self).position(),
                        final(self).limit(),
                    ) {
                        Some(rest) => Some(seq![rec@] + rest),
                        None => None,
                    })
                },
                Ok(None) => {
                    &&& old(self).position() >= old(self).limit()
                    &&& final(self).position() == old(self).position()
                    &&& scan(data@, old(self).position(), old(self).limit()) == Some(
                        Seq::<(Seq<u8>, Seq<u8>)>::empty(),
                    )
                },
                Err(e) => {
                    &&& e == CacheError::CorruptCache
                    &&& old(self).position() < old(self).limit()
                    &&& record_at(data@, old(self).position(), old(self).limit()).is_none()
                    &&& final(self).position() == old(self).position()
                    &&& scan(data@, old(self).position(), old(self).limit()).is_none()
                },
            },
    {
        if self.at >= self.end {
            return Ok(None);
        }
        match read_record(data, self.at, self.end) {
            None => Err(CacheError::CorruptCache),
            Some(rec) => {
                self.at = self.at + 8 + rec.key.len() + rec.value.len();
                Ok(Some(rec))
            },
        }
    }
}

/// The values that the offsets `cands` lead to begin with what the first
/// offset leads to.
pub proof fn lemma_gather_first(data: Seq<u8>, c: u32, rest: Seq<u32>, key: Seq<u8>)
    ensures
        gather(data, seq![c] + rest, key) == (match record_at(
            data,
            c as int,
            data.len() as int,
        ) {
            None => None,
            Some(r) => match gather(data, rest, key) {
                None => None,
                Some(more) => Some(
                    if r.0 == key {
                        seq![r.1] + more
                    } else {
                        more
                    },
                ),
            },
        }),
    decreases rest.len(),
{
    let all = seq![c] + rest;
    let first = record_at(data, c as int, data.len() as int);
    if rest.len() == 0 {
        assert(all.drop_last() =~= Seq::<u32>::empty());
        assert(all.last() == c);
        assert(gather(data, all.drop_last(), key) == Some(Seq::<Seq<u8>>::empty()));
        assert(gather(data, rest, key) == Some(Seq::<Seq<u8>>::empty()));
        if first.is_some() {
            let r = first.unwrap();
            assert(Seq::<Seq<u8>>::empty().push(r.1) =~= seq![r.1] + Seq::<Seq<u8>>::empty());
        }
    } else {
        let front = rest.drop_last();
        let last = record_at(data, rest.last() as int, data.len() as int);
        lemma_gather_first(data, c, front, key);
        assert(all.drop_last() =~= seq![c] + front);
        assert(all.last() == rest.last());
        if first.is_some() && gather(data, front, key).is_some() && last.is_some() {
            let r = first.unwrap();
            let more = gather(data, front, key).unwrap();
            let l = last.unwrap();
            if r.0 == key && l.0 == key {
                assert((seq![r.1] + more).push(l.1) =~= seq![r.1] + more.push(l.1));
            }
        }
    }
}

/// A walk through the sub-table of a key, from which the values under the
/// key are read one by one. A probe walks once; it takes no more steps than
/// the sub-table has slots.
#[derive(Debug)]
pub struct Probe {
    key: Vec<u8>,
    hash: u32,
    pos: u32,
    len: u32,
    start: u32,
    done: u32,
}

impl Probe {
    #[verifier::type_invariant]
    spec fn well_formed(self) -> bool {
        &&& self.hash == hash_of(self.key@)
        &&& self.done <= self.len
        &&& self.len > 0 ==> self.start == probe_start(self.hash, self.len as int)
    }

    /// The key that the probe looks for.
    pub closed spec fn key(&self) -> Seq<u8> {
        self.key@
    }

    /// The number of slots that the probe has passed.
    pub closed spec fn steps(&self) -> int {
        self.done as int
    }

    /// The values that the probe has yet to yield from the bytes `data`;
    /// nothing if the sub-table reaches beyond the bytes or a slot on the
    /// way points to where no record lies.
    pub closed spec fn remaining(&self, data: Seq<u8>) -> Option<Seq<Seq<u8>>> {
        if self.pos + 8 * self.len > data.len() {
            None
        } else if self.len == 0 {
            Some(Seq::empty())
        } else {
            gather(
                data,
                walk(
                    slots_in(data, self.pos as int, self.len as nat),
                    self.hash,
                    self.start as int,
                    self.done as int,
                ),
                self.key@,
            )
        }
    }

    /// Begins the walk for `key`.
    ///
    /// Fails with `CorruptCache`, and only then, when the bytes are shorter
    /// than a header.
    pub fn open(data: &[u8], key: &[u8]) -> (r: Result<Probe, CacheError>)
        ensures
            match r {
                Ok(probe) => {
                    &&& HEADER_LEN <= data@.len()
                    &&& probe.key() == key@
                    &&& probe.steps() == 0
                    &&& probe.remaining(data@) == lookup_image(data@, key@)
                },
                Err(e) => e == CacheError::CorruptCache && data@.len() < HEADER_LEN,
            },
    {
        if data.len() < HEADER_LEN {
            return Err(CacheError::CorruptCache);
        }
        let h = cdb_hash(key);
        let t: usize = (h % 256) as usize;
        let pos = get_u32(data, 8 * t);
        let len = get_u32(data, 8 * t + 4);
        let start: u32 = if len == 0 {
            0
        } else {
            (h / 256) % len
        };
        Ok(Probe { key: copy_bytes(key), hash: h, pos, len, start, done: 0 })
    }

    /// Walks on to the next record under the key and yields its value. At
    /// the end of the walk there is no next value, and the probe stays.
    ///
    /// Fails with `CorruptCache`, and only then, when the sub-table reaches
    /// beyond the bytes or the next slot with the key's hash points to where
    /// no record lies.
    pub fn advance(&mut self, data: &[u8]) -> (r: Result<Option<Vec<u8>>, CacheError>)
        ensures
            final(self).key() == old(self).key(),
            final(self).steps() >= old(self).steps(),
            match r {
                Ok(Some(value)) => old(self).remaining(data@) == (match final(self).remaining(
                    data@,
                ) {
                    Some(more) => Some(seq![value@] + more),
                    None => None,
                }),
                Ok(None) => {
                    &&& old(self).remaining(data@) == Some(Seq::<Seq<u8>>::empty())
                    &&& final(self).remaining(data@) == Some(Seq::<Seq<u8>>::empty())
                },
                Err(e) => e == CacheError::CorruptCache && old(self).remaining(data@).is_none(),
            },
    {
        proof {
            use_type_invariant(&*self);
        }
        if self.pos as u64 + 8 * (self.len as u64) > data.len() as u64 {
            return Err(CacheError::CorruptCache);
        }
        let ghost table = slots_in(data@, self.pos as int, self.len as nat);
        let ghost first = self.remaining(data@);
        while self.done < self.len
            invariant
                self.hash == hash_of(self.key@),
                self.key@ == old(self).key@,
                self.pos == old(self).pos,
                self.len == old(self).len,
                self.start == old(self).start,
                old(self).done <= self.done <= self.len,
                self.len > 0 ==> self.start == probe_start(self.hash, self.len as int),
                self.pos + 8 * self.len <= data@.len() <= usize::MAX,
                table == slots_in(data@, self.pos as int, self.len as nat),
                first == old(self).remaining(data@),
                first == self.remaining(data@),
            decreases self.len - self.done,
        {
            let wide: u64 = self.start as u64 + self.done as u64;
            let at: usize = if wide >= self.len as u64 {
                (wide - self.len as u64) as usize
            } else {
                wide as usize
            };
            let slot_pos: usize = self.pos as usize + 8 * at;
            let slot_hash = get_u32(data, slot_pos);
            let slot_offset = get_u32(data, slot_pos + 4);
            proof {
                lemma_probe_start_in_range(self.hash, self.len as int);
                assert(at == wrap(self.start + self.done, self.len as int));
                assert(slot_at(table, self.start as int, self.done as int) == slot_in(
                    data@,
                    self.pos as int,
                    at as int,
                ));
            }
            if slot_offset == 0 {
                return Ok(None);
            }
            let ghost rest = walk(table, self.hash, self.start as int, self.done + 1);
            self.done = self.done + 1;
            if slot_hash == self.hash {
                proof {
                    lemma_gather_first(data@, slot_offset, rest, self.key@);
                }
                match read_record(data, slot_offset as usize, data.len()) {
                    None => {
                        return Err(CacheError::CorruptCache);
                    },
                    Some(rec) => {
                        if same_bytes(rec.key.as_slice(), self.key.as_slice()) {
                            return Ok(Some(rec.value));
                        }
                    },
                }
            }
        }
        Ok(None)
    }
}

} // verus!

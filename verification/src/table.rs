//! One open-addressing sub-table: its slots, insertion by linear probing, and
//! the walk that a lookup makes through it.
//!
//! A table is a sequence of slots. A slot with offset zero is empty. An entry
//! is placed in the first empty slot at or after its probe start, wrapping at
//! the end of the table; a lookup walks from the probe start to the first empty
//! slot. The module proves that such a walk meets every entry with the hash it
//! looks for, in the order in which the entries were inserted.

use vstd::prelude::*;

verus! {

/// One slot of a sub-table: the hash of a key and the file offset of its
/// record. Offset zero marks an empty slot.
#[derive(Clone, Copy, Debug)]
pub struct Slot {
    pub hash: u32,
    pub offset: u32,
}

/// The slot index `x` brought back into a table of `len` slots, for
/// `0 <= x < 2 * len`.
pub open spec fn wrap(x: int, len: int) -> int {
    if x < len {
        x
    } else {
        x - len
    }
}

/// How many steps a walk from slot `s` takes to reach slot `j`.
pub open spec fn dist(s: int, j: int, len: int) -> int {
    if j >= s {
        j - s
    } else {
        j - s + len
    }
}

/// The slot at which the walk for hash `h` starts in a table of `len` slots.
pub open spec fn probe_start(h: u32, len: int) -> int {
    (h as int / 256) % len
}

/// The slot that a walk from `s` visits after `d` steps.
pub open spec fn slot_at(t: Seq<Slot>, s: int, d: int) -> Slot {
    t[wrap(s + d, t.len() as int)]
}

/// A table of `len` empty slots.
pub open spec fn empty_table(len: nat) -> Seq<Slot> {
    Seq::new(len, |i: int| Slot { hash: 0, offset: 0 })
}

/// The number of empty slots.
pub open spec fn free_count(t: Seq<Slot>) -> nat
    decreases t.len(),
{
    if t.len() == 0 {
        0
    } else if t.last().offset == 0 {
        free_count(t.drop_last()) + 1
    } else {
        free_count(t.drop_last())
    }
}

/// The number of steps, counted from step `d`, after which a walk from `s`
/// first meets an empty slot; the table's length if it meets none.
pub open spec fn first_free(t: Seq<Slot>, s: int, d: int) -> int
    decreases t.len() - d,
{
    if d >= t.len() {
        t.len() as int
    } else if slot_at(t, s, d).offset == 0 {
        d
    } else {
        first_free(t, s, d + 1)
    }
}

/// The table after an entry has been placed in the first empty slot of its
/// walk. A full table is left as it is.
pub open spec fn insert(t: Seq<Slot>, h: u32, offset: u32) -> Seq<Slot> {
    let s = probe_start(h, t.len() as int);
    let d = first_free(t, s, 0);
    if d < t.len() {
        t.update(wrap(s + d, t.len() as int), Slot { hash: h, offset })
    } else {
        t
    }
}

/// The offsets of the entries with hash `h` that a walk from `s` meets from
/// step `d` on, up to the first empty slot and at most once round the table.
pub open spec fn walk(t: Seq<Slot>, h: u32, s: int, d: int) -> Seq<u32>
    decreases t.len() - d,
{
    if d >= t.len() {
        Seq::empty()
    } else if slot_at(t, s, d).offset == 0 {
        Seq::empty()
    } else if slot_at(t, s, d).hash == h {
        seq![slot_at(t, s, d).offset] + walk(t, h, s, d + 1)
    } else {
        walk(t, h, s, d + 1)
    }
}

/// The offsets that a lookup of hash `h` has to examine, in walk order.
pub open spec fn candidates(t: Seq<Slot>, h: u32) -> Seq<u32> {
    if t.len() == 0 {
        Seq::empty()
    } else {
        walk(t, h, probe_start(h, t.len() as int), 0)
    }
}

/// The table that results from inserting `entries` one after the other into
/// `len` empty slots.
pub open spec fn fill(entries: Seq<Slot>, len: nat) -> Seq<Slot>
    decreases entries.len(),
{
    if entries.len() == 0 {
        empty_table(len)
    } else {
        insert(fill(entries.drop_last(), len), entries.last().hash, entries.last().offset)
    }
}

/// The offsets of the entries with hash `h`, in the order of `entries`.
pub open spec fn matching(entries: Seq<Slot>, h: u32) -> Seq<u32>
    decreases entries.len(),
{
    if entries.len() == 0 {
        Seq::empty()
    } else if entries.last().hash == h {
        matching(entries.drop_last(), h).push(entries.last().offset)
    } else {
        matching(entries.drop_last(), h)
    }
}

/// No entry has the offset that marks an empty slot.
pub open spec fn all_placed(entries: Seq<Slot>) -> bool {
    forall|i: int| 0 <= i < entries.len() ==> (#[trigger] entries[i]).offset != 0
}

/// The slot `d` steps into the walk of the entry in slot `j` is occupied.
pub open spec fn behind(t: Seq<Slot>, j: int, d: int) -> bool {
    slot_at(t, probe_start(t[j].hash, t.len() as int), d).offset != 0
}

/// Every entry is reachable: between its probe start and its slot there is no
/// empty slot.
pub open spec fn packed(t: Seq<Slot>) -> bool {
    forall|j: int, d: int|
        0 <= j < t.len() && t[j].offset != 0 && 0 <= d < dist(
            probe_start(t[j].hash, t.len() as int),
            j,
            t.len() as int,
        ) ==> #[trigger] behind(t, j, d)
}

/// The probe start lies inside the table.
pub proof fn lemma_probe_start_in_range(h: u32, len: int)
    requires
        len > 0,
    ensures
        0 <= probe_start(h, len) < len,
{
}

/// Filling a slot that was empty leaves one empty slot fewer.
pub proof fn lemma_free_count_update(t: Seq<Slot>, p: int, e: Slot)
    requires
        0 <= p < t.len(),
        t[p].offset == 0,
        e.offset != 0,
    ensures
        free_count(t.update(p, e)) + 1 == free_count(t),
    decreases t.len(),
{
    let u = t.update(p, e);
    if p == t.len() - 1 {
        assert(u.drop_last() =~= t.drop_last());
    } else {
        assert(u.drop_last() =~= t.drop_last().update(p, e));
        lemma_free_count_update(t.drop_last(), p, e);
    }
}

/// A table of empty slots has as many empty slots as it is long.
pub proof fn lemma_free_count_empty(len: nat)
    ensures
        free_count(empty_table(len)) == len,
    decreases len,
{
    if len > 0 {
        assert(empty_table(len).drop_last() =~= empty_table((len - 1) as nat));
        lemma_free_count_empty((len - 1) as nat);
    }
}

/// A table in which every slot is occupied has no empty slot to count.
pub proof fn lemma_free_count_none(t: Seq<Slot>)
    requires
        forall|j: int| 0 <= j < t.len() ==> (#[trigger] t[j]).offset != 0,
    ensures
        free_count(t) == 0,
    decreases t.len(),
{
    if t.len() > 0 {
        assert(t.last() == t[t.len() - 1]);
        assert forall|j: int| 0 <= j < t.drop_last().len() implies (#[trigger] t.drop_last()[j]).offset
            != 0 by {
            assert(t.drop_last()[j] == t[j]);
        }
        lemma_free_count_none(t.drop_last());
    }
}

/// What `first_free` finds: an empty slot, with only occupied slots between
/// step `d` and it; or, if it finds none, only occupied slots from step `d` on.
pub proof fn lemma_first_free(t: Seq<Slot>, s: int, d: int)
    requires
        0 <= d <= t.len(),
    ensures
        d <= first_free(t, s, d) <= t.len(),
        first_free(t, s, d) < t.len() ==> slot_at(t, s, first_free(t, s, d)).offset == 0,
        forall|k: int| d <= k < first_free(t, s, d) ==> (#[trigger] slot_at(t, s, k)).offset != 0,
    decreases t.len() - d,
{
    if d < t.len() && slot_at(t, s, d).offset != 0 {
        lemma_first_free(t, s, d + 1);
    }
}

/// A table with an empty slot has one on every walk.
pub proof fn lemma_first_free_exists(t: Seq<Slot>, s: int)
    requires
        0 <= s < t.len(),
        free_count(t) > 0,
    ensures
        first_free(t, s, 0) < t.len(),
{
    lemma_first_free(t, s, 0);
    if first_free(t, s, 0) >= t.len() {
        let len = t.len() as int;
        assert forall|j: int| 0 <= j < t.len() implies (#[trigger] t[j]).offset != 0 by {
            let k = dist(s, j, len);
            assert(wrap(s + k, len) == j);
            assert(slot_at(t, s, k).offset != 0);
        }
        lemma_free_count_none(t);
    }
}

/// A walk that meets no entry with hash `h` yields nothing.
pub proof fn lemma_walk_none(t: Seq<Slot>, h: u32, s: int, d: int)
    requires
        0 <= d <= t.len(),
        forall|k: int|
            d <= k < t.len() && (#[trigger] slot_at(t, s, k)).offset != 0 ==> slot_at(t, s, k).hash
                != h,
    ensures
        walk(t, h, s, d) == Seq::<u32>::empty(),
    decreases t.len() - d,
{
    if d < t.len() && slot_at(t, s, d).offset != 0 {
        assert(slot_at(t, s, d).hash != h);
        lemma_walk_none(t, h, s, d + 1);
    }
}

/// Inserting into a table that has room keeps every entry reachable and uses
/// up one empty slot.
pub proof fn lemma_insert_packed(t: Seq<Slot>, h: u32, offset: u32)
    requires
        packed(t),
        free_count(t) > 0,
        offset != 0,
    ensures
        insert(t, h, offset).len() == t.len(),
        packed(insert(t, h, offset)),
        free_count(insert(t, h, offset)) + 1 == free_count(t),
{
    let len = t.len() as int;
    let s = probe_start(h, len);
    lemma_probe_start_in_range(h, len);
    lemma_first_free_exists(t, s);
    lemma_first_free(t, s, 0);
    let f = first_free(t, s, 0);
    let p = wrap(s + f, len);
    let e = Slot { hash: h, offset };
    let u = insert(t, h, offset);
    assert(u == t.update(p, e));
    lemma_free_count_update(t, p, e);
    assert forall|j: int, d: int|
        0 <= j < u.len() && u[j].offset != 0 && 0 <= d < dist(
            probe_start(u[j].hash, u.len() as int),
            j,
            u.len() as int,
        ) implies #[trigger] behind(u, j, d) by {
        let sj = probe_start(u[j].hash, len);
        lemma_probe_start_in_range(u[j].hash, len);
        if j == p {
            assert(dist(s, p, len) == f);
            assert(slot_at(t, s, d).offset != 0);
        } else {
            assert(behind(t, j, d));
        }
    }
}

/// The walk for hash `h` through the table after an insertion is the walk
/// before it, followed by the new entry if its hash is `h`. Stated from step
/// `d` on, for a walk that has met no empty slot before that step.
pub proof fn lemma_walk_insert(t: Seq<Slot>, h2: u32, offset: u32, h: u32, d: int)
    requires
        packed(t),
        free_count(t) > 0,
        offset != 0,
        0 <= d <= t.len(),
        forall|k: int|
            0 <= k < d ==> (#[trigger] slot_at(t, probe_start(h, t.len() as int), k)).offset != 0,
    ensures
        walk(insert(t, h2, offset), h, probe_start(h, t.len() as int), d) == walk(
            t,
            h,
            probe_start(h, t.len() as int),
            d,
        ) + (if h == h2 {
            seq![offset]
        } else {
            Seq::<u32>::empty()
        }),
    decreases t.len() - d,
{
    let len = t.len() as int;
    let s = probe_start(h, len);
    let s2 = probe_start(h2, len);
    lemma_probe_start_in_range(h, len);
    lemma_probe_start_in_range(h2, len);
    lemma_first_free_exists(t, s2);
    lemma_first_free(t, s2, 0);
    let f = first_free(t, s2, 0);
    let p = wrap(s2 + f, len);
    let e = Slot { hash: h2, offset };
    let u = insert(t, h2, offset);
    assert(u == t.update(p, e));
    let extra = if h == h2 {
        seq![offset]
    } else {
        Seq::<u32>::empty()
    };
    if d >= len {
        assert forall|j: int| 0 <= j < t.len() implies (#[trigger] t[j]).offset != 0 by {
            let k = dist(s, j, len);
            assert(wrap(s + k, len) == j);
            assert(slot_at(t, s, k).offset != 0);
        }
        lemma_free_count_none(t);
    } else {
        let x = wrap(s + d, len);
        if x == p {
            assert forall|k: int|
                d + 1 <= k < u.len() && (#[trigger] slot_at(u, s, k)).offset != 0 implies slot_at(
                u,
                s,
                k,
            ).hash != h by {
                let y = wrap(s + k, len);
                assert(y != p);
                assert(u[y] == t[y]);
                if t[y].hash == h {
                    assert(dist(s, y, len) == k);
                    assert(behind(t, y, d));
                }
            }
            lemma_walk_none(u, h, s, d + 1);
            assert(walk(t, h, s, d) =~= Seq::<u32>::empty());
            assert(slot_at(u, s, d) == e);
            assert(walk(u, h, s, d) =~= walk(t, h, s, d) + extra);
        } else if t[x].offset == 0 {
            assert(slot_at(u, s, d) == t[x]);
            if h == h2 {
                assert(slot_at(t, s, d).offset == 0);
                if f < d {
                    assert(slot_at(t, s, f).offset != 0);
                }
                assert(false);
            }
            assert(walk(u, h, s, d) =~= walk(t, h, s, d) + extra);
        } else {
            assert(slot_at(u, s, d) == t[x]);
            assert(slot_at(t, s, d) == t[x]);
            lemma_walk_insert(t, h2, offset, h, d + 1);
            assert(walk(u, h, s, d) =~= walk(t, h, s, d) + extra);
        }
    }
}

/// After `entries` have been inserted into a table with room for them, every
/// entry is reachable and a lookup of `h` examines exactly the entries with
/// hash `h`, in insertion order.
pub proof fn lemma_fill(entries: Seq<Slot>, len: nat, h: u32)
    requires
        entries.len() <= len,
        all_placed(entries),
    ensures
        fill(entries, len).len() == len,
        packed(fill(entries, len)),
        free_count(fill(entries, len)) + entries.len() == len,
        candidates(fill(entries, len), h) == matching(entries, h),
    decreases entries.len(),
{
    if entries.len() == 0 {
        let t = empty_table(len);
        lemma_free_count_empty(len);
        if len > 0 {
            lemma_probe_start_in_range(h, len as int);
            assert(slot_at(t, probe_start(h, len as int), 0).offset == 0);
        }
        assert(candidates(t, h) =~= matching(entries, h));
    } else {
        let front = entries.drop_last();
        let last = entries.last();
        assert(all_placed(front)) by {
            assert forall|i: int| 0 <= i < front.len() implies (#[trigger] front[i]).offset
                != 0 by {
                assert(front[i] == entries[i]);
            }
        }
        assert(last == entries[entries.len() - 1]);
        lemma_fill(front, len, h);
        let t = fill(front, len);
        lemma_insert_packed(t, last.hash, last.offset);
        lemma_walk_insert(t, last.hash, last.offset, h, 0);
        assert(candidates(fill(entries, len), h) =~= matching(entries, h));
    }
}

/// Places an entry in the first empty slot of its walk.
pub fn insert_slot(t: &mut Vec<Slot>, h: u32, offset: u32)
    requires
        free_count(old(t)@) > 0,
    ensures
        final(t)@ == insert(old(t)@, h, offset),
{
    let len = t.len();
    proof {
        if len == 0 {
            assert(free_count(t@) == 0);
        }
        lemma_probe_start_in_range(h, len as int);
        lemma_first_free_exists(t@, probe_start(h, len as int));
    }
    let start: usize = ((h / 256) as usize) % len;
    let mut d: usize = 0;
    let mut pos: usize = start;
    while d < len && t[pos].offset != 0
        invariant
            len == t@.len(),
            t@ == old(t)@,
            0 <= start < len,
            start == probe_start(h, len as int),
            d <= len,
            pos == wrap(start + d, len as int),
            d == len ==> pos == start,
            first_free(t@, start as int, 0) == first_free(t@, start as int, d as int),
        decreases len - d,
    {
        d = d + 1;
        pos = if pos + 1 == len {
            0
        } else {
            pos + 1
        };
    }
    t.set(pos, Slot { hash: h, offset });
}

/// Makes a table of `len` empty slots.
pub fn new_table(len: usize) -> (t: Vec<Slot>)
    ensures
        t@ == empty_table(len as nat),
{
    let mut t: Vec<Slot> = Vec::new();
    let mut i: usize = 0;
    while i < len
        invariant
            i <= len,
            t@ == empty_table(i as nat),
        decreases len - i,
    {
        t.push(Slot { hash: 0, offset: 0 });
        i = i + 1;
        assert(t@ =~= empty_table(i as nat));
    }
    t
}

} // verus!

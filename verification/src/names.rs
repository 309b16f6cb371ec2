//! The names of cache files: the record class, the schema version, the
//! revision and the ending `cdb`, with dots between them.
//!
//! The revision in the name lets files of different revisions of one class
//! stand side by side in one directory.

use crate::decimal::{decimal, digits, is_digit, lemma_digits, parse_decimal};
use crate::meta::{token_byte, valid_revision, Revision};
use crate::schema::RecordClass;
use crate::wire::{copy_range, put_bytes, same_bytes};
use vstd::prelude::*;

verus! {

/// The byte that separates the parts of a name: a dot.
pub const DOT: u8 = 0x2E;

/// What the name of a cache file says.
#[derive(Debug, PartialEq, Eq)]
pub struct FileName {
    pub class: RecordClass,
    pub version: u16,
    pub revision: Revision,
}

/// The name of a record class, as file names spell it: `release` or `rss`.
pub open spec fn class_name(class: RecordClass) -> Seq<u8> {
    match class {
        RecordClass::Release => seq![0x72u8, 0x65u8, 0x6Cu8, 0x65u8, 0x61u8, 0x73u8, 0x65u8],
        RecordClass::Rss => seq![0x72u8, 0x73u8, 0x73u8],
    }
}

/// The ending of every cache file name: `cdb`.
pub open spec fn ending() -> Seq<u8> {
    seq![0x63u8, 0x64u8, 0x62u8]
}

/// The name of the cache file of a class, schema version and revision.
pub open spec fn format_name(class: RecordClass, version: u16, revision: Seq<u8>) -> Seq<u8> {
    class_name(class) + seq![DOT] + digits(version as nat) + seq![DOT] + revision + seq![DOT]
        + ending()
}

/// Where the first dot at or after `from` stands; the length of the name if
/// there is none.
pub open spec fn next_dot(name: Seq<u8>, from: int) -> int
    decreases name.len() - from,
{
    if from >= name.len() {
        name.len() as int
    } else if name[from] == DOT {
        from
    } else {
        next_dot(name, from + 1)
    }
}

/// The class that a name's first part spells.
pub open spec fn class_named(part: Seq<u8>) -> Option<RecordClass> {
    if part == class_name(RecordClass::Release) {
        Some(RecordClass::Release)
    } else if part == class_name(RecordClass::Rss) {
        Some(RecordClass::Rss)
    } else {
        None
    }
}

/// The schema version that a name's second part spells.
pub open spec fn version_named(part: Seq<u8>) -> Option<u16> {
    if exists|v: u16| part == #[trigger] digits(v as nat) {
        Some(choose|v: u16| part == #[trigger] digits(v as nat))
    } else {
        None
    }
}

/// What a name says, if it is the name of a cache file: four parts between
/// dots, of which the first names a class, the second is a schema version in
/// decimal, the third is a revision and the fourth is the ending.
pub open spec fn name_parts(name: Seq<u8>) -> Option<(RecordClass, u16, Seq<u8>)> {
    let a = next_dot(name, 0);
    let b = next_dot(name, a + 1);
    let c = next_dot(name, b + 1);
    if c >= name.len() {
        None
    } else {
        match class_named(name.subrange(0, a)) {
            None => None,
            Some(class) => match version_named(name.subrange(a + 1, b)) {
                None => None,
                Some(version) => if valid_revision(name.subrange(b + 1, c)) && name.subrange(
                    c + 1,
                    name.len() as int,
                ) == ending() {
                    Some((class, version, name.subrange(b + 1, c)))
                } else {
                    None
                },
            },
        }
    }
}

/// What `next_dot` finds: a dot, with no dot between `from` and it; or, if
/// it finds none, no dot from `from` on.
pub proof fn lemma_next_dot(name: Seq<u8>, from: int)
    requires
        0 <= from <= name.len(),
    ensures
        from <= next_dot(name, from) <= name.len(),
        next_dot(name, from) < name.len() ==> name[next_dot(name, from)] == DOT,
        forall|k: int| from <= k < next_dot(name, from) ==> #[trigger] name[k] != DOT,
    decreases name.len() - from,
{
    if from < name.len() && name[from] != DOT {
        lemma_next_dot(name, from + 1);
    }
}

/// The first dot after a stretch without dots is the one that ends it.
pub proof fn lemma_next_dot_at(name: Seq<u8>, from: int, at: int)
    requires
        0 <= from <= at < name.len(),
        name[at] == DOT,
        forall|k: int| from <= k < at ==> #[trigger] name[k] != DOT,
    ensures
        next_dot(name, from) == at,
    decreases at - from,
{
    if from < at {
        assert(name[from] != DOT);
        lemma_next_dot_at(name, from + 1, at);
    }
}

/// The digits of two different versions differ.
pub proof fn lemma_version_named(v: u16)
    ensures
        version_named(digits(v as nat)) == Some(v),
{
    let w = choose|w: u16| digits(v as nat) == #[trigger] digits(w as nat);
    lemma_digits(v as nat);
    lemma_digits(w as nat);
}

/// Where the dots of a name stand, whatever follows the name: after the
/// class, after the version and after the revision.
pub proof fn lemma_name_dots(class: RecordClass, version: u16, revision: Seq<u8>, tail: Seq<u8>)
    requires
        valid_revision(revision),
    ensures
        ({
            let name = format_name(class, version, revision) + tail;
            let a = class_name(class).len() as int;
            let b = a + 1 + digits(version as nat).len();
            let c = b + 1 + revision.len();
            &&& name.len() == c + 4 + tail.len()
            &&& next_dot(name, 0) == a
            &&& next_dot(name, a + 1) == b
            &&& next_dot(name, b + 1) == c
            &&& name.subrange(0, a) == class_name(class)
            &&& name.subrange(a + 1, b) == digits(version as nat)
            &&& name.subrange(b + 1, c) == revision
            &&& name.subrange(c + 1, name.len() as int) == ending() + tail
        }),
{
    let cn = class_name(class);
    let dv = digits(version as nat);
    let name = format_name(class, version, revision) + tail;
    let a = cn.len() as int;
    let b = a + 1 + dv.len();
    let c = b + 1 + revision.len();
    lemma_digits(version as nat);
    assert(name.len() == c + 4 + tail.len());
    assert(name[a] == DOT);
    assert(name[b] == DOT);
    assert(name[c] == DOT);
    assert forall|k: int| 0 <= k < a implies #[trigger] name[k] != DOT by {
        assert(name[k] == cn[k]);
    }
    assert forall|k: int| a + 1 <= k < b implies #[trigger] name[k] != DOT by {
        assert(name[k] == dv[k - a - 1]);
        assert(is_digit(dv[k - a - 1]));
    }
    assert forall|k: int| b + 1 <= k < c implies #[trigger] name[k] != DOT by {
        assert(name[k] == revision[k - b - 1]);
        assert(token_byte(revision[k - b - 1]));
    }
    lemma_next_dot_at(name, 0, a);
    lemma_next_dot_at(name, a + 1, b);
    lemma_next_dot_at(name, b + 1, c);
    assert(name.subrange(0, a) =~= cn);
    assert(name.subrange(a + 1, b) =~= dv);
    assert(name.subrange(b + 1, c) =~= revision);
    assert(name.subrange(c + 1, name.len() as int) =~= ending() + tail);
}

/// The names of the two classes differ.
pub proof fn lemma_class_named(class: RecordClass)
    ensures
        class_named(class_name(class)) == Some(class),
{
    assert(class_name(RecordClass::Release).len() == 7);
    assert(class_name(RecordClass::Rss).len() == 3);
}

/// The name made for a class, a version and a revision says that class,
/// version and revision.
pub proof fn lemma_name_round_trip(class: RecordClass, version: u16, revision: Seq<u8>)
    requires
        valid_revision(revision),
    ensures
        name_parts(format_name(class, version, revision)) == Some((class, version, revision)),
{
    let name = format_name(class, version, revision);
    lemma_name_dots(class, version, revision, Seq::empty());
    assert(name + Seq::<u8>::empty() =~= name);
    assert(ending() + Seq::<u8>::empty() =~= ending());
    lemma_version_named(version);
    lemma_class_named(class);
}

/// A name with anything after the ending is not the name of a cache file.
pub proof fn lemma_longer_name(class: RecordClass, version: u16, revision: Seq<u8>, tail: Seq<u8>)
    requires
        valid_revision(revision),
        tail.len() > 0,
    ensures
        name_parts(format_name(class, version, revision) + tail).is_none(),
{
    lemma_name_dots(class, version, revision, tail);
    assert((ending() + tail).len() != ending().len());
}

/// A name that says a class, a version and a revision is the name made for
/// them.
pub proof fn lemma_name_sound(name: Seq<u8>)
    requires
        name_parts(name).is_some(),
    ensures
        name == format_name(
            name_parts(name).unwrap().0,
            name_parts(name).unwrap().1,
            name_parts(name).unwrap().2,
        ),
        valid_revision(name_parts(name).unwrap().2),
{
    let a = next_dot(name, 0);
    lemma_next_dot(name, 0);
    let b = next_dot(name, a + 1);
    if a < name.len() {
        lemma_next_dot(name, a + 1);
    }
    let c = next_dot(name, b + 1);
    if b < name.len() {
        lemma_next_dot(name, b + 1);
    }
    let (class, version, revision) = name_parts(name).unwrap();
    assert(name.subrange(0, a) == class_name(class));
    assert(name.subrange(a + 1, b) == digits(version as nat));
    assert(name =~= name.subrange(0, a) + seq![DOT] + name.subrange(a + 1, b) + seq![DOT]
        + name.subrange(b + 1, c) + seq![DOT] + name.subrange(c + 1, name.len() as int));
}

/// Spells the name of a record class.
pub fn class_bytes(class: RecordClass) -> (name: Vec<u8>)
    ensures
        name@ == class_name(class),
{
    let mut name: Vec<u8> = Vec::new();
    match class {
        RecordClass::Release => {
            name.push(0x72u8);
            name.push(0x65u8);
            name.push(0x6Cu8);
            name.push(0x65u8);
            name.push(0x61u8);
            name.push(0x73u8);
            name.push(0x65u8);
        },
        RecordClass::Rss => {
            name.push(0x72u8);
            name.push(0x73u8);
            name.push(0x73u8);
        },
    }
    assert(name@ =~= class_name(class));
    name
}

/// Spells the ending of a cache file name.
fn ending_bytes() -> (e: Vec<u8>)
    ensures
        e@ == ending(),
{
    let mut e: Vec<u8> = Vec::new();
    e.push(0x63u8);
    e.push(0x64u8);
    e.push(0x62u8);
    assert(e@ =~= ending());
    e
}

/// Makes the name of the cache file of a class, schema version and revision.
pub fn file_name(class: RecordClass, version: u16, revision: &Revision) -> (name: Vec<u8>)
    ensures
        name@ == format_name(class, version, revision@),
{
    let mut name = class_bytes(class);
    name.push(DOT);
    let number = decimal(version as u32);
    put_bytes(&mut name, number.as_slice());
    name.push(DOT);
    put_bytes(&mut name, revision.as_bytes());
    name.push(DOT);
    let e = ending_bytes();
    put_bytes(&mut name, e.as_slice());
    assert(name@ =~= format_name(class, version, revision@));
    name
}

/// Finds the first dot at or after `from`.
fn find_dot(name: &[u8], from: usize) -> (at: usize)
    requires
        from <= name@.len(),
    ensures
        at == next_dot(name@, from as int),
        from <= at <= name@.len(),
{
    let mut at: usize = from;
    while at < name.len() && name[at] != DOT
        invariant
            from <= at <= name@.len(),
            next_dot(name@, from as int) == next_dot(name@, at as int),
        decreases name@.len() - at,
    {
        at = at + 1;
    }
    at
}

/// Reads what a name says, if it is the name of a cache file.
pub fn parse_name(name: &[u8]) -> (r: Option<FileName>)
    ensures
        match r {
            Some(f) => name_parts(name@) == Some((f.class, f.version, f.revision@)),
            None => name_parts(name@).is_none(),
        },
{
    let size = name.len();
    let a = find_dot(name, 0);
    if a >= size {
        proof {
            lemma_next_dot(name@, size as int);
        }
        return None;
    }
    let b = find_dot(name, a + 1);
    if b >= size {
        proof {
            lemma_next_dot(name@, size as int);
        }
        return None;
    }
    let c = find_dot(name, b + 1);
    if c >= size {
        return None;
    }
    let first = copy_range(name, 0, a);
    let release = class_bytes(RecordClass::Release);
    let rss = class_bytes(RecordClass::Rss);
    let class = if same_bytes(first.as_slice(), release.as_slice()) {
        RecordClass::Release
    } else if same_bytes(first.as_slice(), rss.as_slice()) {
        RecordClass::Rss
    } else {
        return None;
    };
    let second = copy_range(name, a + 1, b);
    let version: u16 = match parse_decimal(second.as_slice()) {
        Some(n) => {
            if n > 0xFFFF {
                proof {
                    assert forall|v: u16| second@ != #[trigger] digits(v as nat) by {
                        lemma_digits(v as nat);
                        lemma_digits(n as nat);
                    }
                }
                return None;
            }
            proof {
                lemma_version_named(n as u16);
            }
            n as u16
        },
        None => {
            return None;
        },
    };
    let revision = match Revision::new(copy_range(name, b + 1, c)) {
        Some(r) => r,
        None => {
            return None;
        },
    };
    let last = copy_range(name, c + 1, size);
    let e = ending_bytes();
    if !same_bytes(last.as_slice(), e.as_slice()) {
        return None;
    }
    Some(FileName { class, version, revision })
}

} // verus!

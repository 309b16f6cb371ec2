//! Choosing the files of a view from the names in a directory.
//!
//! A view is pinned to one revision. Of the cache files of that revision the
//! view takes, for each record class, the one with the highest schema version
//! that this library knows. Names that are not names of cache files, and
//! files of a schema version that this library does not know, are passed
//! over.

use crate::error::CacheError;
use crate::meta::Revision;
use crate::names::{name_parts, parse_name, FileName};
use crate::schema::{schema, schema_of, RecordClass};
use vstd::prelude::*;

verus! {

/// What a name offers to a view: the class, schema version and revision of a
/// cache file that this library can read.
pub open spec fn offered(name: Seq<u8>) -> Option<(RecordClass, u16, Seq<u8>)> {
    match name_parts(name) {
        Some((class, version, revision)) => if schema(class, version).is_some() {
            Some((class, version, revision))
        } else {
            None
        },
        None => None,
    }
}

/// The revision of the first name that offers a file.
pub open spec fn first_revision(names: Seq<Seq<u8>>) -> Option<Seq<u8>>
    decreases names.len(),
{
    if names.len() == 0 {
        None
    } else {
        match first_revision(names.drop_last()) {
            Some(r) => Some(r),
            None => match offered(names.last()) {
                Some((_, _, r)) => Some(r),
                None => None,
            },
        }
    }
}

/// Every file that the names offer is of revision `rev`.
pub open spec fn agree(names: Seq<Seq<u8>>, rev: Seq<u8>) -> bool {
    forall|i: int|
        0 <= i < names.len() && offered(#[trigger] names[i]).is_some() ==> offered(
            names[i],
        ).unwrap().2 == rev
}

/// The greater of two versions.
pub open spec fn later(a: u16, b: u16) -> u16 {
    if a >= b {
        a
    } else {
        b
    }
}

/// The highest schema version among the files of class `class` and revision
/// `rev` that the names offer.
pub open spec fn highest(names: Seq<Seq<u8>>, class: RecordClass, rev: Seq<u8>) -> Option<u16>
    decreases names.len(),
{
    if names.len() == 0 {
        None
    } else {
        let front = highest(names.drop_last(), class, rev);
        match offered(names.last()) {
            Some((c, v, r)) => if c == class && r == rev {
                match front {
                    Some(w) => Some(later(v, w)),
                    None => Some(v),
                }
            } else {
                front
            },
            None => front,
        }
    }
}

/// The files of a view: its revision, if it has one, and for each record
/// class the schema version of the file to open, if there is one.
#[derive(Debug, PartialEq, Eq)]
pub struct ViewPlan {
    pub revision: Option<Revision>,
    pub release: Option<u16>,
    pub rss: Option<u16>,
}

/// The files of a view, as a mathematical value.
pub struct PlanView {
    pub revision: Option<Seq<u8>>,
    pub release: Option<u16>,
    pub rss: Option<u16>,
}

impl View for ViewPlan {
    type V = PlanView;

    open spec fn view(&self) -> PlanView {
        PlanView {
            revision: match self.revision {
                Some(r) => Some(r@),
                None => None,
            },
            release: self.release,
            rss: self.rss,
        }
    }
}

/// The files of the view pinned to `rev`.
pub open spec fn pinned_plan(names: Seq<Seq<u8>>, rev: Seq<u8>) -> PlanView {
    PlanView {
        revision: Some(rev),
        release: highest(names, RecordClass::Release, rev),
        rss: highest(names, RecordClass::Rss, rev),
    }
}

/// The files of the view over `names`. Pinned to a revision, the view takes
/// the files of that revision. Not pinned, it takes all files that the names
/// offer, which must then be of one revision; with no file offered it is
/// empty.
pub open spec fn plan_of(names: Seq<Seq<u8>>, pinned: Option<Seq<u8>>) -> Result<
    PlanView,
    CacheError,
> {
    match pinned {
        Some(rev) => Ok(pinned_plan(names, rev)),
        None => match first_revision(names) {
            None => Ok(PlanView { revision: None, release: None, rss: None }),
            Some(rev) => if agree(names, rev) {
                Ok(pinned_plan(names, rev))
            } else {
                Err(CacheError::InconsistentRevision)
            },
        },
    }
}

/// The names as byte strings.
pub open spec fn name_views(names: Seq<Vec<u8>>) -> Seq<Seq<u8>> {
    Seq::new(names.len(), |i: int| names[i]@)
}

/// Names that offer nothing give no file.
pub proof fn lemma_nothing_offered(names: Seq<Seq<u8>>, class: RecordClass, rev: Seq<u8>)
    requires
        forall|i: int| 0 <= i < names.len() ==> offered(#[trigger] names[i]).is_none(),
    ensures
        first_revision(names).is_none(),
        highest(names, class, rev).is_none(),
    decreases names.len(),
{
    if names.len() > 0 {
        assert(names.last() == names[names.len() - 1]);
        assert forall|i: int| 0 <= i < names.drop_last().len() implies offered(
            #[trigger] names.drop_last()[i],
        ).is_none() by {
            assert(names.drop_last()[i] == names[i]);
        }
        lemma_nothing_offered(names.drop_last(), class, rev);
    }
}

/// Once a name has offered a file, further names do not change the first
/// revision.
pub proof fn lemma_first_revision_stays(names: Seq<Seq<u8>>, i: int)
    requires
        0 <= i <= names.len(),
        first_revision(names.take(i)).is_some(),
    ensures
        first_revision(names) == first_revision(names.take(i)),
    decreases names.len() - i,
{
    if i == names.len() {
        assert(names.take(i) =~= names);
    } else {
        assert(names.take(i + 1).drop_last() =~= names.take(i));
        lemma_first_revision_stays(names, i + 1);
    }
}

/// What a name offers, read from the name.
fn read_offer(name: &[u8]) -> (r: Option<FileName>)
    ensures
        match r {
            Some(f) => offered(name@) == Some((f.class, f.version, f.revision@)),
            None => offered(name@).is_none(),
        },
{
    match parse_name(name) {
        None => None,
        Some(f) => {
            if schema_of(f.class, f.version).is_none() {
                None
            } else {
                Some(f)
            }
        },
    }
}

/// The greater of a version and the highest so far.
fn raise(best: Option<u16>, v: u16) -> (r: Option<u16>)
    ensures
        r == (match best {
            Some(w) => Some(later(v, w)),
            None => Some(v),
        }),
{
    match best {
        Some(w) => if v >= w {
            Some(v)
        } else {
            Some(w)
        },
        None => Some(v),
    }
}

/// Chooses the files of a view from the names in a directory.
///
/// Fails with `InconsistentRevision`, and only then, when the view is not
/// pinned and the names offer files of more than one revision.
pub fn plan_view(names: &Vec<Vec<u8>>, pinned: Option<&Revision>) -> (r: Result<
    ViewPlan,
    CacheError,
>)
    ensures
        match r {
            Ok(plan) => plan_of(
                name_views(names@),
                match pinned {
                    Some(p) => Some(p@),
                    None => None,
                },
            ) == Ok::<PlanView, CacheError>(plan@),
            Err(e) => plan_of(
                name_views(names@),
                match pinned {
                    Some(p) => Some(p@),
                    None => None,
                },
            ) == Err::<PlanView, CacheError>(e),
        },
{
    let ghost all = name_views(names@);
    let mut revision: Option<Revision> = match pinned {
        Some(p) => Some(p.copy()),
        None => None,
    };
    let mut release: Option<u16> = None;
    let mut rss: Option<u16> = None;
    let mut i: usize = 0;
    proof {
        assert(all.take(0).len() == 0);
    }
    while i < names.len()
        invariant
            all == name_views(names@),
            i <= names@.len(),
            match pinned {
                Some(p) => revision.is_some() && revision.unwrap()@ == p@,
                None => {
                    &&& match revision {
                        Some(r) => first_revision(all.take(i as int)) == Some(r@),
                        None => first_revision(all.take(i as int)).is_none(),
                    }
                    &&& revision.is_some() ==> agree(all.take(i as int), revision.unwrap()@)
                },
            },
            revision.is_none() ==> forall|k: int|
                0 <= k < i ==> offered(#[trigger] all.take(i as int)[k]).is_none(),
            revision.is_none() ==> release.is_none() && rss.is_none(),
            revision.is_some() ==> release == highest(
                all.take(i as int),
                RecordClass::Release,
                revision.unwrap()@,
            ),
            revision.is_some() ==> rss == highest(
                all.take(i as int),
                RecordClass::Rss,
                revision.unwrap()@,
            ),
        decreases names@.len() - i,
    {
        let ghost before = all.take(i as int);
        let ghost now = all.take(i + 1);
        proof {
            assert(now.drop_last() =~= before);
            assert(now.last() == names@[i as int]@);
            assert forall|k: int| 0 <= k < i implies now[k] == before[k] by {}
        }
        match read_offer(names[i].as_slice()) {
            None => {
                proof {
                    if revision.is_some() && pinned.is_none() {
                        assert forall|k: int|
                            0 <= k < now.len() && offered(#[trigger] now[k]).is_some() implies offered(
                            now[k],
                        ).unwrap().2 == revision.unwrap()@ by {
                            if k < i {
                                assert(now[k] == before[k]);
                            }
                        }
                    }
                }
            },
            Some(f) => {
                let same = match &revision {
                    Some(r) => r.same(&f.revision),
                    None => {
                        proof {
                            lemma_nothing_offered(before, RecordClass::Release, f.revision@);
                            lemma_nothing_offered(before, RecordClass::Rss, f.revision@);
                        }
                        revision = Some(f.revision.copy());
                        true
                    },
                };
                if !same {
                    if pinned.is_none() {
                        proof {
                            lemma_first_revision_stays(all, i + 1);
                            assert(all[i as int] == now.last());
                        }
                        return Err(CacheError::InconsistentRevision);
                    }
                } else {
                    match f.class {
                        RecordClass::Release => {
                            release = raise(release, f.version);
                        },
                        RecordClass::Rss => {
                            rss = raise(rss, f.version);
                        },
                    }
                    proof {
                        if pinned.is_none() {
                            assert forall|k: int|
                                0 <= k < now.len() && offered(
                                    #[trigger] now[k],
                                ).is_some() implies offered(now[k]).unwrap().2
                                == revision.unwrap()@ by {
                                if k < i {
                                    assert(now[k] == before[k]);
                                }
                            }
                        }
                    }
                }
            },
        }
        i = i + 1;
    }
    proof {
        assert(all.take(i as int) =~= all);
    }
    Ok(ViewPlan { revision, release, rss })
}

} // verus!

//! A view: cache files of different record classes, all made from one
//! revision of the recipe tree, read side by side.
//!
//! A view never writes. It holds readers and nothing else, so two views over
//! the same files share no state.

use crate::decimal::{decimal, digits};
use crate::error::CacheError;
use crate::fields::{values, Field, FieldValue};
use crate::meta::{MetaView, Revision};
use crate::monitor::{
    release_from, rss_from, RecipeMonitor, RecipeView, ReleaseMonitor, ReleaseView, RssMonitor,
    RssView, UpstreamKey, UpstreamKeyView,
};
use crate::reader::{field_lists, lookup_entries, open_image, Reader};
use crate::schema::RecordClass;
use vstd::prelude::*;
use vstd::utf8::encode_utf8;

verus! {

/// What the upstream of a recipe says, as far as the view knows.
#[derive(Clone, Debug, PartialEq, Eq)]
pub enum Upstream {
    /// The release cache has this record for the recipe.
    Release(ReleaseMonitor),
    /// The feed cache has this record for the recipe.
    Rss(RssMonitor),
    /// The recipe names no upstream, the view has no file of the class, or
    /// the file has no record for the recipe.
    Absent,
}

/// What the upstream of a recipe says, as a mathematical value.
pub enum UpstreamView {
    Release(ReleaseView),
    Rss(RssView),
    Absent,
}

impl View for Upstream {
    type V = UpstreamView;

    open spec fn view(&self) -> UpstreamView {
        match self {
            Upstream::Release(r) => UpstreamView::Release(r@),
            Upstream::Rss(r) => UpstreamView::Rss(r@),
            Upstream::Absent => UpstreamView::Absent,
        }
    }
}

/// The upstream records as mathematical values.
pub open spec fn upstream_views(ups: Seq<Upstream>) -> Seq<UpstreamView> {
    Seq::new(ups.len(), |i: int| ups[i]@)
}

/// The recipes as mathematical values.
pub open spec fn recipe_views(recipes: Seq<RecipeMonitor>) -> Seq<RecipeView> {
    Seq::new(recipes.len(), |i: int| recipes[i]@)
}

/// A member file of a view: its bytes and what it says of itself.
pub struct Member {
    pub image: Seq<u8>,
    pub meta: MetaView,
}

/// The member that a reader stands for.
pub open spec fn member_of(reader: Option<Reader>) -> Option<Member> {
    match reader {
        Some(r) => Some(Member { image: r.image(), meta: r.meta() }),
        None => None,
    }
}

/// What is wrong with a file offered as the member of class `class` of a
/// view of revision `rev`: a file of another revision is inconsistent; a
/// file of another class is corrupt.
pub open spec fn member_fault(class: RecordClass, rev: Seq<u8>, file: Option<Member>) -> Option<
    CacheError,
> {
    match file {
        None => None,
        Some(f) => if f.meta.revision != rev {
            Some(CacheError::InconsistentRevision)
        } else if f.meta.class != class {
            Some(CacheError::CorruptCache)
        } else {
            None
        },
    }
}

/// What is wrong with the files offered as the members of a view: the fault
/// of the release file, else that of the feed file.
pub open spec fn view_fault(rev: Seq<u8>, release: Option<Member>, rss: Option<Member>) -> Option<
    CacheError,
> {
    match member_fault(RecordClass::Release, rev, release) {
        Some(e) => Some(e),
        None => member_fault(RecordClass::Rss, rev, rss),
    }
}

/// The fields of the first entry under `key` in a member file; nothing if
/// the view has no such file or the file has no such entry.
pub open spec fn first_under(file: Option<Member>, key: Seq<u8>) -> Result<
    Option<Seq<FieldValue>>,
    CacheError,
> {
    match file {
        None => Ok(None),
        Some(f) => match lookup_entries(f.image, f.meta, key) {
            Err(e) => Err(e),
            Ok(lists) => if lists.len() == 0 {
                Ok(None)
            } else {
                Ok(Some(lists[0]))
            },
        },
    }
}

/// What the upstream of a recipe says: the first record under the recipe's
/// upstream key in the file of the key's class. Fields that are no record of
/// that class make the file corrupt.
pub open spec fn upstream_for(release: Option<Member>, rss: Option<Member>, recipe: RecipeView)
    -> Result<UpstreamView, CacheError> {
    match recipe.upstream {
        UpstreamKeyView::Absent => Ok(UpstreamView::Absent),
        UpstreamKeyView::Release(id) => match first_under(release, digits(id as nat)) {
            Err(e) => Err(e),
            Ok(None) => Ok(UpstreamView::Absent),
            Ok(Some(vs)) => match release_from(vs) {
                None => Err(CacheError::CorruptCache),
                Some(r) => Ok(UpstreamView::Release(r)),
            },
        },
        UpstreamKeyView::Rss(url) => match first_under(rss, encode_utf8(url)) {
            Err(e) => Err(e),
            Ok(None) => Ok(UpstreamView::Absent),
            Ok(Some(vs)) => match rss_from(vs) {
                None => Err(CacheError::CorruptCache),
                Some(r) => Ok(UpstreamView::Rss(r)),
            },
        },
    }
}

/// What the upstreams of the recipes say, one answer for each recipe in the
/// order of the recipes; the first recipe whose lookup fails decides the
/// error.
pub open spec fn join_all(release: Option<Member>, rss: Option<Member>, recipes: Seq<RecipeView>)
    -> Result<Seq<UpstreamView>, CacheError>
    decreases recipes.len(),
{
    if recipes.len() == 0 {
        Ok(Seq::empty())
    } else {
        match join_all(release, rss, recipes.drop_last()) {
            Err(e) => Err(e),
            Ok(front) => match upstream_for(release, rss, recipes.last()) {
                Err(e) => Err(e),
                Ok(u) => Ok(front.push(u)),
            },
        }
    }
}

/// Once a lookup has failed, no further recipes mend it.
pub proof fn lemma_join_fails(
    release: Option<Member>,
    rss: Option<Member>,
    recipes: Seq<RecipeView>,
    i: int,
)
    requires
        0 <= i <= recipes.len(),
        join_all(release, rss, recipes.take(i)).is_err(),
    ensures
        join_all(release, rss, recipes) == join_all(release, rss, recipes.take(i)),
    decreases recipes.len() - i,
{
    if i == recipes.len() {
        assert(recipes.take(i) =~= recipes);
    } else {
        assert(recipes.take(i + 1).drop_last() =~= recipes.take(i));
        lemma_join_fails(release, rss, recipes, i + 1);
    }
}

/// Looks up the first entry under `key` in a member file.
fn find_first(reader: &Option<Reader>, key: &[u8]) -> (r: Result<Option<Vec<Field>>, CacheError>)
    ensures
        match r {
            Ok(Some(fields)) => first_under(member_of(*reader), key@) == Ok::<
                Option<Seq<FieldValue>>,
                CacheError,
            >(Some(values(fields@))),
            Ok(None) => first_under(member_of(*reader), key@) == Ok::<
                Option<Seq<FieldValue>>,
                CacheError,
            >(None),
            Err(e) => first_under(member_of(*reader), key@) == Err::<
                Option<Seq<FieldValue>>,
                CacheError,
            >(e),
        },
{
    match reader {
        None => Ok(None),
        Some(rd) => {
            let mut lists = match rd.lookup(key) {
                Ok(lists) => lists,
                Err(e) => {
                    return Err(e);
                },
            };
            if lists.len() == 0 {
                Ok(None)
            } else {
                let ghost all = field_lists(lists@);
                let first = lists.swap_remove(0);
                assert(values(first@) == all[0]);
                Ok(Some(first))
            }
        },
    }
}

/// Cache files of one revision, read side by side.
#[derive(Debug)]
pub struct CacheView {
    revision: Revision,
    release: Option<Reader>,
    rss: Option<Reader>,
}

impl CacheView {
    /// The revision that the view is pinned to.
    pub closed spec fn revision(&self) -> Seq<u8> {
        self.revision@
    }

    /// The release file of the view, if it has one.
    pub closed spec fn release(&self) -> Option<Member> {
        member_of(self.release)
    }

    /// The feed file of the view, if it has one.
    pub closed spec fn rss(&self) -> Option<Member> {
        member_of(self.rss)
    }

    /// Every member file says of itself that it is of the view's revision
    /// and of the class that it stands for.
    pub closed spec fn wf(&self) -> bool {
        &&& view_fault(self.revision@, member_of(self.release), member_of(self.rss)).is_none()
        &&& self.release.is_some() ==> self.release.unwrap().wf()
        &&& self.rss.is_some() ==> self.rss.unwrap().wf()
    }

    #[verifier::type_invariant]
    spec fn inv(self) -> bool {
        self.wf()
    }

    /// Makes a view of the given revision over the given files.
    ///
    /// Fails as `view_fault` says: with `InconsistentRevision` when a file
    /// is of another revision, with `CorruptCache` when a file is of another
    /// class than the one it is offered for.
    pub fn compose(revision: Revision, release: Option<Reader>, rss: Option<Reader>) -> (r: Result<
        CacheView,
        CacheError,
    >)
        ensures
            match r {
                Ok(view) => {
                    &&& view_fault(revision@, member_of(release), member_of(rss)).is_none()
                    &&& view.wf()
                    &&& view.revision() == revision@
                    &&& view.release() == member_of(release)
                    &&& view.rss() == member_of(rss)
                },
                Err(e) => view_fault(revision@, member_of(release), member_of(rss)) == Some(e),
            },
    {
        match &release {
            Some(rd) => {
                rd.checked();
                if !rd.revision().same(&revision) {
                    return Err(CacheError::InconsistentRevision);
                }
                match rd.class() {
                    RecordClass::Release => {},
                    RecordClass::Rss => {
                        return Err(CacheError::CorruptCache);
                    },
                }
            },
            None => {},
        }
        match &rss {
            Some(rd) => {
                rd.checked();
                if !rd.revision().same(&revision) {
                    return Err(CacheError::InconsistentRevision);
                }
                match rd.class() {
                    RecordClass::Rss => {},
                    RecordClass::Release => {
                        return Err(CacheError::CorruptCache);
                    },
                }
            },
            None => {},
        }
        Ok(CacheView { revision, release, rss })
    }

    /// The members of a view are files that say of themselves that they are
    /// of the view's revision and of the class they stand for.
    pub fn checked(&self)
        ensures
            self.wf(),
            match self.release() {
                Some(f) => {
                    &&& f.meta.revision == self.revision()
                    &&& f.meta.class == RecordClass::Release
                    &&& open_image(f.image) == Ok::<MetaView, CacheError>(f.meta)
                },
                None => true,
            },
            match self.rss() {
                Some(f) => {
                    &&& f.meta.revision == self.revision()
                    &&& f.meta.class == RecordClass::Rss
                    &&& open_image(f.image) == Ok::<MetaView, CacheError>(f.meta)
                },
                None => true,
            },
    {
        proof {
            use_type_invariant(self);
        }
        match &self.release {
            Some(rd) => {
                rd.checked();
            },
            None => {},
        }
        match &self.rss {
            Some(rd) => {
                rd.checked();
            },
            None => {},
        }
    }

    /// The revision that the view is pinned to.
    pub fn pinned(&self) -> (revision: &Revision)
        ensures
            revision@ == self.revision(),
    {
        &self.revision
    }

    /// The reader of the release file, if the view has one.
    pub fn release_reader(&self) -> (r: Option<&Reader>)
        ensures
            match r {
                Some(rd) => {
                    &&& self.release() == Some(Member { image: rd.image(), meta: rd.meta() })
                    &&& rd.meta().revision == self.revision()
                    &&& rd.meta().class == RecordClass::Release
                },
                None => self.release().is_none(),
            },
    {
        proof {
            use_type_invariant(self);
        }
        match &self.release {
            Some(rd) => Some(rd),
            None => None,
        }
    }

    /// The reader of the feed file, if the view has one.
    pub fn rss_reader(&self) -> (r: Option<&Reader>)
        ensures
            match r {
                Some(rd) => {
                    &&& self.rss() == Some(Member { image: rd.image(), meta: rd.meta() })
                    &&& rd.meta().revision == self.revision()
                    &&& rd.meta().class == RecordClass::Rss
                },
                None => self.rss().is_none(),
            },
    {
        proof {
            use_type_invariant(self);
        }
        match &self.rss {
            Some(rd) => Some(rd),
            None => None,
        }
    }

    /// Looks up what the upstream of one recipe says.
    pub fn upstream(&self, recipe: &RecipeMonitor) -> (r: Result<Upstream, CacheError>)
        ensures
            match r {
                Ok(u) => upstream_for(self.release(), self.rss(), recipe@) == Ok::<
                    UpstreamView,
                    CacheError,
                >(u@),
                Err(e) => upstream_for(self.release(), self.rss(), recipe@) == Err::<
                    UpstreamView,
                    CacheError,
                >(e),
            },
    {
        match &recipe.upstream {
            UpstreamKey::Absent => Ok(Upstream::Absent),
            UpstreamKey::Release(id) => {
                let key = decimal(*id);
                match find_first(&self.release, key.as_slice()) {
                    Err(e) => Err(e),
                    Ok(None) => Ok(Upstream::Absent),
                    Ok(Some(fields)) => match ReleaseMonitor::from_fields(&fields) {
                        None => Err(CacheError::CorruptCache),
                        Some(r) => Ok(Upstream::Release(r)),
                    },
                }
            },
            UpstreamKey::Rss(url) => {
                let key = url.as_str().as_bytes();
                match find_first(&self.rss, key) {
                    Err(e) => Err(e),
                    Ok(None) => Ok(Upstream::Absent),
                    Ok(Some(fields)) => match RssMonitor::from_fields(&fields) {
                        None => Err(CacheError::CorruptCache),
                        Some(r) => Ok(Upstream::Rss(r)),
                    },
                }
            },
        }
    }

    /// Joins the recipes with what their upstreams say: one answer for each
    /// recipe, in the order of the recipes. A recipe without a record is
    /// answered with `Absent`, not with an error.
    pub fn join(&self, recipes: &Vec<RecipeMonitor>) -> (r: Result<Vec<Upstream>, CacheError>)
        ensures
            match r {
                Ok(ups) => join_all(self.release(), self.rss(), recipe_views(recipes@)) == Ok::<
                    Seq<UpstreamView>,
                    CacheError,
                >(upstream_views(ups@)) && ups@.len() == recipes@.len(),
                Err(e) => join_all(self.release(), self.rss(), recipe_views(recipes@)) == Err::<
                    Seq<UpstreamView>,
                    CacheError,
                >(e),
            },
    {
        let ghost all = recipe_views(recipes@);
        let mut out: Vec<Upstream> = Vec::new();
        let mut i: usize = 0;
        proof {
            assert(all.take(0).len() == 0);
            assert(upstream_views(out@) =~= Seq::<UpstreamView>::empty());
        }
        while i < recipes.len()
            invariant
                all == recipe_views(recipes@),
                i <= recipes@.len(),
                out@.len() == i,
                join_all(self.release(), self.rss(), all.take(i as int)) == Ok::<
                    Seq<UpstreamView>,
                    CacheError,
                >(upstream_views(out@)),
            decreases recipes@.len() - i,
        {
            proof {
                assert(all.take(i + 1).drop_last() =~= all.take(i as int));
                assert(all.take(i + 1).last() == recipes@[i as int]@);
            }
            match self.upstream(&recipes[i]) {
                Err(e) => {
                    proof {
                        lemma_join_fails(self.release(), self.rss(), all, i + 1);
                    }
                    return Err(e);
                },
                Ok(u) => {
                    let ghost before = upstream_views(out@);
                    let ghost v = u@;
                    out.push(u);
                    proof {
                        assert(upstream_views(out@) =~= before.push(v));
                    }
                },
            }
            i = i + 1;
        }
        proof {
            assert(all.take(i as int) =~= all);
        }
        Ok(out)
    }
}

} // verus!

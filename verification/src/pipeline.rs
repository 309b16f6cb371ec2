//! From upstream records to a cache file, from a cache file back to records,
//! and from recipes and what their upstreams say to the list of recipes that
//! are behind.

use crate::error::CacheError;
use crate::fields::FieldValue;
use crate::layout::fits;
use crate::meta::{valid_meta, valid_revision, MetaView, Revision};
use crate::monitor::{
    class_of_monitor, lemma_release_fields, lemma_rss_fields, monitor_fields, monitor_from,
    monitor_key, monitor_views, Monitor, MonitorView, RecipeMonitor, RecipeView,
};
use crate::reader::{entry_views, open_image, read_entries, Reader};
use crate::roundtrip::{lemma_enumerate_written, lemma_open_written};
use crate::schema::{RecordClass, NEWEST_VERSION};
use crate::view::{recipe_views, upstream_views, Upstream, UpstreamView};
use crate::writer::{
    acceptable, all_acceptable, cache_image, cache_records, put_answer, CacheWriter,
};
use vstd::prelude::*;
use vstd::string::StringExecFns;

verus! {

/// The entries under which the records are stored: each record's key with
/// its fields.
pub open spec fn monitor_entries(ms: Seq<MonitorView>) -> Seq<(Seq<u8>, Seq<FieldValue>)> {
    Seq::new(ms.len(), |i: int| (monitor_key(ms[i]), monitor_fields(ms[i])))
}

/// What a file of the newest schema version says of itself.
pub open spec fn newest_meta(class: RecordClass, revision: Seq<u8>, created: i64) -> MetaView {
    MetaView { class, version: NEWEST_VERSION, revision, created }
}

/// Whether a writer takes all the entries one after the other: the answer to
/// the first entry that it refuses, if it refuses one.
pub open spec fn accept_all(m: MetaView, es: Seq<(Seq<u8>, Seq<FieldValue>)>) -> Result<
    (),
    CacheError,
>
    decreases es.len(),
{
    if es.len() == 0 {
        Ok(())
    } else {
        match accept_all(m, es.drop_last()) {
            Err(e) => Err(e),
            Ok(_) => put_answer(true, m, es.drop_last(), es.last().0, es.last().1),
        }
    }
}

/// The records of class `class` that the entries are; an entry whose fields
/// are no record of the class makes the file corrupt.
pub open spec fn monitors_from(class: RecordClass, es: Seq<(Seq<u8>, Seq<FieldValue>)>) -> Result<
    Seq<MonitorView>,
    CacheError,
>
    decreases es.len(),
{
    if es.len() == 0 {
        Ok(Seq::empty())
    } else {
        match monitors_from(class, es.drop_last()) {
            Err(e) => Err(e),
            Ok(front) => match monitor_from(class, es.last().1) {
                None => Err(CacheError::CorruptCache),
                Some(m) => Ok(front.push(m)),
            },
        }
    }
}

/// The records that a cache file holds, in insertion order, or why it
/// cannot be read.
pub open spec fn read_monitors(data: Seq<u8>) -> Result<Seq<MonitorView>, CacheError> {
    match open_image(data) {
        Err(e) => Err(e),
        Ok(m) => match read_entries(data, m) {
            Err(e) => Err(e),
            Ok(es) => monitors_from(m.class, es),
        },
    }
}

/// Once an entry has been refused, no further entries mend it.
pub proof fn lemma_accept_all_fails(m: MetaView, es: Seq<(Seq<u8>, Seq<FieldValue>)>, i: int)
    requires
        0 <= i <= es.len(),
        accept_all(m, es.take(i)).is_err(),
    ensures
        accept_all(m, es) == accept_all(m, es.take(i)),
    decreases es.len() - i,
{
    if i == es.len() {
        assert(es.take(i) =~= es);
    } else {
        assert(es.take(i + 1).drop_last() =~= es.take(i));
        lemma_accept_all_fails(m, es, i + 1);
    }
}

/// Once an entry is no record, no further entries mend it.
pub proof fn lemma_monitors_from_fails(
    class: RecordClass,
    es: Seq<(Seq<u8>, Seq<FieldValue>)>,
    i: int,
)
    requires
        0 <= i <= es.len(),
        monitors_from(class, es.take(i)).is_err(),
    ensures
        monitors_from(class, es) == monitors_from(class, es.take(i)),
    decreases es.len() - i,
{
    if i == es.len() {
        assert(es.take(i) =~= es);
    } else {
        assert(es.take(i + 1).drop_last() =~= es.take(i));
        lemma_monitors_from_fails(class, es, i + 1);
    }
}

/// Entries that a writer takes one after the other are acceptable, and
/// their file fits.
pub proof fn lemma_accepted(m: MetaView, es: Seq<(Seq<u8>, Seq<FieldValue>)>)
    requires
        valid_meta(m),
        accept_all(m, es).is_ok(),
    ensures
        all_acceptable(m, es),
        fits(cache_records(m, es)),
    decreases es.len(),
{
    reveal(all_acceptable);
    if es.len() == 0 {
        crate::layout::lemma_image_len_empty();
        crate::layout::lemma_image_len_push(Seq::empty(), crate::writer::meta_pair(m));
        assert(cache_records(m, es) =~= Seq::<(Seq<u8>, Seq<u8>)>::empty().push(
            crate::writer::meta_pair(m),
        ));
        lemma_meta_pair_small(m);
    } else {
        lemma_accepted(m, es.drop_last());
        assert(es.drop_last().push(es.last()) =~= es);
        assert forall|i: int| 0 <= i < es.len() implies acceptable(m, #[trigger] es[i]) by {
            if i < es.len() - 1 {
                assert(es.drop_last()[i] == es[i]);
            }
        }
    }
}

/// The reserved record of a valid file is short.
proof fn lemma_meta_pair_small(m: MetaView)
    requires
        valid_meta(m),
    ensures
        crate::writer::meta_pair(m).0.len() == 9,
        crate::writer::meta_pair(m).1.len() <= 6 + 15 + 64 + 8,
{
}

/// The entries made of records of one class give those records back.
pub proof fn lemma_monitors_back(class: RecordClass, ms: Seq<MonitorView>)
    requires
        forall|i: int| 0 <= i < ms.len() ==> class_of_monitor(#[trigger] ms[i]) == class,
    ensures
        monitors_from(class, monitor_entries(ms)) == Ok::<Seq<MonitorView>, CacheError>(ms),
    decreases ms.len(),
{
    let es = monitor_entries(ms);
    if ms.len() == 0 {
        assert(ms =~= Seq::<MonitorView>::empty());
    } else {
        assert forall|i: int| 0 <= i < ms.drop_last().len() implies class_of_monitor(
            #[trigger] ms.drop_last()[i],
        ) == class by {
            assert(ms.drop_last()[i] == ms[i]);
        }
        lemma_monitors_back(class, ms.drop_last());
        assert(es.drop_last() =~= monitor_entries(ms.drop_last()));
        assert(ms.last() == ms[ms.len() - 1]);
        match ms.last() {
            MonitorView::Release(r) => {
                lemma_release_fields(r);
            },
            MonitorView::Rss(r) => {
                lemma_rss_fields(r);
            },
        }
        assert(ms.drop_last().push(ms.last()) =~= ms);
    }
}

/// Reading the cache file built from records of one class gives those
/// records back, in their order.
pub proof fn lemma_cache_round_trip(
    class: RecordClass,
    revision: Seq<u8>,
    created: i64,
    ms: Seq<MonitorView>,
)
    requires
        valid_revision(revision),
        forall|i: int| 0 <= i < ms.len() ==> class_of_monitor(#[trigger] ms[i]) == class,
        accept_all(newest_meta(class, revision, created), monitor_entries(ms)).is_ok(),
    ensures
        read_monitors(
            cache_image(newest_meta(class, revision, created), monitor_entries(ms)),
        ) == Ok::<Seq<MonitorView>, CacheError>(ms),
{
    let m = newest_meta(class, revision, created);
    let es = monitor_entries(ms);
    lemma_accepted(m, es);
    lemma_open_written(m, es);
    lemma_enumerate_written(m, es);
    lemma_monitors_back(class, ms);
}

/// Builds the cache file of the newest schema version that holds the
/// records, in their order.
///
/// Fails with the answer to the first record that a writer refuses: a record
/// of another class than the file's is refused as of an unsupported schema;
/// a key that is too long, or a file that would be too long, as such.
pub fn build_cache(
    class: RecordClass,
    revision: Revision,
    created: i64,
    monitors: &Vec<Monitor>,
) -> (r: Result<Vec<u8>, CacheError>)
    ensures
        match r {
            Ok(image) => {
                &&& accept_all(
                    newest_meta(class, revision@, created),
                    monitor_entries(monitor_views(monitors@)),
                ).is_ok()
                &&& image@ == cache_image(
                    newest_meta(class, revision@, created),
                    monitor_entries(monitor_views(monitors@)),
                )
            },
            Err(e) => accept_all(
                newest_meta(class, revision@, created),
                monitor_entries(monitor_views(monitors@)),
            ) == Err::<(), CacheError>(e),
        },
{
    let ghost m = newest_meta(class, revision@, created);
    let ghost es = monitor_entries(monitor_views(monitors@));
    let mut writer = match CacheWriter::create_cache(class, NEWEST_VERSION, revision, created) {
        Ok(w) => w,
        Err(e) => {
            return Err(e);
        },
    };
    let mut i: usize = 0;
    proof {
        assert(es.take(0) =~= writer.entries());
    }
    while i < monitors.len()
        invariant
            m == newest_meta(class, revision@, created),
            es == monitor_entries(monitor_views(monitors@)),
            i <= monitors@.len(),
            writer.wf(),
            writer.is_open(),
            writer.meta() == m,
            writer.entries() == es.take(i as int),
            accept_all(m, es.take(i as int)).is_ok(),
        decreases monitors@.len() - i,
    {
        let key = monitors[i].key();
        let fields = monitors[i].to_fields();
        proof {
            assert(es.take(i + 1).drop_last() =~= es.take(i as int));
            assert(es.take(i + 1).last() == es[i as int]);
            assert(es[i as int] == (key@, crate::fields::values(fields@)));
        }
        match writer.put(key.as_slice(), &fields) {
            Ok(_) => {
                proof {
                    assert(es.take(i + 1) =~= es.take(i as int).push(es[i as int]));
                }
            },
            Err(e) => {
                proof {
                    lemma_accept_all_fails(m, es, i + 1);
                }
                return Err(e);
            },
        }
        i = i + 1;
    }
    proof {
        assert(es.take(i as int) =~= es);
    }
    writer.commit()
}

/// Reads the records out of a cache file, in insertion order.
///
/// Fails as `read_monitors` says.
pub fn read_cache(data: Vec<u8>) -> (r: Result<Vec<Monitor>, CacheError>)
    ensures
        match r {
            Ok(monitors) => read_monitors(data@) == Ok::<Seq<MonitorView>, CacheError>(
                monitor_views(monitors@),
            ),
            Err(e) => read_monitors(data@) == Err::<Seq<MonitorView>, CacheError>(e),
        },
{
    let reader = match Reader::open_cache(data) {
        Ok(r) => r,
        Err(e) => {
            return Err(e);
        },
    };
    let entries = match reader.enumerate() {
        Ok(es) => es,
        Err(e) => {
            return Err(e);
        },
    };
    let class = reader.class();
    let ghost es = entry_views(entries@);
    let mut out: Vec<Monitor> = Vec::new();
    let mut i: usize = 0;
    proof {
        assert(es.take(0).len() == 0);
        assert(monitor_views(out@) =~= Seq::<MonitorView>::empty());
    }
    while i < entries.len()
        invariant
            es == entry_views(entries@),
            i <= entries@.len(),
            read_monitors(data@) == monitors_from(class, es),
            monitors_from(class, es.take(i as int)) == Ok::<Seq<MonitorView>, CacheError>(
                monitor_views(out@),
            ),
        decreases entries@.len() - i,
    {
        proof {
            assert(es.take(i + 1).drop_last() =~= es.take(i as int));
            assert(es.take(i + 1).last() == entries@[i as int]@);
        }
        match Monitor::from_fields(class, &entries[i].fields) {
            None => {
                proof {
                    lemma_monitors_from_fails(class, es, i + 1);
                }
                return Err(CacheError::CorruptCache);
            },
            Some(m) => {
                let ghost before = monitor_views(out@);
                let ghost v = m@;
                out.push(m);
                proof {
                    assert(monitor_views(out@) =~= before.push(v));
                }
            },
        }
        i = i + 1;
    }
    proof {
        assert(es.take(i as int) =~= es);
    }
    Ok(out)
}

/// A recipe that is behind its upstream.
#[derive(Clone, Debug, PartialEq, Eq)]
pub struct Update {
    pub recipe_name: String,
    pub current_version: String,
    pub latest_version: String,
}

/// A recipe that is behind, as a mathematical value.
pub struct UpdateView {
    pub recipe_name: Seq<char>,
    pub current_version: Seq<char>,
    pub latest_version: Seq<char>,
}

impl View for Update {
    type V = UpdateView;

    open spec fn view(&self) -> UpdateView {
        UpdateView {
            recipe_name: self.recipe_name@,
            current_version: self.current_version@,
            latest_version: self.latest_version@,
        }
    }
}

/// The updates as mathematical values.
pub open spec fn update_views(updates: Seq<Update>) -> Seq<UpdateView> {
    Seq::new(updates.len(), |i: int| updates[i]@)
}

/// The newest version that an upstream record names.
pub open spec fn latest_of(u: UpstreamView) -> Option<Seq<char>> {
    match u {
        UpstreamView::Release(r) => Some(r.latest_version),
        UpstreamView::Rss(r) => Some(r.latest_version),
        UpstreamView::Absent => None,
    }
}

/// The update that a recipe needs: one, if its upstream names a newest
/// version other than the recipe's own.
pub open spec fn update_for(recipe: RecipeView, u: UpstreamView) -> Option<UpdateView> {
    match latest_of(u) {
        Some(latest) => if latest != recipe.current_version {
            Some(
                UpdateView {
                    recipe_name: recipe.recipe_name,
                    current_version: recipe.current_version,
                    latest_version: latest,
                },
            )
        } else {
            None
        },
        None => None,
    }
}

/// The updates that the first `n` recipes need, in the order of the recipes.
pub open spec fn updates_of(recipes: Seq<RecipeView>, ups: Seq<UpstreamView>, n: int) -> Seq<
    UpdateView,
>
    decreases n,
{
    if n <= 0 {
        Seq::empty()
    } else {
        match update_for(recipes[n - 1], ups[n - 1]) {
            Some(u) => updates_of(recipes, ups, n - 1).push(u),
            None => updates_of(recipes, ups, n - 1),
        }
    }
}

/// The number of recipes that have an answer.
pub open spec fn answered(recipes: int, ups: int) -> int {
    if recipes <= ups {
        recipes
    } else {
        ups
    }
}

/// The line that shows an update: the recipe, its version, and the newest
/// version.
pub open spec fn update_line(u: UpdateView) -> Seq<char> {
    u.recipe_name + ": "@ + u.current_version + " -> "@ + u.latest_version
}

/// Prepares the list of the recipes that are behind: those whose upstream
/// names a newest version other than the recipe's own, in the order of the
/// recipes. The `i`-th answer belongs to the `i`-th recipe; recipes without
/// an answer are passed over.
pub fn compute_updates(recipes: &Vec<RecipeMonitor>, upstreams: &Vec<Upstream>) -> (updates: Vec<
    Update,
>)
    ensures
        update_views(updates@) == updates_of(
            recipe_views(recipes@),
            upstream_views(upstreams@),
            answered(recipes@.len() as int, upstreams@.len() as int),
        ),
{
    let n = if recipes.len() <= upstreams.len() {
        recipes.len()
    } else {
        upstreams.len()
    };
    let ghost rs = recipe_views(recipes@);
    let ghost us = upstream_views(upstreams@);
    let mut out: Vec<Update> = Vec::new();
    let mut i: usize = 0;
    proof {
        assert(update_views(out@) =~= Seq::<UpdateView>::empty());
    }
    while i < n
        invariant
            rs == recipe_views(recipes@),
            us == upstream_views(upstreams@),
            i <= n,
            n <= recipes@.len(),
            n <= upstreams@.len(),
            update_views(out@) == updates_of(rs, us, i as int),
        decreases n - i,
    {
        let recipe = &recipes[i];
        let latest: Option<&String> = match &upstreams[i] {
            Upstream::Release(r) => Some(&r.latest_version),
            Upstream::Rss(r) => Some(&r.latest_version),
            Upstream::Absent => None,
        };
        proof {
            assert(rs[i as int] == recipes@[i as int]@);
            assert(us[i as int] == upstreams@[i as int]@);
        }
        match latest {
            Some(l) => {
                if !(*l == recipe.current_version) {
                    let ghost before = update_views(out@);
                    let update = Update {
                        recipe_name: recipe.recipe_name.clone(),
                        current_version: recipe.current_version.clone(),
                        latest_version: l.clone(),
                    };
                    let ghost v = update@;
                    out.push(update);
                    proof {
                        assert(update_views(out@) =~= before.push(v));
                    }
                }
            },
            None => {},
        }
        i = i + 1;
    }
    out
}

/// Makes the lines that show the updates, one line for each update, in
/// their order.
pub fn show_updates(updates: &Vec<Update>) -> (lines: Vec<String>)
    ensures
        lines@.len() == updates@.len(),
        forall|i: int| 0 <= i < lines@.len() ==> (#[trigger] lines@[i])@ == update_line(
            updates@[i]@,
        ),
{
    let mut lines: Vec<String> = Vec::new();
    let mut i: usize = 0;
    while i < updates.len()
        invariant
            i <= updates@.len(),
            lines@.len() == i,
            forall|k: int| 0 <= k < i ==> (#[trigger] lines@[k])@ == update_line(updates@[k]@),
        decreases updates@.len() - i,
    {
        let u = &updates[i];
        let mut line = u.recipe_name.clone();
        line.append(": ");
        line.append(u.current_version.as_str());
        line.append(" -> ");
        line.append(u.latest_version.as_str());
        lines.push(line);
        i = i + 1;
    }
    lines
}

} // verus!

//! The records that producers hand to the cache: what is known of a recipe,
//! and what an upstream source says the newest version is.

use crate::decimal::{decimal, digits};
use crate::fields::{kinds_of, values, Field, FieldKind, FieldValue};
use crate::schema::{schema, RecordClass};
use crate::wire::copy_bytes;
use vstd::prelude::*;
use vstd::utf8::encode_utf8;

verus! {

/// Where the newest version of a recipe's upstream is looked up.
#[derive(Clone, Debug, PartialEq, Eq)]
pub enum UpstreamKey {
    /// In the release cache, under this upstream id.
    Release(u32),
    /// In the feed cache, under this feed address.
    Rss(String),
    /// Nowhere: the recipe names no upstream.
    Absent,
}

/// Where the newest version is looked up, as a mathematical value.
pub enum UpstreamKeyView {
    Release(u32),
    Rss(Seq<char>),
    Absent,
}

impl View for UpstreamKey {
    type V = UpstreamKeyView;

    open spec fn view(&self) -> UpstreamKeyView {
        match self {
            UpstreamKey::Release(id) => UpstreamKeyView::Release(*id),
            UpstreamKey::Rss(url) => UpstreamKeyView::Rss(url@),
            UpstreamKey::Absent => UpstreamKeyView::Absent,
        }
    }
}

/// What is known of one recipe in the checked-out recipe tree.
#[derive(Clone, Debug, PartialEq, Eq)]
pub struct RecipeMonitor {
    pub recipe_name: String,
    pub current_version: String,
    pub upstream: UpstreamKey,
}

/// A recipe as a mathematical value.
pub struct RecipeView {
    pub recipe_name: Seq<char>,
    pub current_version: Seq<char>,
    pub upstream: UpstreamKeyView,
}

impl View for RecipeMonitor {
    type V = RecipeView;

    open spec fn view(&self) -> RecipeView {
        RecipeView {
            recipe_name: self.recipe_name@,
            current_version: self.current_version@,
            upstream: self.upstream@,
        }
    }
}

/// Which upstream key an upstream id and a feed address give: the id if
/// there is one, else the feed address if there is one, else none.
pub open spec fn upstream_of(id: Option<u32>, url: Option<Seq<char>>) -> UpstreamKeyView {
    match id {
        Some(n) => UpstreamKeyView::Release(n),
        None => match url {
            Some(u) => UpstreamKeyView::Rss(u),
            None => UpstreamKeyView::Absent,
        },
    }
}

/// The text of an optional string.
pub open spec fn text_of(s: Option<String>) -> Option<Seq<char>> {
    match s {
        Some(t) => Some(t@),
        None => None,
    }
}

impl RecipeMonitor {
    /// Makes the record of a recipe from its name, its version, and the
    /// upstream id and feed address that the recipe may name.
    pub fn new(
        recipe_name: String,
        current_version: String,
        upstream_id: Option<u32>,
        rss_url: Option<String>,
    ) -> (r: RecipeMonitor)
        ensures
            r@.recipe_name == recipe_name@,
            r@.current_version == current_version@,
            r@.upstream == upstream_of(upstream_id, text_of(rss_url)),
    {
        let upstream = match upstream_id {
            Some(id) => UpstreamKey::Release(id),
            None => match rss_url {
                Some(url) => UpstreamKey::Rss(url),
                None => UpstreamKey::Absent,
            },
        };
        RecipeMonitor { recipe_name, current_version, upstream }
    }
}

/// What the release monitor says of an upstream project.
#[derive(Clone, Debug, PartialEq, Eq)]
pub struct ReleaseMonitor {
    pub upstream_id: u32,
    pub upstream_name: String,
    pub latest_version: String,
}

/// A release record as a mathematical value.
pub struct ReleaseView {
    pub upstream_id: u32,
    pub upstream_name: Seq<char>,
    pub latest_version: Seq<char>,
}

impl View for ReleaseMonitor {
    type V = ReleaseView;

    open spec fn view(&self) -> ReleaseView {
        ReleaseView {
            upstream_id: self.upstream_id,
            upstream_name: self.upstream_name@,
            latest_version: self.latest_version@,
        }
    }
}

/// What a feed says of an upstream project.
#[derive(Clone, Debug, PartialEq, Eq)]
pub struct RssMonitor {
    pub rss_url: String,
    pub latest_version: String,
}

/// A feed record as a mathematical value.
pub struct RssView {
    pub rss_url: Seq<char>,
    pub latest_version: Seq<char>,
}

impl View for RssMonitor {
    type V = RssView;

    open spec fn view(&self) -> RssView {
        RssView { rss_url: self.rss_url@, latest_version: self.latest_version@ }
    }
}

/// The key of a release record: its upstream id in decimal.
pub open spec fn release_key(r: ReleaseView) -> Seq<u8> {
    digits(r.upstream_id as nat)
}

/// The fields of a release record, in schema order.
pub open spec fn release_fields(r: ReleaseView) -> Seq<FieldValue> {
    seq![
        FieldValue::Number(r.upstream_id),
        FieldValue::Text(r.upstream_name),
        FieldValue::Text(r.latest_version),
    ]
}

/// The release record that the fields are, if they are one.
pub open spec fn release_from(vs: Seq<FieldValue>) -> Option<ReleaseView> {
    if vs.len() != 3 {
        None
    } else {
        match (vs[0], vs[1], vs[2]) {
            (FieldValue::Number(id), FieldValue::Text(name), FieldValue::Text(latest)) => Some(
                ReleaseView { upstream_id: id, upstream_name: name, latest_version: latest },
            ),
            _ => None,
        }
    }
}

/// The key of a feed record: its feed address in UTF-8.
pub open spec fn rss_key(r: RssView) -> Seq<u8> {
    encode_utf8(r.rss_url)
}

/// The fields of a feed record, in schema order.
pub open spec fn rss_fields(r: RssView) -> Seq<FieldValue> {
    seq![FieldValue::Text(r.rss_url), FieldValue::Text(r.latest_version)]
}

/// The feed record that the fields are, if they are one.
pub open spec fn rss_from(vs: Seq<FieldValue>) -> Option<RssView> {
    if vs.len() != 2 {
        None
    } else {
        match (vs[0], vs[1]) {
            (FieldValue::Text(url), FieldValue::Text(latest)) => Some(
                RssView { rss_url: url, latest_version: latest },
            ),
            _ => None,
        }
    }
}

/// The fields of a release record are those of the release schema, and give
/// the record back.
pub proof fn lemma_release_fields(r: ReleaseView)
    ensures
        schema(RecordClass::Release, 1) == Some(kinds_of(release_fields(r))),
        release_from(release_fields(r)) == Some(r),
{
    assert(kinds_of(release_fields(r)) =~= seq![
        FieldKind::Number,
        FieldKind::Text,
        FieldKind::Text,
    ]);
}

/// The fields of a feed record are those of the feed schema, and give the
/// record back.
pub proof fn lemma_rss_fields(r: RssView)
    ensures
        schema(RecordClass::Rss, 1) == Some(kinds_of(rss_fields(r))),
        rss_from(rss_fields(r)) == Some(r),
{
    assert(kinds_of(rss_fields(r)) =~= seq![FieldKind::Text, FieldKind::Text]);
}

impl ReleaseMonitor {
    /// The key under which the record is stored.
    pub fn key(&self) -> (key: Vec<u8>)
        ensures
            key@ == release_key(self@),
    {
        decimal(self.upstream_id)
    }

    /// The fields of the record, in schema order.
    pub fn to_fields(&self) -> (fields: Vec<Field>)
        ensures
            values(fields@) == release_fields(self@),
    {
        let mut fields: Vec<Field> = Vec::new();
        fields.push(Field::Number(self.upstream_id));
        fields.push(Field::Text(self.upstream_name.clone()));
        fields.push(Field::Text(self.latest_version.clone()));
        assert(values(fields@) =~= release_fields(self@));
        fields
    }

    /// The record that the fields are, if they are one.
    pub fn from_fields(fields: &Vec<Field>) -> (r: Option<ReleaseMonitor>)
        ensures
            match r {
                Some(m) => release_from(values(fields@)) == Some(m@),
                None => release_from(values(fields@)).is_none(),
            },
    {
        if fields.len() != 3 {
            return None;
        }
        match (&fields[0], &fields[1], &fields[2]) {
            (Field::Number(id), Field::Text(name), Field::Text(latest)) => Some(
                ReleaseMonitor {
                    upstream_id: *id,
                    upstream_name: name.clone(),
                    latest_version: latest.clone(),
                },
            ),
            _ => None,
        }
    }
}

impl RssMonitor {
    /// The key under which the record is stored.
    pub fn key(&self) -> (key: Vec<u8>)
        ensures
            key@ == rss_key(self@),
    {
        copy_bytes(self.rss_url.as_str().as_bytes())
    }

    /// The fields of the record, in schema order.
    pub fn to_fields(&self) -> (fields: Vec<Field>)
        ensures
            values(fields@) == rss_fields(self@),
    {
        let mut fields: Vec<Field> = Vec::new();
        fields.push(Field::Text(self.rss_url.clone()));
        fields.push(Field::Text(self.latest_version.clone()));
        assert(values(fields@) =~= rss_fields(self@));
        fields
    }

    /// The record that the fields are, if they are one.
    pub fn from_fields(fields: &Vec<Field>) -> (r: Option<RssMonitor>)
        ensures
            match r {
                Some(m) => rss_from(values(fields@)) == Some(m@),
                None => rss_from(values(fields@)).is_none(),
            },
    {
        if fields.len() != 2 {
            return None;
        }
        match (&fields[0], &fields[1]) {
            (Field::Text(url), Field::Text(latest)) => Some(
                RssMonitor { rss_url: url.clone(), latest_version: latest.clone() },
            ),
            _ => None,
        }
    }
}

/// A record of either class.
#[derive(Clone, Debug, PartialEq, Eq)]
pub enum Monitor {
    Release(ReleaseMonitor),
    Rss(RssMonitor),
}

/// A record of either class, as a mathematical value.
pub enum MonitorView {
    Release(ReleaseView),
    Rss(RssView),
}

impl View for Monitor {
    type V = MonitorView;

    open spec fn view(&self) -> MonitorView {
        match self {
            Monitor::Release(r) => MonitorView::Release(r@),
            Monitor::Rss(r) => MonitorView::Rss(r@),
        }
    }
}

/// The records as mathematical values.
pub open spec fn monitor_views(monitors: Seq<Monitor>) -> Seq<MonitorView> {
    Seq::new(monitors.len(), |i: int| monitors[i]@)
}

/// The key under which a record is stored.
pub open spec fn monitor_key(m: MonitorView) -> Seq<u8> {
    match m {
        MonitorView::Release(r) => release_key(r),
        MonitorView::Rss(r) => rss_key(r),
    }
}

/// The fields of a record, in schema order.
pub open spec fn monitor_fields(m: MonitorView) -> Seq<FieldValue> {
    match m {
        MonitorView::Release(r) => release_fields(r),
        MonitorView::Rss(r) => rss_fields(r),
    }
}

/// The record of the given class that the fields are, if they are one.
pub open spec fn monitor_from(class: RecordClass, vs: Seq<FieldValue>) -> Option<MonitorView> {
    match class {
        RecordClass::Release => match release_from(vs) {
            Some(r) => Some(MonitorView::Release(r)),
            None => None,
        },
        RecordClass::Rss => match rss_from(vs) {
            Some(r) => Some(MonitorView::Rss(r)),
            None => None,
        },
    }
}

/// The class of a record.
pub open spec fn class_of_monitor(m: MonitorView) -> RecordClass {
    match m {
        MonitorView::Release(_) => RecordClass::Release,
        MonitorView::Rss(_) => RecordClass::Rss,
    }
}

impl Monitor {
    /// The key under which the record is stored.
    pub fn key(&self) -> (key: Vec<u8>)
        ensures
            key@ == monitor_key(self@),
    {
        match self {
            Monitor::Release(r) => r.key(),
            Monitor::Rss(r) => r.key(),
        }
    }

    /// The fields of the record, in schema order.
    pub fn to_fields(&self) -> (fields: Vec<Field>)
        ensures
            values(fields@) == monitor_fields(self@),
    {
        match self {
            Monitor::Release(r) => r.to_fields(),
            Monitor::Rss(r) => r.to_fields(),
        }
    }

    /// The record of the given class that the fields are, if they are one.
    pub fn from_fields(class: RecordClass, fields: &Vec<Field>) -> (r: Option<Monitor>)
        ensures
            match r {
                Some(m) => monitor_from(class, values(fields@)) == Some(m@),
                None => monitor_from(class, values(fields@)).is_none(),
            },
    {
        match class {
            RecordClass::Release => match ReleaseMonitor::from_fields(fields) {
                Some(r) => Some(Monitor::Release(r)),
                None => None,
            },
            RecordClass::Rss => match RssMonitor::from_fields(fields) {
                Some(r) => Some(Monitor::Rss(r)),
                None => None,
            },
        }
    }
}

} // verus!

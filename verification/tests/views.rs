use ent::decimal::{decimal, parse_decimal};
use ent::error::CacheError;
use ent::meta::Revision;
use ent::monitor::{Monitor, RecipeMonitor, ReleaseMonitor, RssMonitor, UpstreamKey};
use ent::names::{class_bytes, file_name, parse_name, FileName};
use ent::pipeline::{build_cache, compute_updates, read_cache, show_updates, Update};
use ent::plan::{plan_view, ViewPlan};
use ent::publish::{begin, step, temp_name, Action, Event, Outcome, PublishState};
use ent::reader::Reader;
use ent::recipes::{Monitoring, Recipe};
use ent::schema::RecordClass;
use ent::summit::{BuildStatus, Task, TaskEnumerateResponse};
use ent::view::{CacheView, Upstream};

fn rev(s: &str) -> Revision {
    Revision::new(s.as_bytes().to_vec()).unwrap()
}

fn names(list: &[&str]) -> Vec<Vec<u8>> {
    list.iter().map(|s| s.as_bytes().to_vec()).collect()
}

fn release(id: u32, name: &str, latest: &str) -> ReleaseMonitor {
    ReleaseMonitor {
        upstream_id: id,
        upstream_name: name.to_string(),
        latest_version: latest.to_string(),
    }
}

fn rss(url: &str, latest: &str) -> RssMonitor {
    RssMonitor { rss_url: url.to_string(), latest_version: latest.to_string() }
}

fn recipe(name: &str, version: &str, id: Option<u32>, url: Option<&str>) -> RecipeMonitor {
    RecipeMonitor::new(name.to_string(), version.to_string(), id, url.map(|u| u.to_string()))
}

fn release_file(revision: &str) -> Vec<u8> {
    let monitors = vec![
        Monitor::Release(release(42, "alpha", "1.1")),
        Monitor::Release(release(7, "beta", "2.0")),
        Monitor::Release(release(42, "alpha", "1.2")),
    ];
    build_cache(RecordClass::Release, rev(revision), 100, &monitors).unwrap()
}

fn rss_file(revision: &str) -> Vec<u8> {
    let monitors = vec![Monitor::Rss(rss("https://example.org/gamma.xml", "3.0"))];
    build_cache(RecordClass::Rss, rev(revision), 200, &monitors).unwrap()
}

fn view(revision: &str) -> CacheView {
    CacheView::compose(
        rev(revision),
        Some(Reader::open_cache(release_file(revision)).unwrap()),
        Some(Reader::open_cache(rss_file(revision)).unwrap()),
    )
    .unwrap()
}

#[test]
fn decimal_numbers_have_no_leading_zeros() {
    assert_eq!(decimal(0), b"0".to_vec());
    assert_eq!(decimal(7), b"7".to_vec());
    assert_eq!(decimal(42), b"42".to_vec());
    assert_eq!(decimal(1000), b"1000".to_vec());
    assert_eq!(decimal(4_294_967_295), b"4294967295".to_vec());
    assert_eq!(parse_decimal(b"0"), Some(0));
    assert_eq!(parse_decimal(b"42"), Some(42));
    assert_eq!(parse_decimal(b"4294967295"), Some(4_294_967_295));
    assert_eq!(parse_decimal(b"4294967296"), None);
    assert_eq!(parse_decimal(b"9999999999"), None);
    assert_eq!(parse_decimal(b"12345678901"), None);
    assert_eq!(parse_decimal(b"042"), None);
    assert_eq!(parse_decimal(b"00"), None);
    assert_eq!(parse_decimal(b""), None);
    assert_eq!(parse_decimal(b"4a"), None);
    assert_eq!(parse_decimal(b"-1"), None);
    assert_eq!(parse_decimal(b"+1"), None);
    assert_eq!(parse_decimal(b" 1"), None);
}

#[test]
fn file_names_have_four_parts() {
    assert_eq!(class_bytes(RecordClass::Release), b"release".to_vec());
    assert_eq!(class_bytes(RecordClass::Rss), b"rss".to_vec());
    assert_eq!(file_name(RecordClass::Release, 1, &rev("abc")), b"release.1.abc.cdb".to_vec());
    assert_eq!(file_name(RecordClass::Rss, 65535, &rev("X-9_=")), b"rss.65535.X-9_=.cdb".to_vec());
    assert_eq!(
        parse_name(b"release.1.abc.cdb"),
        Some(FileName { class: RecordClass::Release, version: 1, revision: rev("abc") })
    );
    assert_eq!(
        parse_name(b"rss.65535.xyz.cdb"),
        Some(FileName { class: RecordClass::Rss, version: 65535, revision: rev("xyz") })
    );
    assert_eq!(
        parse_name(b"rss.0.0.cdb"),
        Some(FileName { class: RecordClass::Rss, version: 0, revision: rev("0") })
    );
}

#[test]
fn other_names_are_no_cache_file_names() {
    for name in [
        &b""[..],
        b"release",
        b"release.1.abc",
        b"release.1.abc.",
        b"release.1.abc.cdb.",
        b"release.1.abc.cdb.tmp.17",
        b"release.1.abc.cd",
        b"release.1.abc.CDB",
        b"release.1.abc.cdbx",
        b"release.01.abc.cdb",
        b"release.65536.abc.cdb",
        b"release.-1.abc.cdb",
        b"release..abc.cdb",
        b"release.1..cdb",
        b"release.1.a b.cdb",
        b"release.1.a/b.cdb",
        b"Release.1.abc.cdb",
        b"cve.1.abc.cdb",
        b".1.abc.cdb",
        b"release.1.abc.def.cdb",
        b"....",
        b"...",
    ] {
        assert_eq!(parse_name(name), None);
    }
    let long = format!("release.1.{}.cdb", "a".repeat(65));
    assert_eq!(parse_name(long.as_bytes()), None);
    let fits = format!("release.1.{}.cdb", "a".repeat(64));
    assert!(parse_name(fits.as_bytes()).is_some());
}

#[test]
fn names_are_read_back_as_they_were_made() {
    for class in [RecordClass::Release, RecordClass::Rss] {
        for version in [0u16, 1, 9, 10, 99, 100, 65535] {
            for revision in ["a", "abc", "0123456789abcdef", "Q-_="] {
                let name = file_name(class, version, &rev(revision));
                assert_eq!(
                    parse_name(&name),
                    Some(FileName { class, version, revision: rev(revision) })
                );
            }
        }
    }
}

#[test]
fn a_view_takes_the_files_of_one_revision() {
    let dir = names(&["release.1.abc.cdb", "rss.1.abc.cdb", "README", "release.1.abc.cdb.tmp.5"]);
    assert_eq!(
        plan_view(&dir, None),
        Ok(ViewPlan { revision: Some(rev("abc")), release: Some(1), rss: Some(1) })
    );
    assert_eq!(
        plan_view(&dir, Some(&rev("abc"))),
        Ok(ViewPlan { revision: Some(rev("abc")), release: Some(1), rss: Some(1) })
    );
}

#[test]
fn files_of_two_revisions_make_no_view() {
    let dir = names(&["release.1.abc.cdb", "rss.1.xyz.cdb"]);
    assert_eq!(plan_view(&dir, None), Err(CacheError::InconsistentRevision));
    let dir = names(&["release.1.abc.cdb", "release.1.xyz.cdb"]);
    assert_eq!(plan_view(&dir, None), Err(CacheError::InconsistentRevision));
    let dir = names(&["junk", "rss.1.xyz.cdb", "rss.1.xyz.cdb", "release.1.abc.cdb"]);
    assert_eq!(plan_view(&dir, None), Err(CacheError::InconsistentRevision));
}

#[test]
fn a_pinned_view_passes_over_other_revisions() {
    let dir = names(&["release.1.abc.cdb", "rss.1.xyz.cdb"]);
    assert_eq!(
        plan_view(&dir, Some(&rev("abc"))),
        Ok(ViewPlan { revision: Some(rev("abc")), release: Some(1), rss: None })
    );
    assert_eq!(
        plan_view(&dir, Some(&rev("xyz"))),
        Ok(ViewPlan { revision: Some(rev("xyz")), release: None, rss: Some(1) })
    );
    assert_eq!(
        plan_view(&dir, Some(&rev("none"))),
        Ok(ViewPlan { revision: Some(rev("none")), release: None, rss: None })
    );
}

#[test]
fn a_view_passes_over_versions_it_does_not_know() {
    // Version 2 of either class is not known; a file of it counts for nothing,
    // not even for the revision.
    let dir = names(&["release.2.xyz.cdb", "release.1.abc.cdb", "rss.0.abc.cdb"]);
    assert_eq!(
        plan_view(&dir, None),
        Ok(ViewPlan { revision: Some(rev("abc")), release: Some(1), rss: None })
    );
    let dir = names(&["release.2.abc.cdb"]);
    assert_eq!(plan_view(&dir, None), Ok(ViewPlan { revision: None, release: None, rss: None }));
}

#[test]
fn an_empty_directory_gives_an_empty_view() {
    assert_eq!(
        plan_view(&Vec::new(), None),
        Ok(ViewPlan { revision: None, release: None, rss: None })
    );
    assert_eq!(
        plan_view(&names(&["a", "b.c", "x.tmp.1"]), None),
        Ok(ViewPlan { revision: None, release: None, rss: None })
    );
}

#[test]
fn built_caches_are_read_back() {
    let monitors = vec![
        Monitor::Release(release(42, "alpha", "1.1")),
        Monitor::Release(release(7, "beta", "2.0")),
        Monitor::Release(release(42, "alpha", "1.2")),
    ];
    let image = build_cache(RecordClass::Release, rev("abc"), 100, &monitors).unwrap();
    assert_eq!(read_cache(image.clone()).unwrap(), monitors);
    let reader = Reader::open_cache(image).unwrap();
    assert_eq!(reader.version(), 1);
    assert_eq!(reader.created(), 100);
    assert_eq!(reader.enumerate().unwrap()[1].key, b"7".to_vec());

    let feeds = vec![
        Monitor::Rss(rss("https://example.org/a.xml", "1")),
        Monitor::Rss(rss("https://example.org/ü.xml", "2")),
    ];
    let image = build_cache(RecordClass::Rss, rev("abc"), -1, &feeds).unwrap();
    assert_eq!(read_cache(image.clone()).unwrap(), feeds);
    let reader = Reader::open_cache(image).unwrap();
    assert_eq!(reader.lookup("https://example.org/ü.xml".as_bytes()).unwrap().len(), 1);

    assert_eq!(read_cache(build_cache(RecordClass::Rss, rev("r"), 0, &Vec::new()).unwrap()), Ok(vec![]));
}

#[test]
fn records_of_another_class_are_not_built_into_a_cache() {
    let mixed = vec![
        Monitor::Release(release(42, "alpha", "1.1")),
        Monitor::Rss(rss("https://example.org/a.xml", "1")),
    ];
    assert_eq!(
        build_cache(RecordClass::Release, rev("abc"), 0, &mixed),
        Err(CacheError::UnsupportedSchemaVersion)
    );
    assert_eq!(
        build_cache(RecordClass::Rss, rev("abc"), 0, &mixed),
        Err(CacheError::UnsupportedSchemaVersion)
    );
    let long = vec![Monitor::Rss(rss(&"u".repeat(65_536), "1"))];
    assert_eq!(build_cache(RecordClass::Rss, rev("abc"), 0, &long), Err(CacheError::KeyTooLarge));
}

#[test]
fn what_is_no_cache_is_not_read() {
    assert_eq!(read_cache(Vec::new()), Err(CacheError::CorruptCache));
    assert_eq!(read_cache(vec![0u8; 4096]), Err(CacheError::CorruptCache));
    let mut image = release_file("abc");
    let last = image.len() - 1;
    image.truncate(last);
    assert!(read_cache(image).is_ok());
    let mut image = release_file("abc");
    image.truncate(2100);
    assert_eq!(read_cache(image), Err(CacheError::CorruptCache));
}

#[test]
fn record_keys_and_fields() {
    let r = release(42, "alpha", "1.1");
    assert_eq!(r.key(), b"42".to_vec());
    assert_eq!(ReleaseMonitor::from_fields(&r.to_fields()), Some(r.clone()));
    assert_eq!(RssMonitor::from_fields(&r.to_fields()), None);
    let f = rss("https://example.org/ü.xml", "2");
    assert_eq!(f.key(), "https://example.org/ü.xml".as_bytes().to_vec());
    assert_eq!(RssMonitor::from_fields(&f.to_fields()), Some(f.clone()));
    assert_eq!(ReleaseMonitor::from_fields(&f.to_fields()), None);
    assert_eq!(ReleaseMonitor::from_fields(&Vec::new()), None);
    let m = Monitor::Rss(f.clone());
    assert_eq!(m.key(), f.key());
    assert_eq!(Monitor::from_fields(RecordClass::Rss, &m.to_fields()), Some(m.clone()));
    assert_eq!(Monitor::from_fields(RecordClass::Release, &m.to_fields()), None);
}

#[test]
fn recipes_name_their_upstream() {
    assert_eq!(recipe("a", "1", Some(42), None).upstream, UpstreamKey::Release(42));
    assert_eq!(
        recipe("a", "1", None, Some("https://example.org/a.xml")).upstream,
        UpstreamKey::Rss("https://example.org/a.xml".to_string())
    );
    assert_eq!(
        recipe("a", "1", Some(42), Some("https://example.org/a.xml")).upstream,
        UpstreamKey::Release(42)
    );
    assert_eq!(recipe("a", "1", None, None).upstream, UpstreamKey::Absent);
    let parsed = Recipe {
        name: "alpha".to_string(),
        version: "1.0".to_string(),
        monitoring: Some(Monitoring { upstream_id: Some(42), rss_url: None }),
    };
    assert_eq!(parsed.monitor(), recipe("alpha", "1.0", Some(42), None));
    let bare = Recipe { name: "zeta".to_string(), version: "9".to_string(), monitoring: None };
    assert_eq!(bare.monitor(), recipe("zeta", "9", None, None));
}

#[test]
fn a_view_over_files_of_one_revision() {
    let v = view("abc");
    v.checked();
    assert_eq!(v.pinned().as_bytes(), b"abc");
    assert_eq!(v.release_reader().unwrap().revision().as_bytes(), b"abc");
    assert_eq!(v.release_reader().unwrap().class(), RecordClass::Release);
    assert_eq!(v.rss_reader().unwrap().revision().as_bytes(), b"abc");
    assert_eq!(v.rss_reader().unwrap().class(), RecordClass::Rss);
    let partial = CacheView::compose(rev("abc"), None, None).unwrap();
    assert!(partial.release_reader().is_none());
    assert!(partial.rss_reader().is_none());
}

#[test]
fn a_view_over_files_of_two_revisions_is_refused() {
    let release = Reader::open_cache(release_file("abc")).unwrap();
    let feed = Reader::open_cache(rss_file("xyz")).unwrap();
    assert_eq!(
        CacheView::compose(rev("abc"), Some(release), Some(feed)).err(),
        Some(CacheError::InconsistentRevision)
    );
    let release = Reader::open_cache(release_file("abc")).unwrap();
    assert_eq!(
        CacheView::compose(rev("xyz"), Some(release), None).err(),
        Some(CacheError::InconsistentRevision)
    );
}

#[test]
fn a_file_in_the_place_of_another_class_is_refused() {
    let release = Reader::open_cache(release_file("abc")).unwrap();
    assert_eq!(
        CacheView::compose(rev("abc"), None, Some(release)).err(),
        Some(CacheError::CorruptCache)
    );
    let feed = Reader::open_cache(rss_file("abc")).unwrap();
    assert_eq!(
        CacheView::compose(rev("abc"), Some(feed), None).err(),
        Some(CacheError::CorruptCache)
    );
}

#[test]
fn a_join_answers_every_recipe() {
    let v = view("abc");
    let recipes = vec![
        recipe("alpha", "1.0", Some(42), None),
        recipe("beta", "2.0", Some(7), None),
        recipe("gamma", "2.9", None, Some("https://example.org/gamma.xml")),
        recipe("delta", "1", Some(9), None),
        recipe("epsilon", "1", None, Some("https://example.org/none.xml")),
        recipe("zeta", "1", None, None),
    ];
    let joined = v.join(&recipes).unwrap();
    assert_eq!(
        joined,
        vec![
            Upstream::Release(release(42, "alpha", "1.1")),
            Upstream::Release(release(7, "beta", "2.0")),
            Upstream::Rss(rss("https://example.org/gamma.xml", "3.0")),
            Upstream::Absent,
            Upstream::Absent,
            Upstream::Absent,
        ]
    );
    assert_eq!(v.upstream(&recipes[0]).unwrap(), joined[0]);
    assert_eq!(v.join(&Vec::new()).unwrap(), Vec::<Upstream>::new());
}

#[test]
fn a_partial_view_answers_with_absent() {
    let only_feeds = CacheView::compose(
        rev("abc"),
        None,
        Some(Reader::open_cache(rss_file("abc")).unwrap()),
    )
    .unwrap();
    let recipes = vec![
        recipe("alpha", "1.0", Some(42), None),
        recipe("gamma", "2.9", None, Some("https://example.org/gamma.xml")),
    ];
    assert_eq!(
        only_feeds.join(&recipes).unwrap(),
        vec![Upstream::Absent, Upstream::Rss(rss("https://example.org/gamma.xml", "3.0"))]
    );
}

#[test]
fn a_join_over_a_damaged_file_fails() {
    let mut image = release_file("abc");
    // Damage the value of the first entry, which lies after the reserved record.
    let first = 2048 + 8 + 9 + 32;
    image[first + 8 + 2 + 2] = 200;
    let v = CacheView::compose(rev("abc"), Some(Reader::open_cache(image).unwrap()), None).unwrap();
    assert_eq!(
        v.join(&vec![recipe("beta", "2.0", Some(7), None), recipe("alpha", "1.0", Some(42), None)]),
        Err(CacheError::CorruptCache)
    );
    assert!(v.join(&vec![recipe("beta", "2.0", Some(7), None)]).is_ok());
}

#[test]
fn updates_are_the_recipes_that_are_behind() {
    let v = view("abc");
    let recipes = vec![
        recipe("alpha", "1.0", Some(42), None),
        recipe("beta", "2.0", Some(7), None),
        recipe("gamma", "2.9", None, Some("https://example.org/gamma.xml")),
        recipe("zeta", "1", None, None),
    ];
    let joined = v.join(&recipes).unwrap();
    let updates = compute_updates(&recipes, &joined);
    assert_eq!(
        updates,
        vec![
            Update {
                recipe_name: "alpha".to_string(),
                current_version: "1.0".to_string(),
                latest_version: "1.1".to_string(),
            },
            Update {
                recipe_name: "gamma".to_string(),
                current_version: "2.9".to_string(),
                latest_version: "3.0".to_string(),
            },
        ]
    );
    assert_eq!(show_updates(&updates), vec!["alpha: 1.0 -> 1.1", "gamma: 2.9 -> 3.0"]);
    assert_eq!(show_updates(&Vec::new()), Vec::<String>::new());
}

#[test]
fn recipes_without_an_answer_are_passed_over() {
    let recipes = vec![recipe("alpha", "1.0", Some(42), None), recipe("beta", "2.0", Some(7), None)];
    let answers = vec![Upstream::Release(release(42, "alpha", "1.1"))];
    assert_eq!(compute_updates(&recipes, &answers).len(), 1);
    assert!(compute_updates(&recipes, &Vec::new()).is_empty());
    assert!(compute_updates(&Vec::new(), &answers).is_empty());
    let same = vec![Upstream::Release(release(42, "alpha", "1.0")), Upstream::Absent];
    assert!(compute_updates(&recipes, &same).is_empty());
}

fn run(events: &[Event], len: u64) -> (PublishState, Vec<Action>) {
    let (mut state, first) = begin();
    let mut actions = vec![first];
    for e in events {
        let (next, action) = step(state, *e, len);
        state = next;
        actions.push(action);
    }
    (state, actions)
}

#[test]
fn a_publish_renames_after_the_file_is_durable() {
    let events = [Event::FinalAbsent, Event::Done, Event::Done, Event::Done, Event::Done];
    let (state, actions) = run(&events, 10);
    assert_eq!(state, PublishState::Renaming);
    assert_eq!(
        actions,
        vec![
            Action::StatFinal,
            Action::CreateTemp,
            Action::WriteImage,
            Action::SyncTemp,
            Action::CloseTemp,
            Action::RenameToFinal,
        ]
    );
    let (state, action) = step(state, Event::Done, 10);
    assert_eq!((state, action), (PublishState::Settling, Action::SyncDirectory));
    assert_eq!(
        step(state, Event::Done, 10),
        (PublishState::Finished(Outcome::Published), Action::Stop(Outcome::Published))
    );
    // A directory that cannot be made durable after the rename changes nothing.
    assert_eq!(
        step(state, Event::Failed, 10),
        (PublishState::Finished(Outcome::Published), Action::Stop(Outcome::Published))
    );
}

#[test]
fn a_failure_before_the_rename_never_renames() {
    let happy = [Event::FinalAbsent, Event::Done, Event::Done, Event::Done, Event::Done];
    for fail_at in 0..5 {
        let mut events: Vec<Event> = happy[..fail_at].to_vec();
        events.push(Event::Failed);
        events.push(Event::Done);
        events.push(Event::Done);
        let (state, actions) = run(&events, 10);
        assert!(!actions.contains(&Action::RenameToFinal));
        assert!(!actions.contains(&Action::SyncDirectory));
        assert_eq!(state, PublishState::Finished(Outcome::Failed(CacheError::Io)));
        // The temporary file is removed once it exists.
        assert_eq!(actions.contains(&Action::RemoveTemp), fail_at >= 2);
    }
    // A rename that fails is cleaned up after, and reported.
    let mut events = happy.to_vec();
    events.push(Event::Failed);
    let (state, actions) = run(&events, 10);
    assert_eq!(state, PublishState::Cleaning);
    assert_eq!(actions.last(), Some(&Action::RemoveTemp));
    assert_eq!(
        step(state, Event::Failed, 10),
        (
            PublishState::Finished(Outcome::Failed(CacheError::Io)),
            Action::Stop(Outcome::Failed(CacheError::Io))
        )
    );
}

#[test]
fn a_publish_over_an_existing_file_writes_nothing() {
    let (state, actions) = run(&[Event::FinalPresent(10)], 10);
    assert_eq!(state, PublishState::Finished(Outcome::AlreadyThere));
    assert_eq!(actions, vec![Action::StatFinal, Action::Stop(Outcome::AlreadyThere)]);
    let (state, _) = run(&[Event::FinalPresent(11)], 10);
    assert_eq!(state, PublishState::Finished(Outcome::Failed(CacheError::CorruptCache)));
    // A finished publish stays finished.
    assert_eq!(step(state, Event::Done, 10).0, state);
}

#[test]
fn two_producers_of_the_same_file_both_succeed() {
    let a = release_file("abc");
    let b = release_file("abc");
    assert_eq!(a, b);
    let name = file_name(RecordClass::Release, 1, &rev("abc"));
    assert_eq!(name, b"release.1.abc.cdb".to_vec());
    let mut dir: Vec<(Vec<u8>, Vec<u8>)> = Vec::new();
    // Both look before either has renamed; each then runs to its end.
    let mut outcomes = Vec::new();
    let mut states = Vec::new();
    for _ in 0..2 {
        let (state, action) = begin();
        assert_eq!(action, Action::StatFinal);
        states.push(step(state, Event::FinalAbsent, a.len() as u64));
    }
    for (who, image) in [(0u32, &a), (1u32, &b)] {
        let temp = temp_name(&name, 1000 + who);
        let (mut state, mut action) = states[who as usize];
        loop {
            let event = match action {
                Action::CreateTemp => {
                    dir.push((temp.clone(), Vec::new()));
                    Event::Done
                }
                Action::WriteImage => {
                    dir.iter_mut().find(|f| f.0 == temp).unwrap().1 = image.clone();
                    Event::Done
                }
                Action::RenameToFinal => {
                    let at = dir.iter().position(|f| f.0 == temp).unwrap();
                    let (_, content) = dir.remove(at);
                    dir.retain(|f| f.0 != name);
                    dir.push((name.clone(), content));
                    Event::Done
                }
                Action::Stop(outcome) => {
                    outcomes.push(outcome);
                    break;
                }
                _ => Event::Done,
            };
            let next = step(state, event, image.len() as u64);
            state = next.0;
            action = next.1;
        }
    }
    assert_eq!(outcomes, vec![Outcome::Published, Outcome::Published]);
    assert_eq!(dir.len(), 1);
    assert_eq!(dir[0].0, name);
    assert_eq!(dir[0].1, a);
    assert_eq!(dir[0].1, b);
    // A third producer that comes later finds the file there.
    let (state, _) = begin();
    assert_eq!(
        step(state, Event::FinalPresent(dir[0].1.len() as u64), a.len() as u64).1,
        Action::Stop(Outcome::AlreadyThere)
    );
}

#[test]
fn temporary_names_are_no_cache_file_names() {
    let name = file_name(RecordClass::Release, 1, &rev("abc"));
    let temp = temp_name(&name, 17);
    assert_eq!(temp, b"release.1.abc.cdb.tmp.17".to_vec());
    assert_eq!(temp_name(&name, 0), b"release.1.abc.cdb.tmp.0".to_vec());
    assert_eq!(parse_name(&temp), None);
    assert_eq!(
        plan_view(&vec![temp], None),
        Ok(ViewPlan { revision: None, release: None, rss: None })
    );
}

#[test]
fn build_states_stand_for_numbers() {
    let all = [
        BuildStatus::New,
        BuildStatus::Blocked,
        BuildStatus::Building,
        BuildStatus::Publishing,
        BuildStatus::Completed,
        BuildStatus::Failed,
        BuildStatus::Superseded,
        BuildStatus::Cancelled,
    ];
    for (code, status) in all.iter().enumerate() {
        assert_eq!(BuildStatus::from(code as i32), *status);
        assert_eq!(status.code(), code as i32);
    }
    for unknown in [8, 9, 100, -1, i32::MIN, i32::MAX] {
        assert_eq!(BuildStatus::from(unknown), BuildStatus::Failed);
    }
    let status: BuildStatus = 4.into();
    assert_eq!(status, BuildStatus::Completed);
}

#[test]
fn a_page_of_tasks_holds_its_tasks() {
    let task = Task {
        id: 1,
        project_id: 2,
        repo_id: 3,
        profile_id: 4,
        slug: "slug".to_string(),
        pkg_id: "pkg".to_string(),
        architecture: "x86_64".to_string(),
        build_id: "build".to_string(),
        description: "description".to_string(),
        commit_ref: "ref".to_string(),
        source_path: "path".to_string(),
        status: BuildStatus::from(2),
        ts_started: 10,
        ts_updated: 11,
        ts_ended: 0,
        blocked_by: Vec::new(),
        allocated_builder: "builder".to_string(),
        log_path: "log".to_string(),
    };
    let page = TaskEnumerateResponse {
        items: vec![task.clone()],
        num_pages: 1,
        page: 0,
        has_previous: false,
        has_next: false,
    };
    assert_eq!(page.items[0], task);
    assert_eq!(page.items[0].status, BuildStatus::Building);
}

use ent::envelope::{frame, unframe};
use ent::error::CacheError;
use ent::fields::{decode_fields, encode_fields, Field, FieldKind};
use ent::image::{build_image, Record};
use ent::meta::{is_revision, make_meta_key, read_meta, write_meta, Meta, Revision};
use ent::read::{enumerate, lookup};
use ent::reader::{Entry, Reader};
use ent::schema::{encode_value, field_names, fits_schema, read_value, schema_of, RecordClass};
use ent::writer::CacheWriter;

fn rev(s: &str) -> Revision {
    Revision::new(s.as_bytes().to_vec()).unwrap()
}

fn release(id: u32, name: &str, latest: &str) -> Vec<Field> {
    vec![Field::Number(id), Field::Text(name.to_string()), Field::Text(latest.to_string())]
}

fn writer() -> CacheWriter {
    CacheWriter::create_cache(RecordClass::Release, 1, rev("abc"), 1_700_000_000).unwrap()
}

fn scenario() -> Vec<u8> {
    let mut w = writer();
    w.put(b"42", &release(42, "alpha", "A")).unwrap();
    w.put(b"7", &release(7, "beta", "B")).unwrap();
    w.put(b"42", &release(42, "alpha", "C")).unwrap();
    w.commit().unwrap()
}

#[test]
fn fields_are_laid_out_one_after_the_other() {
    let payload = encode_fields(&release(42, "alpha", "1.0")).unwrap();
    assert_eq!(
        payload,
        vec![
            42, 0, 0, 0, 5, 0, 0, 0, b'a', b'l', b'p', b'h', b'a', 3, 0, 0, 0, b'1', b'.', b'0'
        ]
    );
    assert_eq!(encode_fields(&Vec::new()).unwrap(), Vec::<u8>::new());
}

#[test]
fn fields_round_trip() {
    let fields = release(4_294_967_295, "grüße, мир, 世界 🦀", "");
    let payload = encode_fields(&fields).unwrap();
    let kinds = vec![FieldKind::Number, FieldKind::Text, FieldKind::Text];
    assert_eq!(decode_fields(&kinds, &payload).unwrap(), fields);
}

#[test]
fn trailing_bytes_after_the_fields_are_refused() {
    let kinds = vec![FieldKind::Number, FieldKind::Text, FieldKind::Text];
    let mut payload = encode_fields(&release(42, "alpha", "1.0")).unwrap();
    payload.push(0);
    assert_eq!(decode_fields(&kinds, &payload), Err(CacheError::CorruptCache));
}

#[test]
fn a_payload_that_ends_early_is_refused() {
    let kinds = vec![FieldKind::Number, FieldKind::Text, FieldKind::Text];
    let payload = encode_fields(&release(42, "alpha", "1.0")).unwrap();
    for cut in 0..payload.len() {
        assert_eq!(decode_fields(&kinds, &payload[..cut]), Err(CacheError::CorruptCache));
    }
    assert_eq!(decode_fields(&vec![FieldKind::Number], &[1, 2, 3]), Err(CacheError::CorruptCache));
    assert_eq!(decode_fields(&Vec::new(), &[]).unwrap(), Vec::<Field>::new());
    assert_eq!(decode_fields(&Vec::new(), &[0]), Err(CacheError::CorruptCache));
}

#[test]
fn a_text_that_is_not_utf8_is_refused() {
    let kinds = vec![FieldKind::Text];
    assert_eq!(decode_fields(&kinds, &[2, 0, 0, 0, 0xC3, 0x28]), Err(CacheError::CorruptCache));
    assert_eq!(decode_fields(&kinds, &[1, 0, 0, 0, 0xFF]), Err(CacheError::CorruptCache));
    // A surrogate and an overlong form are no UTF-8 either.
    assert_eq!(
        decode_fields(&kinds, &[3, 0, 0, 0, 0xED, 0xA0, 0x80]),
        Err(CacheError::CorruptCache)
    );
    assert_eq!(decode_fields(&kinds, &[2, 0, 0, 0, 0xC0, 0x80]), Err(CacheError::CorruptCache));
    // The same length with UTF-8 in it is a text, and not the bytes handed back.
    assert_eq!(
        decode_fields(&kinds, &[2, 0, 0, 0, 0xC3, 0xBC]).unwrap(),
        vec![Field::Text("ü".to_string())]
    );
}

#[test]
fn envelopes_have_exact_bytes() {
    let value = frame(1, &[9, 8, 7]).unwrap();
    assert_eq!(value, vec![1, 0, 3, 0, 0, 0, 9, 8, 7]);
    assert_eq!(unframe(&value).unwrap(), (1, vec![9, 8, 7]));
    assert_eq!(frame(0x0203, &[]).unwrap(), vec![3, 2, 0, 0, 0, 0]);
    assert_eq!(unframe(&[3, 2, 0, 0, 0, 0]).unwrap(), (0x0203, Vec::new()));
}

#[test]
fn damaged_envelopes_are_refused() {
    assert_eq!(unframe(&[1, 0, 3, 0, 0, 0, 9, 8]), Err(CacheError::CorruptCache));
    assert_eq!(unframe(&[1, 0, 3, 0, 0, 0, 9, 8, 7, 6]), Err(CacheError::CorruptCache));
    assert_eq!(unframe(&[1, 0, 3, 0, 0]), Err(CacheError::CorruptCache));
    assert_eq!(unframe(&[]), Err(CacheError::CorruptCache));
}

#[test]
fn schemas_declare_their_fields() {
    assert_eq!(
        schema_of(RecordClass::Release, 1),
        Some(vec![FieldKind::Number, FieldKind::Text, FieldKind::Text])
    );
    assert_eq!(schema_of(RecordClass::Rss, 1), Some(vec![FieldKind::Text, FieldKind::Text]));
    assert_eq!(schema_of(RecordClass::Release, 0), None);
    assert_eq!(schema_of(RecordClass::Rss, 2), None);
    assert_eq!(RecordClass::Release.tag(), 1);
    assert_eq!(RecordClass::Rss.tag(), 2);
    assert_eq!(RecordClass::from_tag(1), Some(RecordClass::Release));
    assert_eq!(RecordClass::from_tag(2), Some(RecordClass::Rss));
    assert_eq!(RecordClass::from_tag(0), None);
    assert_eq!(RecordClass::from_tag(3), None);
    let kinds = schema_of(RecordClass::Release, 1).unwrap();
    assert!(fits_schema(&kinds, &release(1, "a", "b")));
    assert!(!fits_schema(&kinds, &vec![Field::Number(1)]));
    assert!(!fits_schema(
        &kinds,
        &vec![Field::Text("a".into()), Field::Text("b".into()), Field::Text("c".into())]
    ));
}

#[test]
fn values_round_trip_and_have_exact_bytes() {
    let fields = release(42, "alpha", "1.0");
    let value = encode_value(RecordClass::Release, 1, &fields).unwrap();
    assert_eq!(
        value,
        vec![
            1, 0, 20, 0, 0, 0, 42, 0, 0, 0, 5, 0, 0, 0, b'a', b'l', b'p', b'h', b'a', 3, 0, 0, 0,
            b'1', b'.', b'0'
        ]
    );
    assert_eq!(read_value(RecordClass::Release, &value).unwrap(), (1, fields));
}

#[test]
fn a_value_with_trailing_bytes_is_corrupt() {
    let mut value = encode_value(RecordClass::Release, 1, &release(42, "alpha", "1.0")).unwrap();
    value.push(0);
    assert_eq!(read_value(RecordClass::Release, &value), Err(CacheError::CorruptCache));
    // Trailing bytes inside the payload are leftovers of the positional decode.
    let mut payload = encode_fields(&release(42, "alpha", "1.0")).unwrap();
    payload.push(0);
    let value = frame(1, &payload).unwrap();
    assert_eq!(read_value(RecordClass::Release, &value), Err(CacheError::CorruptCache));
}

#[test]
fn a_value_of_a_newer_version_is_unsupported() {
    let payload = encode_fields(&release(42, "alpha", "1.0")).unwrap();
    let value = frame(2, &payload).unwrap();
    assert_eq!(read_value(RecordClass::Release, &value), Err(CacheError::UnsupportedSchemaVersion));
    let mut longer = value.clone();
    longer.extend_from_slice(&[1, 2, 3]);
    assert_eq!(read_value(RecordClass::Release, &longer), Err(CacheError::UnsupportedSchemaVersion));
    assert_eq!(read_value(RecordClass::Release, &[1, 0, 0]), Err(CacheError::CorruptCache));
}

#[test]
fn fields_of_another_schema_are_refused() {
    let rss = vec![Field::Text("https://example.org/feed".into()), Field::Text("2.0".into())];
    assert_eq!(
        encode_value(RecordClass::Release, 1, &rss),
        Err(CacheError::UnsupportedSchemaVersion)
    );
    assert_eq!(
        encode_value(RecordClass::Rss, 7, &rss),
        Err(CacheError::UnsupportedSchemaVersion)
    );
    assert!(encode_value(RecordClass::Rss, 1, &rss).is_ok());
    // A release value read as a feed value does not decode.
    let value = encode_value(RecordClass::Release, 1, &release(42, "alpha", "1.0")).unwrap();
    assert_eq!(read_value(RecordClass::Rss, &value), Err(CacheError::CorruptCache));
}

#[test]
fn revisions_are_short_tokens() {
    assert!(is_revision(b"abc"));
    assert!(is_revision(b"0123456789abcdefABCDEF"));
    assert!(is_revision(b"MFRGG===_-"));
    assert!(is_revision(&[b'a'; 64]));
    assert!(!is_revision(&[b'a'; 65]));
    assert!(!is_revision(b""));
    assert!(!is_revision(b"a.b"));
    assert!(!is_revision(b"a/b"));
    assert!(!is_revision(b"a b"));
    assert!(!is_revision(&[0xC3, 0xBC]));
    assert!(Revision::new(b"a.b".to_vec()).is_none());
    let r = rev("abc");
    assert_eq!(r.as_bytes(), b"abc");
    assert!(r.same(&rev("abc")));
    assert!(!r.same(&rev("abd")));
    assert_eq!(r.copy(), r);
}

#[test]
fn the_reserved_record_has_exact_bytes() {
    assert_eq!(make_meta_key(), b"\0__meta__".to_vec());
    let meta = Meta {
        class: RecordClass::Release,
        version: 1,
        revision: rev("abc"),
        created: 1_700_000_000,
    };
    let value = write_meta(&meta);
    let mut expected = vec![1u8, 0, 26, 0, 0, 0];
    expected.extend_from_slice(b"ENTCDB1");
    expected.extend_from_slice(&[1, 0, 1, 0, 3, 0, 0, 0]);
    expected.extend_from_slice(b"abc");
    expected.extend_from_slice(&[0x00, 0xF1, 0x53, 0x65, 0, 0, 0, 0]);
    assert_eq!(value, expected);
    assert_eq!(value.len(), 32);
    assert_eq!(read_meta(&value).unwrap(), meta);
}

#[test]
fn the_reserved_record_round_trips_for_both_classes() {
    for (class, created) in [(RecordClass::Release, -5i64), (RecordClass::Rss, i64::MAX)] {
        let meta = Meta { class, version: 1, revision: rev("r-1_x="), created };
        assert_eq!(read_meta(&write_meta(&meta)).unwrap(), meta);
    }
}

#[test]
fn a_damaged_reserved_record_is_refused() {
    let meta = Meta {
        class: RecordClass::Rss,
        version: 1,
        revision: rev("abc"),
        created: 0,
    };
    let good = write_meta(&meta);
    // The magic.
    let mut bad = good.clone();
    bad[6] = b'X';
    assert_eq!(read_meta(&bad), Err(CacheError::CorruptCache));
    // A class that does not exist.
    let mut bad = good.clone();
    bad[13] = 9;
    assert_eq!(read_meta(&bad), Err(CacheError::UnsupportedSchemaVersion));
    // A version that the class does not have, in payload and envelope.
    let mut bad = good.clone();
    bad[15] = 2;
    bad[0] = 2;
    assert_eq!(read_meta(&bad), Err(CacheError::UnsupportedSchemaVersion));
    // An envelope of another version than the payload names.
    let mut bad = good.clone();
    bad[0] = 2;
    assert_eq!(read_meta(&bad), Err(CacheError::CorruptCache));
    // A revision with a dot in it.
    let mut bad = good.clone();
    bad[21] = b'.';
    assert_eq!(read_meta(&bad), Err(CacheError::CorruptCache));
    // A revision longer than the payload.
    let mut bad = good.clone();
    bad[17] = 4;
    assert_eq!(read_meta(&bad), Err(CacheError::CorruptCache));
    // Too short.
    assert_eq!(read_meta(&good[..12]), Err(CacheError::CorruptCache));
    assert_eq!(read_meta(&[]), Err(CacheError::CorruptCache));
}

#[test]
fn a_writer_of_an_unknown_version_is_not_made() {
    for version in [0u16, 2, 65535] {
        assert!(matches!(
            CacheWriter::create_cache(RecordClass::Release, version, rev("abc"), 0),
            Err(CacheError::UnsupportedSchemaVersion)
        ));
    }
}

#[test]
fn the_scenario_of_three_records() {
    let image = scenario();
    let reader = Reader::open_cache(image).unwrap();
    assert_eq!(reader.class(), RecordClass::Release);
    assert_eq!(reader.version(), 1);
    assert_eq!(reader.revision().as_bytes(), b"abc");
    assert_eq!(reader.created(), 1_700_000_000);
    assert_eq!(
        reader.enumerate().unwrap(),
        vec![
            Entry { key: b"42".to_vec(), fields: release(42, "alpha", "A") },
            Entry { key: b"7".to_vec(), fields: release(7, "beta", "B") },
            Entry { key: b"42".to_vec(), fields: release(42, "alpha", "C") },
        ]
    );
    assert_eq!(
        reader.lookup(b"42").unwrap(),
        vec![release(42, "alpha", "A"), release(42, "alpha", "C")]
    );
    assert_eq!(reader.lookup(b"7").unwrap(), vec![release(7, "beta", "B")]);
    assert_eq!(reader.lookup(b"9").unwrap(), Vec::<Vec<Field>>::new());
}

#[test]
fn the_reserved_record_is_the_first_record_of_the_file() {
    let image = scenario();
    let records = enumerate(&image).unwrap();
    assert_eq!(records.len(), 4);
    assert_eq!(records[0].key, b"\0__meta__".to_vec());
    assert_eq!(records[0].value.len(), 32);
    assert_eq!(records[1].key, b"42".to_vec());
    assert_eq!(lookup(&image, b"\0__meta__").unwrap(), vec![records[0].value.clone()]);
    // Through a reader the reserved record is not an entry.
    let reader = Reader::open_cache(image).unwrap();
    assert!(reader.lookup(b"\0__meta__").unwrap().is_empty());
}

#[test]
fn an_entry_under_the_reserved_key_is_an_entry_like_any_other() {
    let mut w = writer();
    w.put(b"\0__meta__", &release(1, "odd", "1")).unwrap();
    w.put(b"x", &release(2, "even", "2")).unwrap();
    let reader = Reader::open_cache(w.commit().unwrap()).unwrap();
    assert_eq!(reader.enumerate().unwrap().len(), 2);
    assert_eq!(reader.lookup(b"\0__meta__").unwrap(), vec![release(1, "odd", "1")]);
}

#[test]
fn an_empty_cache_is_a_header_the_reserved_record_and_its_slots() {
    let mut w = writer();
    assert_eq!(w.len(), 0);
    assert_eq!(w.size(), 2113);
    let image = w.commit().unwrap();
    // The header, the record of 8 + 9 + 32 bytes, and its two slots.
    assert_eq!(image.len(), 2048 + (8 + 9 + 32) + 16);
    let reader = Reader::open_cache(image).unwrap();
    assert!(reader.enumerate().unwrap().is_empty());
    for key in [&b"42"[..], b"", b"release", b"\0", b"__meta__"] {
        assert!(reader.lookup(key).unwrap().is_empty());
    }
}

#[test]
fn two_writers_with_the_same_input_make_the_same_file() {
    assert_eq!(scenario(), scenario());
    let mut later = CacheWriter::create_cache(RecordClass::Release, 1, rev("abc"), 1_700_000_001)
        .unwrap();
    later.put(b"42", &release(42, "alpha", "A")).unwrap();
    later.put(b"7", &release(7, "beta", "B")).unwrap();
    later.put(b"42", &release(42, "alpha", "C")).unwrap();
    assert_ne!(later.commit().unwrap(), scenario());
}

#[test]
fn the_size_of_a_writer_is_the_length_of_its_file() {
    let mut w = writer();
    w.put(b"42", &release(42, "alpha", "A")).unwrap();
    // The value: 6 for the envelope, 4 + (4 + 5) + (4 + 1) for the fields.
    assert_eq!(w.size(), 2113 + (8 + 2 + 6 + 18) + 16);
    assert_eq!(w.len(), 1);
    let size = w.size();
    assert_eq!(w.commit().unwrap().len() as u64, size);
}

#[test]
fn a_key_that_is_too_long_is_refused_and_the_writer_goes_on() {
    let mut w = writer();
    w.put(b"1", &release(1, "one", "1")).unwrap();
    let long = vec![b'k'; 70_000];
    assert_eq!(w.put(&long, &release(2, "two", "2")), Err(CacheError::KeyTooLarge));
    assert_eq!(w.len(), 1);
    w.put(&vec![b'k'; 65_535], &release(3, "three", "3")).unwrap();
    assert_eq!(w.put(&vec![b'k'; 65_536], &release(4, "four", "4")), Err(CacheError::KeyTooLarge));
    let reader = Reader::open_cache(w.commit().unwrap()).unwrap();
    let entries = reader.enumerate().unwrap();
    assert_eq!(entries.len(), 2);
    assert_eq!(entries[0], Entry { key: b"1".to_vec(), fields: release(1, "one", "1") });
    assert_eq!(entries[1].key.len(), 65_535);
    assert!(reader.lookup(&long).unwrap().is_empty());
    assert_eq!(reader.lookup(&vec![b'k'; 65_535]).unwrap(), vec![release(3, "three", "3")]);
}

#[test]
fn fields_of_another_class_are_refused_and_the_writer_goes_on() {
    let mut w = writer();
    let rss = vec![Field::Text("https://example.org/feed".into()), Field::Text("2.0".into())];
    assert_eq!(w.put(b"k", &rss), Err(CacheError::UnsupportedSchemaVersion));
    assert_eq!(w.put(b"k", &Vec::new()), Err(CacheError::UnsupportedSchemaVersion));
    w.put(b"k", &release(1, "one", "1")).unwrap();
    assert_eq!(w.len(), 1);
}

#[test]
fn a_committed_writer_takes_nothing() {
    let mut w = writer();
    w.put(b"1", &release(1, "one", "1")).unwrap();
    let image = w.commit().unwrap();
    assert_eq!(w.put(b"2", &release(2, "two", "2")), Err(CacheError::WriterFinalized));
    assert_eq!(w.put(&vec![0; 70_000], &release(2, "two", "2")), Err(CacheError::WriterFinalized));
    assert_eq!(w.commit(), Err(CacheError::WriterFinalized));
    assert_eq!(Reader::open_cache(image).unwrap().enumerate().unwrap().len(), 1);
}

#[test]
fn an_aborted_writer_takes_nothing() {
    let mut w = writer();
    w.put(b"1", &release(1, "one", "1")).unwrap();
    w.abort();
    assert_eq!(w.put(b"2", &release(2, "two", "2")), Err(CacheError::WriterFinalized));
    assert_eq!(w.commit(), Err(CacheError::WriterFinalized));
    w.abort();
    assert_eq!(w.len(), 1);
}

#[test]
fn a_file_with_a_mangled_magic_is_corrupt() {
    let mut image = scenario();
    // The magic begins after the two lengths, the key and the envelope head.
    let at = 2048 + 8 + 9 + 6;
    assert_eq!(&image[at..at + 7], b"ENTCDB1");
    image[at + 3] = b'x';
    assert!(matches!(Reader::open_cache(image), Err(CacheError::CorruptCache)));
}

#[test]
fn a_file_without_the_reserved_record_is_corrupt() {
    assert!(matches!(Reader::open_cache(vec![0u8; 2048]), Err(CacheError::CorruptCache)));
    assert!(matches!(Reader::open_cache(vec![0u8; 100]), Err(CacheError::CorruptCache)));
    assert!(matches!(Reader::open_cache(Vec::new()), Err(CacheError::CorruptCache)));
    let plain = build_image(&vec![Record { key: b"42".to_vec(), value: b"A".to_vec() }]).unwrap();
    assert!(matches!(Reader::open_cache(plain), Err(CacheError::CorruptCache)));
}

#[test]
fn a_file_of_an_unknown_version_is_unsupported() {
    let mut image = scenario();
    let envelope = 2048 + 8 + 9;
    image[envelope] = 2;
    image[envelope + 6 + 9] = 2;
    assert!(matches!(Reader::open_cache(image), Err(CacheError::UnsupportedSchemaVersion)));
}

#[test]
fn a_value_of_another_version_than_the_file_is_refused() {
    let mut image = scenario();
    // The first entry lies after the reserved record of 49 bytes.
    let value = 2048 + 49 + 8 + 2;
    assert_eq!(&image[value..value + 2], &[1, 0]);
    image[value] = 2;
    let reader = Reader::open_cache(image).unwrap();
    assert_eq!(reader.enumerate(), Err(CacheError::UnsupportedSchemaVersion));
    assert_eq!(reader.lookup(b"42"), Err(CacheError::UnsupportedSchemaVersion));
    assert_eq!(reader.lookup(b"7").unwrap().len(), 1);
}

#[test]
fn a_damaged_value_is_refused() {
    let mut image = scenario();
    let value = 2048 + 49 + 8 + 2;
    image[value + 2] = image[value + 2] + 1; // the announced payload length
    let reader = Reader::open_cache(image).unwrap();
    assert_eq!(reader.enumerate(), Err(CacheError::CorruptCache));
    assert_eq!(reader.lookup(b"42"), Err(CacheError::CorruptCache));
}

#[test]
fn closing_a_reader_hands_back_its_bytes() {
    let image = scenario();
    let reader = Reader::open_cache(image.clone()).unwrap();
    reader.checked();
    assert_eq!(reader.close(), image);
}

#[test]
fn schemas_name_their_fields() {
    assert_eq!(
        field_names(RecordClass::Release, 1),
        Some(vec!["upstream_id", "upstream_name", "latest_version"])
    );
    assert_eq!(field_names(RecordClass::Rss, 1), Some(vec!["rss_url", "latest_version"]));
    assert_eq!(field_names(RecordClass::Rss, 2), None);
    for class in [RecordClass::Release, RecordClass::Rss] {
        assert_eq!(field_names(class, 1).unwrap().len(), schema_of(class, 1).unwrap().len());
    }
}

#[test]
fn every_error_has_its_description() {
    let all = [
        CacheError::Io,
        CacheError::CorruptCache,
        CacheError::UnsupportedSchemaVersion,
        CacheError::InconsistentRevision,
        CacheError::WriterFinalized,
        CacheError::KeyTooLarge,
        CacheError::FileTooLarge,
    ];
    assert_eq!(CacheError::CorruptCache.description(), "the cache file is corrupt");
    assert_eq!(CacheError::KeyTooLarge.description(), "the key is too large");
    for (i, a) in all.iter().enumerate() {
        for (j, b) in all.iter().enumerate() {
            assert_eq!(a.description() == b.description(), i == j);
        }
    }
}

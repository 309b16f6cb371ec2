use ent::error::CacheError;
use ent::hash::cdb_hash;
use ent::image::{build_image, Record};
use ent::read::{enumerate, lookup, read_record, Cursor, Probe};
use ent::table::{insert_slot, new_table, Slot};
use ent::wire::{
    copy_bytes, copy_range, get_i64, get_u16, get_u32, put_bytes, put_i64, put_u16, put_u32,
    same_bytes,
};

fn rec(key: &str, value: &str) -> Record {
    Record { key: key.as_bytes().to_vec(), value: value.as_bytes().to_vec() }
}

fn three() -> Vec<Record> {
    vec![rec("42", "A"), rec("7", "B"), rec("42", "C")]
}

#[test]
fn little_endian_numbers_have_exact_bytes() {
    let mut out = Vec::new();
    put_u32(&mut out, 0x0102_0304);
    put_u16(&mut out, 0x0A0B);
    assert_eq!(out, vec![4, 3, 2, 1, 0x0B, 0x0A]);
    assert_eq!(get_u32(&out, 0), 0x0102_0304);
    assert_eq!(get_u16(&out, 4), 0x0A0B);
    assert_eq!(get_u16(&out, 1), 0x0203);
}

#[test]
fn signed_numbers_take_eight_bytes() {
    let mut out = Vec::new();
    put_i64(&mut out, -1);
    put_i64(&mut out, i64::MIN);
    put_i64(&mut out, 1_700_000_000);
    put_i64(&mut out, i64::MAX);
    assert_eq!(&out[0..8], &[0xFF; 8]);
    assert_eq!(&out[8..16], &[0, 0, 0, 0, 0, 0, 0, 0x80]);
    assert_eq!(&out[16..24], &[0x00, 0xF1, 0x53, 0x65, 0, 0, 0, 0]);
    assert_eq!(get_i64(&out, 0), -1);
    assert_eq!(get_i64(&out, 8), i64::MIN);
    assert_eq!(get_i64(&out, 16), 1_700_000_000);
    assert_eq!(get_i64(&out, 24), i64::MAX);
}

#[test]
fn byte_helpers_copy_and_compare() {
    let mut out = vec![1u8];
    put_bytes(&mut out, &[2, 3]);
    assert_eq!(out, vec![1, 2, 3]);
    assert_eq!(copy_range(&out, 1, 3), vec![2, 3]);
    assert_eq!(copy_range(&out, 2, 2), Vec::<u8>::new());
    assert_eq!(copy_bytes(&out), vec![1, 2, 3]);
    assert!(same_bytes(&[1, 2, 3], &out));
    assert!(!same_bytes(&[1, 2, 4], &out));
    assert!(!same_bytes(&[1, 2], &out));
    assert!(same_bytes(&[], &[]));
}

#[test]
fn hash_has_exact_values() {
    assert_eq!(cdb_hash(b""), 5381);
    assert_eq!(cdb_hash(b"a"), 177_604);
    assert_eq!(cdb_hash(b"42"), 5_859_203);
    assert_eq!(cdb_hash(b"7"), 177_554);
    assert_eq!(cdb_hash(b"\0__meta__"), 61_347_608);
}

#[test]
fn hash_wraps_at_thirty_two_bits() {
    let long = vec![0xFFu8; 64];
    let mut h: u32 = 5381;
    for b in &long {
        h = h.wrapping_mul(33) ^ (*b as u32);
    }
    assert_eq!(cdb_hash(&long), h);
}

#[test]
fn insertion_probes_to_the_next_free_slot() {
    let mut t = new_table(4);
    assert_eq!(t.len(), 4);
    assert!(t.iter().all(|s| s.offset == 0));
    // Hash 0x0300 starts at slot 3; so does 0x0700, which wraps to slot 0.
    insert_slot(&mut t, 0x0300, 2048);
    insert_slot(&mut t, 0x0700, 2060);
    insert_slot(&mut t, 0x0300, 2072);
    assert_eq!((t[3].hash, t[3].offset), (0x0300, 2048));
    assert_eq!((t[0].hash, t[0].offset), (0x0700, 2060));
    assert_eq!((t[1].hash, t[1].offset), (0x0300, 2072));
    assert_eq!(t[2].offset, 0);
    let copy: Slot = t[3];
    assert_eq!(copy.offset, 2048);
}

#[test]
fn built_file_has_the_documented_layout() {
    let image = build_image(&three()).unwrap();
    // Header, records of eleven, ten and eleven bytes, six slots of eight.
    assert_eq!(image.len(), 2048 + (11 + 10 + 11) + 6 * 8);
    assert_eq!(image.len(), 2128);
    // The first sub-table begins where the records end.
    assert_eq!(get_u32(&image, 0), 2080);
    assert_eq!(get_u32(&image, 4), 0);
    // "42" hashes to sub-table 131, which has four slots for its two records.
    assert_eq!(get_u32(&image, 8 * 131), 2080);
    assert_eq!(get_u32(&image, 8 * 131 + 4), 4);
    // "7" hashes to sub-table 146, which has two slots.
    assert_eq!(get_u32(&image, 8 * 146), 2080 + 32);
    assert_eq!(get_u32(&image, 8 * 146 + 4), 2);
    // The last sub-table ends where the file ends.
    assert_eq!(get_u32(&image, 8 * 255), 2128);
    // The first record: both lengths, the key, the value.
    assert_eq!(&image[2048..2059], &[2, 0, 0, 0, 1, 0, 0, 0, b'4', b'2', b'A']);
}

#[test]
fn enumerate_yields_the_records_in_insertion_order() {
    let image = build_image(&three()).unwrap();
    let records = enumerate(&image).unwrap();
    assert_eq!(records, three());
}

#[test]
fn lookup_yields_all_values_of_a_key_in_insertion_order() {
    let image = build_image(&three()).unwrap();
    assert_eq!(lookup(&image, b"42").unwrap(), vec![b"A".to_vec(), b"C".to_vec()]);
    assert_eq!(lookup(&image, b"7").unwrap(), vec![b"B".to_vec()]);
    assert_eq!(lookup(&image, b"9").unwrap(), Vec::<Vec<u8>>::new());
}

#[test]
fn duplicate_pairs_are_kept_apart() {
    let records = vec![rec("k", "v"), rec("k", "v"), rec("k", "v")];
    let image = build_image(&records).unwrap();
    assert_eq!(enumerate(&image).unwrap(), records);
    assert_eq!(lookup(&image, b"k").unwrap(), vec![b"v".to_vec(); 3]);
}

#[test]
fn two_builds_of_the_same_records_are_the_same_bytes() {
    let a = build_image(&three()).unwrap();
    let b = build_image(&three()).unwrap();
    assert_eq!(a, b);
    let other = build_image(&vec![rec("7", "B"), rec("42", "A"), rec("42", "C")]).unwrap();
    assert_ne!(a, other);
}

#[test]
fn many_records_are_all_found_again() {
    let mut records = Vec::new();
    for i in 0..2000u32 {
        records.push(Record {
            key: format!("key-{}", i % 700).into_bytes(),
            value: format!("value-{}", i).into_bytes(),
        });
    }
    let image = build_image(&records).unwrap();
    assert_eq!(enumerate(&image).unwrap(), records);
    for k in 0..700u32 {
        let key = format!("key-{}", k).into_bytes();
        let expected: Vec<Vec<u8>> =
            records.iter().filter(|r| r.key == key).map(|r| r.value.clone()).collect();
        assert_eq!(lookup(&image, &key).unwrap(), expected);
    }
    assert!(lookup(&image, b"key-700").unwrap().is_empty());
}

#[test]
fn empty_keys_and_values_are_records_too() {
    let records = vec![rec("", ""), rec("", "x"), rec("y", "")];
    let image = build_image(&records).unwrap();
    assert_eq!(enumerate(&image).unwrap(), records);
    assert_eq!(lookup(&image, b"").unwrap(), vec![Vec::new(), b"x".to_vec()]);
    assert_eq!(lookup(&image, b"y").unwrap(), vec![Vec::<u8>::new()]);
}

#[test]
fn no_records_give_a_header_and_nothing_else() {
    let image = build_image(&Vec::new()).unwrap();
    assert_eq!(image.len(), 2048);
    for t in 0..256 {
        assert_eq!(get_u32(&image, 8 * t), 2048);
        assert_eq!(get_u32(&image, 8 * t + 4), 0);
    }
    assert!(enumerate(&image).unwrap().is_empty());
    assert!(lookup(&image, b"anything").unwrap().is_empty());
}

#[test]
fn a_header_of_zeros_is_an_empty_file() {
    let image = vec![0u8; 2048];
    assert!(enumerate(&image).unwrap().is_empty());
    assert!(lookup(&image, b"42").unwrap().is_empty());
    assert!(lookup(&image, b"").unwrap().is_empty());
}

#[test]
fn bytes_shorter_than_a_header_are_corrupt() {
    let image = vec![0u8; 2047];
    assert_eq!(enumerate(&image), Err(CacheError::CorruptCache));
    assert_eq!(lookup(&image, b"42"), Err(CacheError::CorruptCache));
    assert_eq!(enumerate(&[]), Err(CacheError::CorruptCache));
}

#[test]
fn a_record_that_overruns_the_records_is_corrupt() {
    let mut image = build_image(&three()).unwrap();
    // The first record now claims a value of a hundred bytes.
    image[2052] = 100;
    assert_eq!(enumerate(&image), Err(CacheError::CorruptCache));
    // The truncated file ends inside the sub-tables.
    let image = build_image(&three()).unwrap();
    assert_eq!(lookup(&image[..2100], b"42"), Err(CacheError::CorruptCache));
}

#[test]
fn a_records_section_beyond_the_file_is_corrupt() {
    let mut image = vec![0u8; 2048];
    image[0] = 0x01;
    image[1] = 0x08; // records end at 2049, one byte past the file
    assert_eq!(enumerate(&image), Err(CacheError::CorruptCache));
}

#[test]
fn a_slot_that_points_at_no_record_is_corrupt() {
    let mut image = build_image(&three()).unwrap();
    let pos = get_u32(&image, 8 * 146) as usize;
    let len = get_u32(&image, 8 * 146 + 4) as usize;
    for i in 0..len {
        if get_u32(&image, pos + 8 * i + 4) != 0 {
            // Point the slot of "7" beyond the end of the file.
            image[pos + 8 * i + 4..pos + 8 * i + 8].copy_from_slice(&[0xF0, 0xFF, 0xFF, 0x7F]);
        }
    }
    assert_eq!(lookup(&image, b"7"), Err(CacheError::CorruptCache));
    // Other keys are still found.
    assert_eq!(lookup(&image, b"42").unwrap().len(), 2);
}

#[test]
fn a_sub_table_beyond_the_file_is_corrupt() {
    let mut image = build_image(&three()).unwrap();
    image[8 * 146 + 4] = 200; // two hundred slots do not fit
    assert_eq!(lookup(&image, b"7"), Err(CacheError::CorruptCache));
}

#[test]
fn a_full_sub_table_is_walked_once_round() {
    // A sub-table of one slot, taken by a record with another key of the
    // same hash: the walk ends after one round and finds nothing.
    let mut image = vec![0u8; 2048];
    let key = b"7";
    let h = cdb_hash(key);
    let t = (h % 256) as usize;
    let record_at = 2048u32;
    image.extend_from_slice(&[1, 0, 0, 0, 1, 0, 0, 0, b'x', b'B']);
    let table_at = image.len() as u32;
    image.extend_from_slice(&h.to_le_bytes());
    image.extend_from_slice(&record_at.to_le_bytes());
    image[8 * t..8 * t + 4].copy_from_slice(&table_at.to_le_bytes());
    image[8 * t + 4..8 * t + 8].copy_from_slice(&1u32.to_le_bytes());
    assert!(lookup(&image, key).unwrap().is_empty());
}

#[test]
fn read_record_reads_exactly_one_record() {
    let image = build_image(&three()).unwrap();
    assert_eq!(read_record(&image, 2048, image.len()), Some(rec("42", "A")));
    assert_eq!(read_record(&image, 2059, 2080), Some(rec("7", "B")));
    assert_eq!(read_record(&image, 2059, 2069), Some(rec("7", "B")));
    assert_eq!(read_record(&image, 2059, 2068), None);
    assert_eq!(read_record(&image, 2069, 2080), Some(rec("42", "C")));
    assert_eq!(read_record(&image, 100, image.len()), None);
    assert_eq!(read_record(&image, 2048, image.len() + 1), None);
}

#[test]
fn a_cursor_reads_the_records_one_by_one() {
    let image = build_image(&three()).unwrap();
    let mut cursor = Cursor::open(&image).unwrap();
    assert_eq!(cursor.advance(&image), Ok(Some(rec("42", "A"))));
    assert_eq!(cursor.advance(&image), Ok(Some(rec("7", "B"))));
    assert_eq!(cursor.advance(&image), Ok(Some(rec("42", "C"))));
    assert_eq!(cursor.advance(&image), Ok(None));
    assert_eq!(cursor.advance(&image), Ok(None));
    // A fresh cursor reads them again.
    let mut again = Cursor::open(&image).unwrap();
    assert_eq!(again.advance(&image), Ok(Some(rec("42", "A"))));
}

#[test]
fn a_cursor_stops_at_a_damaged_record() {
    let mut image = build_image(&three()).unwrap();
    // The second record now claims a key of two hundred bytes.
    image[2059] = 200;
    let mut cursor = Cursor::open(&image).unwrap();
    assert_eq!(cursor.advance(&image), Ok(Some(rec("42", "A"))));
    assert_eq!(cursor.advance(&image), Err(CacheError::CorruptCache));
    assert_eq!(cursor.advance(&image), Err(CacheError::CorruptCache));
    assert_eq!(enumerate(&image), Err(CacheError::CorruptCache));
}

#[test]
fn a_cursor_is_not_opened_on_what_is_no_file() {
    assert_eq!(Cursor::open(&[0u8; 100]).err(), Some(CacheError::CorruptCache));
    let mut image = vec![0u8; 2048];
    image[3] = 1;
    assert_eq!(Cursor::open(&image).err(), Some(CacheError::CorruptCache));
    let mut empty = Cursor::open(&[0u8; 2048]).unwrap();
    assert_eq!(empty.advance(&[0u8; 2048]), Ok(None));
}

#[test]
fn a_probe_yields_the_values_of_a_key_one_by_one() {
    let image = build_image(&three()).unwrap();
    let mut probe = Probe::open(&image, b"42").unwrap();
    assert_eq!(probe.advance(&image), Ok(Some(b"A".to_vec())));
    assert_eq!(probe.advance(&image), Ok(Some(b"C".to_vec())));
    assert_eq!(probe.advance(&image), Ok(None));
    assert_eq!(probe.advance(&image), Ok(None));
    let mut probe = Probe::open(&image, b"7").unwrap();
    assert_eq!(probe.advance(&image), Ok(Some(b"B".to_vec())));
    assert_eq!(probe.advance(&image), Ok(None));
    let mut probe = Probe::open(&image, b"9").unwrap();
    assert_eq!(probe.advance(&image), Ok(None));
}

#[test]
fn a_probe_agrees_with_a_lookup() {
    let mut records = Vec::new();
    for i in 0..600u32 {
        records.push(Record {
            key: format!("k{}", i % 97).into_bytes(),
            value: format!("v{}", i).into_bytes(),
        });
    }
    let image = build_image(&records).unwrap();
    for k in 0..100u32 {
        let key = format!("k{}", k).into_bytes();
        let mut probe = Probe::open(&image, &key).unwrap();
        let mut seen = Vec::new();
        while let Some(value) = probe.advance(&image).unwrap() {
            seen.push(value);
        }
        assert_eq!(seen, lookup(&image, &key).unwrap());
    }
}

#[test]
fn a_probe_stops_at_a_damaged_file() {
    assert_eq!(Probe::open(&[0u8; 10], b"42").err(), Some(CacheError::CorruptCache));
    let mut image = build_image(&three()).unwrap();
    image[8 * 146 + 4] = 200; // two hundred slots do not fit
    let mut probe = Probe::open(&image, b"7").unwrap();
    assert_eq!(probe.advance(&image), Err(CacheError::CorruptCache));
    // In a header of zeros every walk ends at once.
    let zeros = vec![0u8; 2048];
    let mut probe = Probe::open(&zeros, b"7").unwrap();
    assert_eq!(probe.advance(&zeros), Ok(None));
}

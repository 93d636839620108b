use pikadots::codec::{write_all, write_records};
use pikadots::data::{
    CacheConfig, CacheRef, Data, ReadConfig, ReaderValue, SeekableRef, UserInfo,
};
use pikadots::parser::{merge_row, sort_comments};
use pikadots::wire::FramingError;
use std::collections::HashMap;
use vstd::hash_map::StringHashMap;

fn user(id: i64, name: &str, comments: &[i64]) -> UserInfo {
    UserInfo { name: name.to_string(), pikabu_id: id, seek: None, comments: comments.to_vec() }
}

fn at(mut u: UserInfo, seek: usize) -> UserInfo {
    u.seek = Some(seek);
    u
}

fn container(records: &[UserInfo]) -> Vec<u8> {
    let mut out = Vec::new();
    write_records(records, &mut out).unwrap();
    out
}

fn three() -> Vec<UserInfo> {
    vec![user(1, "Bob", &[100]), user(2, "carol", &[150, 200]), user(3, "DAVE", &[])]
}

const ALL: CacheConfig = CacheConfig { names: true, ids: true, offsets: true, prefer_seek: false };

#[test]
fn example_of_two_records_survives_ingestion_and_codec() {
    let mut data = Data::new(Vec::new(), false);
    merge_row(&mut data, 1, "Bob".to_string(), 100);
    merge_row(&mut data, 2, "carol".to_string(), 200);
    merge_row(&mut data, 2, "carol".to_string(), 150);
    assert_eq!(data.cached[1].comments, vec![200, 150]);
    sort_comments(&mut data);
    let bytes = container(&data.cached);
    let mut back = Data::new(bytes, false);
    assert_eq!(back.read_next(), Ok(Some(user(1, "Bob", &[100]))));
    assert_eq!(back.read_next(), Ok(Some(user(2, "carol", &[150, 200]))));
    assert_eq!(back.read_next(), Ok(None));
    assert_eq!(back.read_next(), Ok(None));
}

#[test]
fn merge_row_fills_names_and_ids_only() {
    let mut data = Data::new(Vec::new(), false);
    merge_row(&mut data, 7, "Eve".to_string(), 5);
    assert_eq!(data.cached, vec![user(7, "Eve", &[5])]);
    assert_eq!(data.by_id(7), Ok(ReaderValue::Cached(0)));
    assert_eq!(data.by_name("EVE"), Ok(ReaderValue::Cached(0)));
    assert_eq!(data.offsets.len(), 0);
    merge_row(&mut data, 7, "someone else".to_string(), 1);
    assert_eq!(data.cached, vec![user(7, "Eve", &[5, 1])]);
    assert_eq!(data.by_name("someone else"), Ok(ReaderValue::Nothing));
}

#[test]
fn sort_comments_keeps_every_event() {
    let mut data = Data::new(Vec::new(), false);
    for ts in [5, -3, 5, 0, i64::MAX, i64::MIN] {
        merge_row(&mut data, 1, "a".to_string(), ts);
    }
    merge_row(&mut data, 2, "b".to_string(), 9);
    sort_comments(&mut data);
    assert_eq!(data.cached[0].comments, vec![i64::MIN, -3, 0, 5, 5, i64::MAX]);
    assert_eq!(data.cached[1].comments, vec![9]);
    assert_eq!(data.cached[0].name, "a");
}

#[test]
fn cache_only_store_reads_without_offsets() {
    let mut data = Data::new(container(&three()), false);
    assert!(!data.is_seekable());
    for want in three() {
        assert_eq!(data.read_next(), Ok(Some(want)));
    }
    assert_eq!(data.read_next(), Ok(None));
}

#[test]
fn seekable_store_tags_records_with_their_offsets() {
    let bytes = container(&three());
    let mut data = Data::new(bytes, true);
    assert!(data.is_seekable());
    let first = data.read_next().unwrap().unwrap();
    assert_eq!(first.seek, Some(0));
    let second = data.read_next().unwrap().unwrap();
    assert_eq!(second.seek, Some(8 + 3 + 1 + 8 + 8));
    let third = data.read_next().unwrap().unwrap();
    assert_eq!(third.seek, Some(28 + 8 + 5 + 1 + 16 + 8));
    assert_eq!(third.name, "DAVE");
    assert_eq!(data.read_next(), Ok(None));
}

#[test]
fn read_at_decodes_the_record_at_an_offset() {
    let data = Data::new(container(&three()), true);
    assert_eq!(data.read_at(28), Ok(Some(at(user(2, "carol", &[150, 200]), 28))));
    assert_eq!(data.read_at(0), Ok(Some(at(user(1, "Bob", &[100]), 0))));
    assert_eq!(data.read_at(1_000_000), Err(FramingError::Truncated));
    assert_eq!(data.pos, 0);
}

#[test]
fn read_at_the_end_marker_is_none() {
    let bytes = container(&three());
    let end = bytes.len() - 17;
    let data = Data::new(bytes, true);
    assert_eq!(data.read_at(end), Ok(None));
    assert_eq!(data.read_at_val(end), Ok(ReaderValue::Nothing));
    assert_eq!(data.by_offset(end), Ok(ReaderValue::Nothing));
}

#[test]
fn by_offset_equals_the_scanned_record_of_that_offset() {
    let bytes = container(&three());
    let mut scanning = Data::new(bytes.clone(), true);
    let seeking = Data::new(bytes, true);
    while let Some(scanned) = scanning.read_next().unwrap() {
        let offset = scanned.seek.unwrap();
        assert_eq!(seeking.by_offset(offset), Ok(ReaderValue::Owned(scanned)));
    }
}

#[test]
fn by_offset_prefers_the_cache() {
    let mut data = Data::new(container(&three()), true);
    let mut reader = data.get_reader(ReadConfig::Cache(ALL));
    reader.advance(&mut data).unwrap();
    reader.advance(&mut data).unwrap();
    assert_eq!(data.by_offset(28), Ok(ReaderValue::Cached(1)));
    assert_eq!(data.by_offset(0), Ok(ReaderValue::Cached(0)));
    match data.by_offset(66) {
        Ok(ReaderValue::Owned(u)) => assert_eq!(u.name, "DAVE"),
        other => panic!("{:?}", other),
    }
}

#[test]
fn reset_puts_the_cursor_at_the_start() {
    let mut data = Data::new(container(&three()), true);
    data.read_next().unwrap();
    data.read_next().unwrap();
    data.reset();
    assert_eq!(data.read_next().unwrap().unwrap().name, "Bob");
}

#[test]
fn caching_reader_builds_the_indexes_in_one_pass() {
    let mut data = Data::new(container(&three()), true);
    let mut reader = data.get_reader(ReadConfig::Cache(ALL));
    let mut seen = 0;
    loop {
        reader.advance(&mut data).unwrap();
        match reader.get(&data) {
            Some(u) => {
                assert_eq!(u, &data.cached[seen]);
                seen += 1;
            }
            None => break,
        }
    }
    assert_eq!(seen, 3);
    assert_eq!(data.cached.len(), 3);
    assert_eq!(data.by_name("bob"), Ok(ReaderValue::Cached(0)));
    assert_eq!(data.by_name("BOB"), Ok(ReaderValue::Cached(0)));
    assert_eq!(data.by_name("dave"), Ok(ReaderValue::Cached(2)));
    assert_eq!(data.by_id(2), Ok(ReaderValue::Cached(1)));
    assert_eq!(data.by_id(4), Ok(ReaderValue::Nothing));
    assert_eq!(data.by_name("nobody"), Ok(ReaderValue::Nothing));
    assert_eq!(data.offsets.get(&28), Some(&1));
    reader.advance(&mut data).unwrap();
    assert_eq!(reader.get(&data), None);
    assert_eq!(data.cached.len(), 3);
}

#[test]
fn plain_reader_leaves_the_cache_alone() {
    let mut data = Data::new(container(&three()), false);
    let mut reader = data.get_reader(ReadConfig::NoCache);
    assert_eq!(reader.get(&data), None);
    reader.advance(&mut data).unwrap();
    assert_eq!(reader.get(&data), Some(&user(1, "Bob", &[100])));
    assert!(data.cached.is_empty());
    assert_eq!(data.by_name("bob"), Ok(ReaderValue::Nothing));
}

#[test]
fn reader_reports_a_broken_chunk_and_stays() {
    let mut bytes = container(&three());
    bytes.truncate(40);
    let mut data = Data::new(bytes, false);
    let mut reader = data.get_reader(ReadConfig::Cache(ALL));
    assert_eq!(reader.advance(&mut data), Ok(()));
    assert_eq!(reader.advance(&mut data), Err(FramingError::Truncated));
    assert_eq!(reader.get(&data), Some(&user(1, "Bob", &[100])));
    assert_eq!(data.cached.len(), 1);
    assert_eq!(data.pos, 28);
}

#[test]
fn put_cache_obeys_the_flags() {
    let mut data = Data::new(Vec::new(), true);
    let none = CacheConfig { names: false, ids: false, offsets: false, prefer_seek: true };
    assert_eq!(data.put_cache(at(user(1, "A", &[]), 10), none), 0);
    assert_eq!(data.by_id(1), Ok(ReaderValue::Nothing));
    assert_eq!(data.by_name("a"), Ok(ReaderValue::Nothing));
    assert_eq!(data.offsets.len(), 0);
    let ids = CacheConfig { names: false, ids: true, offsets: false, prefer_seek: false };
    assert_eq!(data.put_cache(at(user(2, "B", &[]), 20), ids), 1);
    assert_eq!(data.by_id(2), Ok(ReaderValue::Cached(1)));
    assert_eq!(data.by_name("b"), Ok(ReaderValue::Nothing));
    let offsets = CacheConfig { names: false, ids: false, offsets: true, prefer_seek: false };
    assert_eq!(data.put_cache(user(3, "C", &[]), offsets), 2);
    assert_eq!(data.offsets.len(), 0);
    assert_eq!(data.put_cache(at(user(4, "D", &[]), 40), offsets), 3);
    assert_eq!(data.offsets.get(&40), Some(&3));
    assert_eq!(data.get_cached(3).map(|u| u.pikabu_id), Some(4));
    assert_eq!(data.get_cached(4), None);
}

#[test]
fn later_insert_wins_in_the_name_index() {
    let mut data = Data::new(Vec::new(), false);
    data.put_cache(user(1, "Bob", &[]), ALL);
    data.put_cache(user(2, "BOB", &[]), ALL);
    assert_eq!(data.by_name("bob"), Ok(ReaderValue::Cached(1)));
    assert_eq!(data.by_id(1), Ok(ReaderValue::Cached(0)));
}

#[test]
fn pending_seek_resolves_only_in_a_seekable_store() {
    let bytes = container(&three());
    let mut names = StringHashMap::new();
    names.insert("carol".to_string(), SeekableRef::Seek(28));
    let mut ids = HashMap::new();
    ids.insert(3i64, SeekableRef::Seek(66));
    ids.insert(9i64, SeekableRef::Seek(5));
    let mut data = Data::new(bytes.clone(), true);
    data.fill_cache(names, ids);
    assert_eq!(data.by_name("Carol"), Ok(ReaderValue::Owned(at(user(2, "carol", &[150, 200]), 28))));
    assert_eq!(data.by_id(3), Ok(ReaderValue::Owned(at(user(3, "DAVE", &[]), 66))));
    assert!(data.by_id(9).is_err());
    assert!(data.cached.is_empty());
    assert_eq!(data.get(SeekableRef::Seek(0)).unwrap(), ReaderValue::Owned(at(user(1, "Bob", &[100]), 0)));

    let mut names = StringHashMap::new();
    names.insert("carol".to_string(), SeekableRef::Seek(28));
    let mut plain = Data::new(bytes, false);
    plain.fill_cache(names, HashMap::new());
    assert_eq!(plain.by_name("carol"), Ok(ReaderValue::Nothing));
    assert_eq!(plain.get(SeekableRef::Seek(0)), Ok(ReaderValue::Nothing));
}

#[test]
fn cache_ref_is_a_cached_reference() {
    assert_eq!(CacheRef(3).reference(), SeekableRef::Cached(3));
    let mut data = Data::new(Vec::new(), false);
    data.put_cache(user(1, "x", &[1]), ALL);
    assert_eq!(data.get(CacheRef(0).reference()), Ok(ReaderValue::Cached(0)));
    let value = data.get(CacheRef(5).reference()).unwrap();
    assert_eq!(value.to_ref(&data), None);
    assert!(value.into_cow(&data).is_none());
}

#[test]
fn reader_value_resolves_against_the_cache() {
    let mut data = Data::new(Vec::new(), false);
    data.put_cache(user(1, "x", &[1]), ALL);
    assert_eq!(ReaderValue::Cached(0).to_ref(&data), Some(&user(1, "x", &[1])));
    assert_eq!(ReaderValue::Nothing.to_ref(&data), None);
    let own = ReaderValue::Owned(user(2, "y", &[]));
    assert_eq!(own.to_ref(&data), Some(&user(2, "y", &[])));
    assert_eq!(own.into_cow(&data).unwrap().into_owned(), user(2, "y", &[]));
    assert_eq!(ReaderValue::Cached(0).into_cow(&data).unwrap().into_owned(), user(1, "x", &[1]));
}

#[test]
fn write_all_copies_the_rest_of_a_container() {
    let bytes = container(&three());
    let mut data = Data::new(bytes.clone(), true);
    let mut out = Vec::new();
    assert_eq!(write_all(&mut data, &mut out), Ok(()));
    assert_eq!(out, bytes);
    data.reset();
    data.read_next().unwrap();
    let mut rest = vec![1u8];
    assert_eq!(write_all(&mut data, &mut rest), Ok(()));
    assert_eq!(&rest[1..], &bytes[28..]);
}

#[test]
fn write_all_writes_nothing_from_a_broken_container() {
    let mut bytes = container(&three());
    bytes.truncate(bytes.len() - 1);
    let mut data = Data::new(bytes, false);
    let mut out = vec![5u8];
    assert_eq!(write_all(&mut data, &mut out), Err(FramingError::Truncated));
    assert_eq!(out, vec![5u8]);
}

use pikadots::codec::write_records;
use pikadots::data::{CacheConfig, Data, ReaderValue, SeekableRef, UserInfo};
use pikadots::index::{index_line, load_index, read_line, IndexError};
use pikadots::search::{find, find_seek, SearchSettings};
use pikadots::selector::UserSelector;
use pikadots::wire::FramingError;

fn user(id: i64, name: &str, seek: Option<usize>) -> UserInfo {
    UserInfo { name: name.to_string(), pikabu_id: id, seek, comments: vec![1] }
}

fn people() -> Vec<UserInfo> {
    vec![user(1, "Bob", None), user(-2, "Carol, the First", None), user(3, "dave", None)]
}

fn container() -> Vec<u8> {
    let mut out = Vec::new();
    write_records(&people(), &mut out).unwrap();
    out
}

fn lines_of(bytes: &[u8]) -> Vec<String> {
    let mut data = Data::new(bytes.to_vec(), true);
    let mut lines = Vec::new();
    while let Some(u) = data.read_next().unwrap() {
        lines.push(index_line(&u).trim_end_matches('\n').to_string());
    }
    lines
}

#[test]
fn index_line_has_id_offset_and_name() {
    assert_eq!(index_line(&user(12, "Bob", Some(340))), "12,340,Bob\n");
    assert_eq!(index_line(&user(-12, "Bob", None)), "-12,,Bob\n");
    assert_eq!(index_line(&user(0, "", Some(0))), "0,0,\n");
    assert_eq!(index_line(&user(1, "a,b", Some(7))), "1,7,a,b\n");
}

#[test]
fn read_line_takes_three_fields() {
    let entry = read_line("12,340,Bob").unwrap().unwrap();
    assert_eq!((entry.id, entry.offset, entry.name.as_str()), (12, 340, "bob"));
    let entry = read_line("-1,0,A,B,c").unwrap().unwrap();
    assert_eq!((entry.id, entry.offset, entry.name.as_str()), (-1, 0, "a,b,c"));
    let entry = read_line("+7,+8,").unwrap().unwrap();
    assert_eq!((entry.id, entry.offset, entry.name.as_str()), (7, 8, ""));
}

#[test]
fn written_line_is_read_back() {
    for u in [user(12, "Bob", Some(340)), user(i64::MIN, "A,b,C", Some(0)), user(0, "", Some(usize::MAX))] {
        let line = index_line(&u);
        let entry = read_line(line.trim_end_matches('\n')).unwrap().unwrap();
        assert_eq!(entry.id, u.pikabu_id);
        assert_eq!(Some(entry.offset), u.seek);
        assert_eq!(entry.name, u.name.to_lowercase());
    }
}

#[test]
fn read_line_skips_lines_with_fewer_fields() {
    assert!(read_line("").unwrap().is_none());
    assert!(read_line("12").unwrap().is_none());
    assert!(read_line("12,340").unwrap().is_none());
    assert!(read_line("nonsense,here").unwrap().is_none());
}

#[test]
fn read_line_refuses_bad_numbers() {
    assert_eq!(read_line("x,340,Bob").err(), Some(IndexError::BadId));
    assert_eq!(read_line(",340,Bob").err(), Some(IndexError::BadId));
    assert_eq!(read_line("9223372036854775808,1,Bob").err(), Some(IndexError::BadId));
    assert_eq!(read_line("12,,Bob").err(), Some(IndexError::BadOffset));
    assert_eq!(read_line("12,-3,Bob").err(), Some(IndexError::BadOffset));
    assert_eq!(read_line("12,3 ,Bob").err(), Some(IndexError::BadOffset));
    assert_eq!(read_line("x,y,Bob").err(), Some(IndexError::BadId));
}

#[test]
fn loaded_index_answers_without_a_scan() {
    let bytes = container();
    let lines = lines_of(&bytes);
    assert_eq!(lines[1], "-2,28,Carol, the First");
    let mut data = Data::new(bytes, true);
    assert_eq!(load_index(&mut data, &lines), Ok(()));
    assert!(data.cached.is_empty());
    assert_eq!(data.ids.get(&3), Some(&SeekableRef::Seek(28 + 8 + 16 + 1 + 16)));
    let query = vec![vec![
        UserSelector::new("carol, the first").unwrap(),
        UserSelector::new("id:1").unwrap(),
        UserSelector::new("nobody").unwrap(),
    ]];
    let settings = SearchSettings { use_cache: true, limit: 10 };
    let found = find_seek(&mut data, query.clone(), settings).unwrap();
    assert_eq!(found[0].len(), 2);
    assert_eq!(found[0][0].pikabu_id, -2);
    assert_eq!(found[0][0].seek, Some(28));
    assert_eq!(found[0][1].name, "Bob");
    let scanned = find(&mut data, &query, SearchSettings { use_cache: false, limit: 10 }).unwrap();
    assert_eq!(scanned, found);
}

#[test]
fn load_index_replaces_both_indexes() {
    let mut data = Data::new(container(), true);
    let all = CacheConfig { names: true, ids: true, offsets: true, prefer_seek: false };
    data.put_cache(user(9, "old", Some(5)), all);
    let lines = vec!["1,0,Bob".to_string(), "skipped".to_string(), "1,28,BOB".to_string()];
    assert_eq!(load_index(&mut data, &lines), Ok(()));
    assert_eq!(data.names.len(), 1);
    assert_eq!(data.ids.len(), 1);
    assert_eq!(data.by_name("old"), Ok(ReaderValue::Nothing));
    assert_eq!(data.ids.get(&1), Some(&SeekableRef::Seek(28)));
    assert_eq!(data.cached.len(), 1);
    assert_eq!(data.offsets.get(&5), Some(&0));
}

#[test]
fn load_index_changes_nothing_on_a_bad_line() {
    let mut data = Data::new(container(), true);
    let all = CacheConfig { names: true, ids: true, offsets: true, prefer_seek: false };
    data.put_cache(user(9, "old", Some(5)), all);
    let lines = vec!["1,0,Bob".to_string(), "2,,carol".to_string(), "x,1,y".to_string()];
    assert_eq!(load_index(&mut data, &lines), Err(IndexError::BadOffset));
    assert_eq!(data.by_name("old"), Ok(ReaderValue::Cached(0)));
    assert_eq!(data.by_id(1), Ok(ReaderValue::Nothing));
}

#[test]
fn load_fills_cache_and_indexes_to_the_end() {
    let mut data = Data::new(container(), true);
    let cfg = CacheConfig { names: true, ids: true, offsets: true, prefer_seek: false };
    assert_eq!(data.load(cfg), Ok(()));
    assert_eq!(data.cached.len(), 3);
    assert_eq!(data.pos, container().len() - 17);
    assert_eq!(data.by_name("BOB"), Ok(ReaderValue::Cached(0)));
    assert_eq!(data.by_id(3), Ok(ReaderValue::Cached(2)));
    assert_eq!(data.by_offset(28), Ok(ReaderValue::Cached(1)));
    assert_eq!(data.load(cfg), Ok(()));
    assert_eq!(data.cached.len(), 3);
}

#[test]
fn load_keeps_what_stands_before_a_broken_chunk() {
    let mut bytes = container();
    bytes.truncate(40);
    let mut data = Data::new(bytes, false);
    let cfg = CacheConfig { names: true, ids: false, offsets: true, prefer_seek: false };
    assert_eq!(data.load(cfg), Err(FramingError::Truncated));
    assert_eq!(data.cached.len(), 1);
    assert_eq!(data.pos, 28);
    assert_eq!(data.by_name("bob"), Ok(ReaderValue::Cached(0)));
    assert_eq!(data.by_id(1), Ok(ReaderValue::Nothing));
    assert_eq!(data.offsets.len(), 0);
}

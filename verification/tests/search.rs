use pikadots::codec::write_records;
use pikadots::data::{CacheConfig, Data, ReaderValue, SeekableRef, UserInfo};
use pikadots::search::{find, find_seek, offer, Compiled, Plan, SearchError, SearchSettings};
use pikadots::selector::{
    parse_group, parse_query, selector_name, SelectorError, UserSelector,
};
use pikadots::wire::FramingError;
use std::collections::HashMap;
use vstd::hash_map::StringHashMap;

fn user(id: i64, name: &str, comments: &[i64]) -> UserInfo {
    UserInfo { name: name.to_string(), pikabu_id: id, seek: None, comments: comments.to_vec() }
}

fn at(mut u: UserInfo, seek: usize) -> UserInfo {
    u.seek = Some(seek);
    u
}

fn people() -> Vec<UserInfo> {
    vec![
        user(1, "Bob", &[100]),
        user(2, "carol", &[150, 200]),
        user(3, "DAVE", &[]),
        user(4, "bobby", &[7]),
    ]
}

fn offsets() -> Vec<usize> {
    vec![0, 28, 66, 87]
}

fn tagged() -> Vec<UserInfo> {
    people().into_iter().zip(offsets()).map(|(u, o)| at(u, o)).collect()
}

fn container() -> Vec<u8> {
    let mut out = Vec::new();
    write_records(&people(), &mut out).unwrap();
    out
}

fn plain() -> Data {
    Data::new(container(), false)
}

fn seekable() -> Data {
    Data::new(container(), true)
}

fn indexed() -> Data {
    let mut data = seekable();
    let cfg = CacheConfig { names: true, ids: true, offsets: true, prefer_seek: false };
    data.load(cfg).unwrap();
    data.reset();
    data
}

fn sel(text: &str) -> UserSelector {
    UserSelector::new(text).unwrap()
}

fn group(texts: &[&str]) -> Vec<UserSelector> {
    texts.iter().map(|t| sel(t)).collect()
}

fn scan(limit: usize) -> SearchSettings {
    SearchSettings { use_cache: false, limit }
}

fn cached(limit: usize) -> SearchSettings {
    SearchSettings { use_cache: true, limit }
}

fn names(found: &[UserInfo]) -> Vec<&str> {
    found.iter().map(|u| u.name.as_str()).collect()
}

#[test]
fn selector_text_is_parsed_by_prefix() {
    assert_eq!(UserSelector::new("re:^B.b$"), Ok(UserSelector::Regexp("^b.b$".to_string())));
    assert_eq!(UserSelector::new("gl:Bo*"), Ok(UserSelector::Glob("bo*".to_string())));
    assert_eq!(UserSelector::new("id:-12"), Ok(UserSelector::PikabuId(-12)));
    assert_eq!(UserSelector::new("id:+12"), Ok(UserSelector::PikabuId(12)));
    assert_eq!(UserSelector::new("sk:34"), Ok(UserSelector::Seek(34)));
    assert_eq!(UserSelector::new("Bob"), Ok(UserSelector::Name("bob".to_string())));
    assert_eq!(UserSelector::new(""), Ok(UserSelector::Name(String::new())));
    assert_eq!(UserSelector::new("re:"), Ok(UserSelector::Regexp(String::new())));
    assert_eq!(UserSelector::new("RE:x"), Ok(UserSelector::Name("re:x".to_string())));
    assert_eq!(UserSelector::new("id"), Ok(UserSelector::Name("id".to_string())));
    assert_eq!(UserSelector::new("ИД:Ж"), Ok(UserSelector::Name("ид:ж".to_string())));
    assert_eq!(UserSelector::new("gl:Ж*"), Ok(UserSelector::Glob("ж*".to_string())));
}

#[test]
fn selector_with_a_bad_number_is_refused() {
    assert_eq!(UserSelector::new("id:"), Err(SelectorError::BadId));
    assert_eq!(UserSelector::new("id:abc"), Err(SelectorError::BadId));
    assert_eq!(UserSelector::new("id:9223372036854775808"), Err(SelectorError::BadId));
    assert_eq!(UserSelector::new("sk:-1"), Err(SelectorError::BadOffset));
    assert_eq!(UserSelector::new("sk:"), Err(SelectorError::BadOffset));
    assert_eq!(UserSelector::new("sk:18446744073709551616"), Err(SelectorError::BadOffset));
    assert_eq!(UserSelector::new("sk:18446744073709551615"), Ok(UserSelector::Seek(u64::MAX)));
}

#[test]
fn query_text_has_groups_and_selectors() {
    assert_eq!(
        parse_query("Bob+id:2,gl:c*,sk:5+re:x"),
        Ok(vec![group(&["bob", "id:2"]), group(&["gl:c*"]), group(&["sk:5", "re:x"])])
    );
    assert_eq!(parse_query("Bob"), Ok(vec![group(&["bob"])]));
    assert_eq!(parse_query(""), Ok(vec![group(&[""])]));
    assert_eq!(parse_query(","), Ok(vec![group(&[""]), group(&[""])]));
    assert_eq!(parse_query("a++b"), Ok(vec![group(&["a", "", "b"])]));
    assert_eq!(parse_group("id:1+Bob"), Ok(group(&["id:1", "bob"])));
    assert_eq!(parse_group("re:a+"), Ok(group(&["re:a", ""])));
}

#[test]
fn query_text_fails_on_its_first_bad_selector() {
    assert_eq!(parse_query("bob,id:x+sk:y"), Err(SelectorError::BadId));
    assert_eq!(parse_query("sk:-1,id:x"), Err(SelectorError::BadOffset));
    assert_eq!(parse_group("bob+sk:"), Err(SelectorError::BadOffset));
    assert_eq!(parse_query("id:1,2"), Ok(vec![group(&["id:1"]), group(&["2"])]));
}

#[test]
fn selectors_are_shown_with_their_kind() {
    assert_eq!(sel("Bob").human_readable(), "bob");
    assert_eq!(sel("gl:b*").human_readable(), "gl:'b*'");
    assert_eq!(sel("re:^b").human_readable(), "re:'^b'");
    assert_eq!(sel("id:-5").human_readable(), "id:-5");
    assert_eq!(sel("id:0").human_readable(), "id:0");
    assert_eq!(sel("sk:120").human_readable(), "sk:120");
    assert_eq!(UserSelector::PikabuId(i64::MIN).human_readable(), "id:-9223372036854775808");
    assert_eq!(UserSelector::Seek(u64::MAX).human_readable(), "sk:18446744073709551615");
}

#[test]
fn group_name_joins_with_plus() {
    assert_eq!(selector_name(&[]), "<none>");
    assert_eq!(selector_name(&group(&["Bob"])), "bob");
    assert_eq!(selector_name(&group(&["Bob", "id:2", "gl:c*", "re:x", "sk:1"])), "bob+id:2+gl:'c*'+re:'x'+sk:1");
}

#[test]
fn same_compares_kind_and_text() {
    assert!(sel("bob").same(&sel("BOB")));
    assert!(!sel("gl:bob").same(&sel("re:bob")));
    assert!(!sel("gl:bob").same(&sel("bob")));
    assert!(sel("id:1").same(&sel("id:+1")));
    assert!(!sel("id:1").same(&sel("sk:1")));
    assert_eq!(sel("re:a").clone(), sel("re:a"));
}

#[test]
fn plan_holds_each_selector_once() {
    let query = vec![group(&["bob", "id:2", "bob"]), group(&[]), group(&["id:2", "gl:x", "Bob"])];
    let plan = Plan::new(&query);
    assert_eq!(plan.table, group(&["bob", "id:2", "gl:x"]));
    assert_eq!(plan.groups, vec![vec![0, 1, 0], vec![], vec![1, 2, 0]]);
    assert_eq!(Plan::find_slot(&plan.table, &sel("gl:x")), Some(2));
    assert_eq!(Plan::find_slot(&plan.table, &sel("re:x")), None);
}

#[test]
fn compile_reports_the_first_bad_pattern() {
    let raw = group(&["bob", "re:(", "gl:[", "id:1"]);
    assert_eq!(Compiled::compile(&raw).err(), Some(SearchError::BadPattern(sel("re:("))));
    let raw = group(&["gl:[", "re:("]);
    assert_eq!(Compiled::compile(&raw).err(), Some(SearchError::BadPattern(sel("gl:["))));
    assert_eq!(Compiled::compile(&group(&["bob", "re:.", "gl:*", "id:1", "sk:2"])).unwrap().len(), 5);
    assert!(Compiled::one(&sel("re:a{2}")).is_some());
    assert!(Compiled::one(&sel("re:a{")).is_none());
    assert!(Compiled::one(&sel("gl:a[")).is_none());
}

#[test]
fn regex_is_bounded_in_depth_and_size() {
    assert!(Compiled::one(&sel("re:((((a))))")).is_some());
    assert!(Compiled::one(&sel("re:((((((a))))))")).is_none());
    assert!(Compiled::one(&sel("re:(\\pL{100}){1000}")).is_none());
}

#[test]
fn compiled_selectors_test_records() {
    let bob = at(user(1, "Bob", &[]), 40);
    let test = |text: &str, u: &UserInfo| Compiled::one(&sel(text)).unwrap().test(u);
    assert!(test("BOB", &bob));
    assert!(!test("bo", &bob));
    assert!(test("gl:b?b", &bob));
    assert!(test("gl:B*", &bob));
    assert!(!test("gl:b", &bob));
    assert!(test("re:o", &bob));
    assert!(test("re:^BOB$", &bob));
    assert!(!test("re:^o", &bob));
    assert!(test("id:1", &bob));
    assert!(!test("id:2", &bob));
    assert!(test("sk:40", &bob));
    assert!(!test("sk:41", &bob));
    assert!(!test("sk:40", &user(1, "Bob", &[])));
    assert!(Compiled::one(&UserSelector::Name("BOB".to_string())).unwrap().test(&bob));
    assert!(Compiled::one(&sel("gl:*")).unwrap().pattern());
    assert!(Compiled::one(&sel("re:.")).unwrap().pattern());
    assert!(!Compiled::one(&sel("x")).unwrap().pattern());
}

#[test]
fn lookup_is_for_names_and_ids_only() {
    let data = indexed();
    let lookup = |text: &str| Compiled::one(&sel(text)).unwrap().lookup(&data);
    assert_eq!(lookup("CAROL"), Ok(ReaderValue::Cached(1)));
    assert_eq!(lookup("id:4"), Ok(ReaderValue::Cached(3)));
    assert_eq!(lookup("id:9"), Ok(ReaderValue::Nothing));
    assert_eq!(lookup("sk:0"), Err(SearchError::SeekUnavailable));
    assert_eq!(lookup("gl:*"), Err(SearchError::Internal));
    assert_eq!(lookup("re:."), Err(SearchError::Internal));
}

#[test]
fn offer_counts_finds_down() {
    let mut found = vec![Vec::new(), Vec::new()];
    let mut left = 3;
    let bob = user(1, "Bob", &[]);
    assert_eq!(offer(&mut found, &mut left, 1, false, &bob), Ok(()));
    assert_eq!((left, found[1].len()), (3, 0));
    assert_eq!(offer(&mut found, &mut left, 1, true, &bob), Ok(()));
    assert_eq!(offer(&mut found, &mut left, 0, true, &bob), Ok(()));
    assert_eq!(left, 1);
    assert_eq!(found, vec![vec![user(1, "Bob", &[])], vec![user(1, "Bob", &[])]]);
    assert_eq!(offer(&mut found, &mut left, 0, true, &bob), Err(SearchError::LimitExceeded));
    assert_eq!(offer(&mut found, &mut left, 0, false, &bob), Ok(()));
    assert_eq!((left, found[0].len()), (1, 1));
    let mut none = 0;
    assert_eq!(offer(&mut found, &mut none, 0, true, &bob), Err(SearchError::LimitExceeded));
}

#[test]
fn scan_finds_by_name_id_glob_and_regex() {
    let query = vec![
        group(&["BOB"]),
        group(&["id:3"]),
        group(&["gl:bob*"]),
        group(&["re:^.a"]),
        group(&["nobody"]),
        group(&[]),
    ];
    let found = find(&mut plain(), &query, scan(100)).unwrap();
    assert_eq!(found.len(), 6);
    assert_eq!(found[0], vec![user(1, "Bob", &[100])]);
    assert_eq!(found[1], vec![user(3, "DAVE", &[])]);
    assert_eq!(names(&found[2]), vec!["Bob", "bobby"]);
    assert_eq!(names(&found[3]), vec!["carol", "DAVE"]);
    assert!(found[4].is_empty());
    assert!(found[5].is_empty());
}

#[test]
fn group_holds_each_user_once() {
    let query = vec![group(&["id:1", "gl:bob"]), group(&["gl:bob*", "id:4", "bob", "re:b"])];
    let found = find(&mut plain(), &query, scan(100)).unwrap();
    assert_eq!(found[0], vec![user(1, "Bob", &[100])]);
    assert_eq!(names(&found[1]), vec!["Bob", "bobby"]);
}

#[test]
fn group_lists_finds_selector_by_selector() {
    let query = vec![group(&["id:4", "carol", "gl:*b*"])];
    let found = find(&mut plain(), &query, scan(100)).unwrap();
    assert_eq!(names(&found[0]), vec!["bobby", "carol", "Bob"]);
}

#[test]
fn exact_selector_takes_the_first_match_only() {
    let mut bytes = Vec::new();
    let twice = vec![user(1, "Bob", &[1]), user(1, "BOB", &[2]), user(2, "bob", &[3])];
    write_records(&twice, &mut bytes).unwrap();
    let query = vec![group(&["bob"]), group(&["id:1"]), group(&["gl:bob"])];
    let found = find(&mut Data::new(bytes, false), &query, scan(100)).unwrap();
    assert_eq!(found[0], vec![user(1, "Bob", &[1])]);
    assert_eq!(found[1], vec![user(1, "Bob", &[1])]);
    assert_eq!(found[2], vec![user(1, "Bob", &[1]), user(2, "bob", &[3])]);
}

#[test]
fn limit_fails_the_search_instead_of_truncating() {
    let query = vec![group(&["gl:*"])];
    for limit in 0..=4 {
        assert_eq!(find(&mut plain(), &query, scan(limit)), Err(SearchError::LimitExceeded));
    }
    assert_eq!(find(&mut plain(), &query, scan(5)).unwrap()[0].len(), 4);
    let none = vec![group(&["nobody"])];
    assert_eq!(find(&mut plain(), &none, scan(0)), Ok(vec![vec![]]));
}

#[test]
fn limit_counts_a_selector_once_for_all_groups() {
    let query = vec![group(&["bob"]), group(&["bob"]), group(&["bob", "id:1"])];
    assert_eq!(find(&mut plain(), &query, scan(2)), Err(SearchError::LimitExceeded));
    let found = find(&mut plain(), &query, scan(3)).unwrap();
    assert_eq!(found, vec![vec![user(1, "Bob", &[100])]; 3]);
    assert_eq!(find(&mut indexed(), &query, cached(2)), Err(SearchError::LimitExceeded));
    assert_eq!(find(&mut indexed(), &query, cached(3)).unwrap().len(), 3);
}

#[test]
fn bad_pattern_fails_before_anything_is_read() {
    let query = vec![group(&["bob"]), group(&["re:(", "gl:["])];
    let mut data = plain();
    assert_eq!(find(&mut data, &query, scan(100)), Err(SearchError::BadPattern(sel("re:("))));
    assert_eq!(data.pos, 0);
    assert_eq!(find(&mut indexed(), &query, cached(0)), Err(SearchError::BadPattern(sel("re:("))));
}

#[test]
fn scan_stops_early_when_exact_selectors_are_answered() {
    let mut bytes = container();
    bytes.truncate(70);
    let early = vec![group(&["id:2", "bob"])];
    let mut data = Data::new(bytes.clone(), false);
    assert_eq!(names(&find(&mut data, &early, scan(100)).unwrap()[0]), vec!["carol", "Bob"]);
    assert_eq!(data.pos, 66);
    let late = vec![group(&["id:2", "dave"])];
    assert_eq!(
        find(&mut Data::new(bytes.clone(), false), &late, scan(100)),
        Err(SearchError::Framing(FramingError::Truncated))
    );
    let pattern = vec![group(&["gl:bob"])];
    assert_eq!(
        find(&mut Data::new(bytes.clone(), false), &pattern, scan(100)),
        Err(SearchError::Framing(FramingError::Truncated))
    );
    assert_eq!(find(&mut Data::new(bytes.clone(), false), &pattern, scan(1)), Err(SearchError::LimitExceeded));
    assert_eq!(find(&mut Data::new(bytes, false), &[], scan(1)), Ok(vec![]));
}

#[test]
fn scan_starts_at_the_cursor() {
    let mut data = seekable();
    data.read_next().unwrap();
    let query = vec![group(&["bob", "carol"])];
    assert_eq!(find(&mut data, &query, scan(100)).unwrap()[0], vec![at(user(2, "carol", &[150, 200]), 28)]);
}

#[test]
fn strategies_agree_on_exact_selectors() {
    for text in ["bob", "BOB", "carol", "dave", "bobby", "nobody", "id:1", "id:4", "id:5", "id:0"] {
        let query = vec![group(&[text]), group(&["id:2", text])];
        let by_scan = find(&mut indexed(), &query, scan(100));
        let by_index = find(&mut indexed(), &query, cached(100));
        assert_eq!(by_scan, by_index, "{}", text);
        assert!(by_scan.is_ok());
    }
    let found = find(&mut indexed(), &[group(&["Dave", "id:1"])], cached(100)).unwrap();
    assert_eq!(found[0], vec![tagged()[2].clone(), tagged()[0].clone()]);
}

#[test]
fn index_answers_without_reading() {
    let mut data = indexed();
    data.reader.clear();
    let query = vec![group(&["carol", "id:1"])];
    assert_eq!(find(&mut data, &query, cached(100)).unwrap()[0], vec![tagged()[1].clone(), tagged()[0].clone()]);
    assert_eq!(data.pos, 0);
}

#[test]
fn pattern_forces_a_scan_even_with_indexes() {
    let mut data = Data::new(container(), true);
    let mut names = StringHashMap::new();
    names.insert("bob".to_string(), SeekableRef::Seek(28));
    data.fill_cache(names, HashMap::new());
    let exact = vec![group(&["bob"])];
    assert_eq!(names_of(find(&mut data, &exact, cached(100))), vec!["carol"]);
    let mixed = vec![group(&["bob", "gl:zzz"])];
    assert_eq!(names_of(find(&mut data, &mixed, cached(100))), vec!["Bob"]);
}

fn names_of(found: Result<Vec<Vec<UserInfo>>, SearchError>) -> Vec<String> {
    found.unwrap()[0].iter().map(|u| u.name.clone()).collect()
}

#[test]
fn index_with_a_broken_reference_is_a_framing_error() {
    let mut data = Data::new(container(), true);
    let mut ids = HashMap::new();
    ids.insert(1i64, SeekableRef::Seek(130));
    ids.insert(2i64, SeekableRef::Cached(9));
    data.fill_cache(StringHashMap::new(), ids);
    assert!(matches!(find(&mut data, &[group(&["id:1"])], cached(100)), Err(SearchError::Framing(_))));
    assert_eq!(find(&mut data, &[group(&["id:2"])], cached(100)), Ok(vec![vec![]]));
}

#[test]
fn seek_selector_needs_find_seek_when_indexes_answer() {
    let query = vec![group(&["bob", "sk:28"])];
    assert_eq!(find(&mut indexed(), &query, cached(100)), Err(SearchError::SeekUnavailable));
    let found = find(&mut indexed(), &query, scan(100)).unwrap();
    assert_eq!(found[0], vec![tagged()[0].clone(), tagged()[1].clone()]);
    assert_eq!(find(&mut plain(), &query, scan(100)).unwrap()[0], vec![user(1, "Bob", &[100])]);
}

#[test]
fn find_seek_answers_offsets_without_a_scan() {
    let mut data = seekable();
    data.read_next().unwrap();
    let query = vec![group(&["sk:66"]), group(&["sk:28", "sk:0"]), group(&[])];
    let found = find_seek(&mut data, query, scan(100)).unwrap();
    assert_eq!(found[0], vec![tagged()[2].clone()]);
    assert_eq!(found[1], vec![tagged()[1].clone(), tagged()[0].clone()]);
    assert!(found[2].is_empty());
    assert_eq!(data.pos, 0);
}

#[test]
fn find_seek_splices_offsets_behind_the_rest() {
    let query = vec![group(&["sk:66", "bob", "sk:0", "gl:c*"]), group(&["id:3", "sk:66"])];
    let found = find_seek(&mut seekable(), query.clone(), scan(100)).unwrap();
    assert_eq!(names(&found[0]), vec!["Bob", "carol", "DAVE"]);
    assert_eq!(names(&found[1]), vec!["DAVE"]);
    let found = find_seek(&mut indexed(), vec![group(&["sk:66", "bob", "sk:0"])], cached(100)).unwrap();
    assert_eq!(names(&found[0]), vec!["Bob", "DAVE"]);
}

#[test]
fn find_seek_shares_the_limit_with_the_search() {
    let query = vec![group(&["sk:66", "bob"]), group(&["sk:28"])];
    assert_eq!(find_seek(&mut seekable(), query.clone(), scan(3)), Err(SearchError::LimitExceeded));
    assert_eq!(find_seek(&mut seekable(), query.clone(), scan(2)), Err(SearchError::LimitExceeded));
    assert_eq!(find_seek(&mut seekable(), query.clone(), scan(1)), Err(SearchError::LimitExceeded));
    assert!(find_seek(&mut seekable(), query, scan(4)).is_ok());
}

#[test]
fn find_seek_at_a_bad_offset_is_a_framing_error() {
    let mut data = seekable();
    data.read_next().unwrap();
    assert!(matches!(
        find_seek(&mut data, vec![group(&["sk:130"])], scan(100)),
        Err(SearchError::Framing(_))
    ));
    assert_eq!(data.pos, 28);
    assert_eq!(
        find_seek(&mut seekable(), vec![group(&["sk:18446744073709551615"])], scan(100)),
        Err(SearchError::Framing(FramingError::Truncated))
    );
    let end = container().len() - 17;
    let at_end = vec![vec![UserSelector::Seek(end as u64)]];
    assert_eq!(find_seek(&mut seekable(), at_end, scan(1)), Ok(vec![vec![]]));
}

use pikadots::join_sorted;
use pikadots::progress::{from_end, moved, ProgressStyle};
use pikadots::selector::UserSelector;
use pikadots::text::{find_char, push_decimal, push_decimal_signed, read_i64, read_u64, split};

fn lowered(text: &str) -> String {
    match UserSelector::new(text) {
        Ok(UserSelector::Name(name)) => name,
        other => panic!("{:?}", other),
    }
}

#[test]
fn lowercase_is_that_of_std() {
    assert_eq!(lowered("BoB"), "bob");
    assert_eq!(lowered("ЖАННА"), "жанна");
    assert_eq!(lowered(""), "");
    assert_eq!(lowered("ὈΔΥΣΣΕΎΣ"), "ὀδυσσεύς");
}

#[test]
fn signed_numbers_are_read_as_std_reads_them() {
    for text in [
        "0", "7", "-7", "+7", "007", "-0", "+0", "9223372036854775807", "-9223372036854775808",
        "9223372036854775808", "-9223372036854775809", "", "-", "+", "--1", "+-1", "1 ", " 1",
        "1_000", "0x10", "12a", "１２", "99999999999999999999999999", "-00000000000000000000001",
    ] {
        assert_eq!(read_i64(text), text.parse::<i64>().ok(), "{:?}", text);
    }
}

#[test]
fn unsigned_numbers_are_read_as_std_reads_them() {
    for text in [
        "0", "7", "-7", "+7", "007", "-0", "+0", "18446744073709551615", "18446744073709551616",
        "", "-", "+", "++1", "1 ", "12a", "000000000000000000000000018446744073709551615",
        "184467440737095516150",
    ] {
        assert_eq!(read_u64(text), text.parse::<u64>().ok(), "{:?}", text);
    }
}

#[test]
fn numbers_are_written_in_decimal() {
    for n in [0i64, 5, -5, 10, 99, 100, -100, i64::MAX, i64::MIN, 1234567890] {
        let mut out = String::from("x");
        push_decimal_signed(&mut out, n);
        assert_eq!(out, format!("x{}", n));
    }
    for n in [0u64, 9, 10, 11, u64::MAX] {
        let mut out = String::new();
        push_decimal(&mut out, n);
        assert_eq!(out, format!("{}", n));
    }
}

#[test]
fn split_cuts_as_std_does() {
    for text in ["", ",", "a", "a,b", ",a,,b,", "ж,ы,", "a+b,c"] {
        let want: Vec<String> = text.split(',').map(|p| p.to_string()).collect();
        assert_eq!(split(text, ','), want, "{:?}", text);
    }
    assert_eq!(split("a+b,c", '+'), vec!["a".to_string(), "b,c".to_string()]);
}

#[test]
fn find_char_counts_characters() {
    assert_eq!(find_char("жы,я", ',', 0), 2);
    assert_eq!(find_char("жы,я", ',', 3), 4);
    assert_eq!(find_char("", ',', 0), 0);
    assert_eq!(find_char(",,", ',', 1), 1);
}

#[test]
fn join_sorted_merges_and_sorts() {
    assert_eq!(join_sorted(vec![vec![5, 1], vec![], vec![3, 1, -2]]), vec![-2, 1, 1, 3, 5]);
    assert_eq!(join_sorted(vec![]), Vec::<i64>::new());
    assert_eq!(join_sorted(vec![vec![], vec![]]), Vec::<i64>::new());
}

#[test]
fn join_sorted_orders_the_extremes() {
    assert_eq!(
        join_sorted(vec![vec![3, -1, 3, i64::MIN, i64::MAX, 0]]),
        vec![i64::MIN, -1, 0, 3, 3, i64::MAX]
    );
}

#[test]
fn style_goes_by_the_length() {
    assert_eq!(ProgressStyle::for_length(0), ProgressStyle::UnknownBytes);
    assert_eq!(ProgressStyle::for_length(1), ProgressStyle::Bytes);
}

#[test]
fn templates_are_those_of_the_four_styles() {
    assert_eq!(
        ProgressStyle::Bytes.template(),
        "{spinner:.green} [{elapsed_precise}] [{bar:40.cyan/blue}] {bytes}/{total_bytes} ({bytes_per_sec} {eta}) {msg}"
    );
    assert_eq!(
        ProgressStyle::UnknownBytes.template(),
        "{spinner:.green} [{elapsed_precise}] [{bar:40.cyan/blue}] {bytes}/??? ({bytes_per_sec}) {msg}"
    );
    assert_eq!(
        ProgressStyle::UnknownItems.template(),
        "{spinner:.green} [{elapsed_precise}] [{bar:40.cyan/blue}] {pos}/??? ({per_sec}) {msg}"
    );
    assert_eq!(
        ProgressStyle::Items.template(),
        "{spinner:.green} [{elapsed_precise}] [{bar:40.cyan/blue}] {pos:>7}/{len:7} ({per_sec} {eta}) {msg}"
    );
    assert_eq!(ProgressStyle::Bytes.progress_chars(), "#>-");
    assert_eq!(ProgressStyle::UnknownBytes.progress_chars(), "#>-");
    assert_eq!(ProgressStyle::Items.progress_chars(), "##-");
    assert_eq!(ProgressStyle::UnknownItems.progress_chars(), "##-");
}

#[test]
fn bar_never_moves_before_the_start() {
    assert_eq!(moved(10, 5), 15);
    assert_eq!(moved(10, -5), 5);
    assert_eq!(moved(10, -10), 0);
    assert_eq!(moved(10, -11), 0);
    assert_eq!(moved(0, i64::MIN), 0);
    assert_eq!(moved(u64::MAX, 1), u64::MAX);
    assert_eq!(from_end(100, 30), 70);
    assert_eq!(from_end(100, 100), 0);
    assert_eq!(from_end(100, 101), 0);
    assert_eq!(from_end(100, -5), 105);
    assert_eq!(from_end(u64::MAX, -5), u64::MAX);
}

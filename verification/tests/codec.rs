use pikadots::codec::{read_chunk, write_chunk, write_records};
use pikadots::data::UserInfo;
use pikadots::wire::{EncodeError, FramingError};

fn user(id: i64, name: &str, comments: &[i64]) -> UserInfo {
    UserInfo { name: name.to_string(), pikabu_id: id, seek: None, comments: comments.to_vec() }
}

fn end_marker() -> Vec<u8> {
    let mut bytes = vec![0u8; 17];
    bytes[16] = 0x80;
    bytes
}

#[test]
fn chunk_bytes_are_exact() {
    let mut out = Vec::new();
    assert_eq!(write_chunk(&mut out, Some(&user(1, "Bob", &[100]))), Ok(()));
    let mut want = vec![1u8, 0, 0, 0, 0, 0, 0, 0];
    want.extend_from_slice(b"Bob");
    want.push(0);
    want.extend_from_slice(&[100, 0, 0, 0, 0, 0, 0, 0]);
    want.extend_from_slice(&[0, 0, 0, 0, 0, 0, 0, 0x80]);
    assert_eq!(out, want);
}

#[test]
fn negative_numbers_are_twos_complement() {
    let mut out = Vec::new();
    assert_eq!(write_chunk(&mut out, Some(&user(-2, "a", &[-1]))), Ok(()));
    let mut want = vec![0xfeu8, 0xff, 0xff, 0xff, 0xff, 0xff, 0xff, 0xff];
    want.push(b'a');
    want.push(0);
    want.extend_from_slice(&[0xff; 8]);
    want.extend_from_slice(&[0, 0, 0, 0, 0, 0, 0, 0x80]);
    assert_eq!(out, want);
    let (back, next) = read_chunk(&out, 0, None).unwrap();
    assert_eq!(back, Some(user(-2, "a", &[-1])));
    assert_eq!(next, out.len());
}

#[test]
fn end_marker_is_seventeen_bytes() {
    let mut out = vec![7u8];
    assert_eq!(write_chunk(&mut out, None), Ok(()));
    let mut want = vec![7u8];
    want.extend_from_slice(&end_marker());
    assert_eq!(out, want);
}

#[test]
fn end_marker_decodes_to_none() {
    let bytes = end_marker();
    assert_eq!(read_chunk(&bytes, 0, None), Ok((None, 17)));
    assert_eq!(read_chunk(&bytes, 0, Some(0)), Ok((None, 17)));
}

#[test]
fn record_like_end_marker_is_end_marker() {
    let mut out = Vec::new();
    assert_eq!(write_chunk(&mut out, Some(&user(0, "", &[]))), Ok(()));
    assert_eq!(out, end_marker());
    assert_eq!(read_chunk(&out, 0, None), Ok((None, 17)));
}

#[test]
fn near_end_markers_are_records() {
    for u in [user(0, "", &[0]), user(0, "x", &[]), user(5, "", &[])] {
        let mut out = Vec::new();
        assert_eq!(write_chunk(&mut out, Some(&u)), Ok(()));
        let (back, next) = read_chunk(&out, 0, None).unwrap();
        assert_eq!(back, Some(u));
        assert_eq!(next, out.len());
    }
}

#[test]
fn round_trip_keeps_id_name_and_events() {
    let u = user(i64::MAX, "Жанна d'Arc 🦀", &[i64::MAX, 0, -5, i64::MIN + 1, 1_500_000_000]);
    let mut out = vec![1, 2, 3];
    assert_eq!(write_chunk(&mut out, Some(&u)), Ok(()));
    out.extend_from_slice(&[9, 9]);
    let (back, next) = read_chunk(&out, 3, Some(3)).unwrap();
    let back = back.unwrap();
    assert_eq!(back.pikabu_id, u.pikabu_id);
    assert_eq!(back.name, u.name);
    assert_eq!(back.comments, u.comments);
    assert_eq!(back.seek, Some(3));
    assert_eq!(next, out.len() - 2);
}

#[test]
fn name_with_nul_is_refused_before_writing() {
    let mut out = vec![1u8, 2];
    assert_eq!(write_chunk(&mut out, Some(&user(1, "a\0b", &[1]))), Err(EncodeError::NulInName));
    assert_eq!(out, vec![1u8, 2]);
}

#[test]
fn reserved_event_is_refused_before_writing() {
    let mut out = vec![1u8, 2];
    assert_eq!(
        write_chunk(&mut out, Some(&user(1, "ab", &[3, i64::MIN]))),
        Err(EncodeError::ReservedEvent)
    );
    assert_eq!(out, vec![1u8, 2]);
}

#[test]
fn nul_in_name_is_reported_before_reserved_event() {
    let mut out = Vec::new();
    assert_eq!(
        write_chunk(&mut out, Some(&user(1, "\0", &[i64::MIN]))),
        Err(EncodeError::NulInName)
    );
    assert!(out.is_empty());
}

#[test]
fn truncated_input_is_a_framing_error() {
    let mut out = Vec::new();
    write_chunk(&mut out, Some(&user(1, "Bob", &[100, 200]))).unwrap();
    for cut in 0..out.len() {
        assert_eq!(read_chunk(&out[..cut], 0, None), Err(FramingError::Truncated), "cut {}", cut);
    }
    assert!(read_chunk(&out, 0, None).is_ok());
}

#[test]
fn position_past_the_end_is_truncated() {
    let bytes = end_marker();
    assert_eq!(read_chunk(&bytes, 17, None), Err(FramingError::Truncated));
    assert_eq!(read_chunk(&bytes, 18, None), Err(FramingError::Truncated));
    assert_eq!(read_chunk(&bytes, usize::MAX, None), Err(FramingError::Truncated));
}

#[test]
fn name_that_is_not_utf8_is_a_framing_error() {
    let mut bytes = vec![1u8, 0, 0, 0, 0, 0, 0, 0, 0xff, 0xfe, 0];
    bytes.extend_from_slice(&[0, 0, 0, 0, 0, 0, 0, 0x80]);
    assert_eq!(read_chunk(&bytes, 0, None), Err(FramingError::InvalidName));
}

#[test]
fn bad_name_is_reported_before_missing_events() {
    let bytes = vec![1u8, 0, 0, 0, 0, 0, 0, 0, 0xc0, 0];
    assert_eq!(read_chunk(&bytes, 0, None), Err(FramingError::InvalidName));
}

#[test]
fn write_records_ends_with_the_end_marker() {
    let records = vec![user(1, "Bob", &[100]), user(2, "carol", &[150, 200])];
    let mut out = Vec::new();
    assert_eq!(write_records(&records, &mut out), Ok(()));
    let (first, at) = read_chunk(&out, 0, None).unwrap();
    assert_eq!(first, Some(user(1, "Bob", &[100])));
    let (second, at) = read_chunk(&out, at, None).unwrap();
    assert_eq!(second, Some(user(2, "carol", &[150, 200])));
    assert_eq!(read_chunk(&out, at, None), Ok((None, out.len())));
    assert_eq!(&out[at..], &end_marker()[..]);
}

#[test]
fn write_records_writes_nothing_when_one_is_refused() {
    let records = vec![user(1, "Bob", &[100]), user(2, "ca\0rol", &[150]), user(3, "x", &[i64::MIN])];
    let mut out = vec![42u8];
    assert_eq!(write_records(&records, &mut out), Err(EncodeError::NulInName));
    assert_eq!(out, vec![42u8]);
}

#[test]
fn write_records_of_nothing_is_the_end_marker() {
    let mut out = Vec::new();
    assert_eq!(write_records(&[], &mut out), Ok(()));
    assert_eq!(out, end_marker());
}

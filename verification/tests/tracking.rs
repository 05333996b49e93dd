use std::io::{Error, ErrorKind, SeekFrom};

use tracked_reader::tracker::{sub_u64_i64, Tracker, TrackerEntry};

fn failure(kind: ErrorKind) -> Error {
    Error::new(kind, "stream failure")
}

#[test]
fn fresh_tracker_is_empty() {
    let t = Tracker::new();
    assert_eq!(t.pos(), 0);
    assert_eq!(t.sz(), None);
    assert!(t.entries().is_empty());
}

#[test]
fn read_advances_cursor_and_logs_range() {
    let mut t = Tracker::new();
    let got = t.read(Ok(8));
    assert_eq!(got.unwrap(), 8);
    assert_eq!(t.pos(), 8);
    let got = t.read(Ok(5));
    assert_eq!(got.unwrap(), 5);
    assert_eq!(t.pos(), 13);
    assert_eq!(t.entries().len(), 2);
    assert!(matches!(&t.entries()[0], TrackerEntry::Entry(r) if *r == (0..8)));
    assert!(matches!(&t.entries()[1], TrackerEntry::Entry(r) if *r == (8..13)));
}

#[test]
fn failed_read_logs_kind_and_moves_nothing() {
    let mut t = Tracker::new();
    t.read(Ok(4)).unwrap();
    t.seek(SeekFrom::End(-6), Ok(94)).unwrap();
    let got = t.read(Err(failure(ErrorKind::PermissionDenied)));
    let err = got.unwrap_err();
    assert_eq!(err.kind(), ErrorKind::PermissionDenied);
    assert_eq!(err.to_string(), "stream failure");
    assert_eq!(t.pos(), 94);
    assert_eq!(t.sz(), Some(100));
    assert_eq!(t.entries().len(), 2);
    assert!(matches!(&t.entries()[1], TrackerEntry::Error(k) if *k == ErrorKind::PermissionDenied));
}

#[test]
fn logged_kind_is_the_kind_of_the_error() {
    let mut t = Tracker::new();
    let _ = t.read(Err(failure(ErrorKind::NotFound)));
    let _ = t.read(Err(failure(ErrorKind::TimedOut)));
    assert!(matches!(&t.entries()[0], TrackerEntry::Error(k) if *k == ErrorKind::NotFound));
    assert!(matches!(&t.entries()[1], TrackerEntry::Error(k) if *k == ErrorKind::TimedOut));
}

#[test]
fn zero_length_read_logs_empty_range_at_cursor() {
    let mut t = Tracker::new();
    t.seek(SeekFrom::Start(17), Ok(17)).unwrap();
    let got = t.read(Ok(0));
    assert_eq!(got.unwrap(), 0);
    assert_eq!(t.pos(), 17);
    assert_eq!(t.entries().len(), 1);
    assert!(matches!(&t.entries()[0], TrackerEntry::Entry(r) if *r == (17..17)));
}

#[test]
fn seek_sets_cursor_to_returned_position() {
    let mut t = Tracker::new();
    assert_eq!(t.seek(SeekFrom::Start(14), Ok(14)).unwrap(), 14);
    assert_eq!(t.pos(), 14);
    assert_eq!(t.seek(SeekFrom::Current(-2), Ok(12)).unwrap(), 12);
    assert_eq!(t.pos(), 12);
    assert_eq!(t.seek(SeekFrom::Current(30), Ok(42)).unwrap(), 42);
    assert_eq!(t.pos(), 42);
    assert_eq!(t.sz(), None);
    assert!(t.entries().is_empty());
}

#[test]
fn failed_seek_changes_nothing_and_logs_nothing() {
    let mut t = Tracker::new();
    t.read(Ok(3)).unwrap();
    t.seek(SeekFrom::End(0), Ok(50)).unwrap();
    let got = t.seek(SeekFrom::End(-4), Err(failure(ErrorKind::InvalidInput)));
    assert_eq!(got.unwrap_err().kind(), ErrorKind::InvalidInput);
    assert_eq!(t.pos(), 50);
    assert_eq!(t.sz(), Some(50));
    assert_eq!(t.entries().len(), 1);
    let got = t.seek(SeekFrom::Start(9), Err(failure(ErrorKind::Other)));
    assert!(got.is_err());
    assert_eq!(t.pos(), 50);
    assert_eq!(t.entries().len(), 1);
}

#[test]
fn size_is_absent_before_an_end_relative_seek() {
    let mut t = Tracker::new();
    t.read(Ok(10)).unwrap();
    t.seek(SeekFrom::Start(2), Ok(2)).unwrap();
    t.seek(SeekFrom::Current(5), Ok(7)).unwrap();
    let _ = t.seek(SeekFrom::End(-1), Err(failure(ErrorKind::Other)));
    let _ = t.read(Err(failure(ErrorKind::Interrupted)));
    assert_eq!(t.sz(), None);
}

#[test]
fn end_seek_with_negative_offset_gives_size() {
    let mut t = Tracker::new();
    t.seek(SeekFrom::End(-10), Ok(90)).unwrap();
    assert_eq!(t.pos(), 90);
    assert_eq!(t.sz(), Some(100));
}

#[test]
fn end_seek_with_zero_offset_gives_size() {
    let mut t = Tracker::new();
    t.seek(SeekFrom::End(0), Ok(100)).unwrap();
    assert_eq!(t.pos(), 100);
    assert_eq!(t.sz(), Some(100));
}

#[test]
fn end_seek_with_positive_offset_gives_size() {
    let mut t = Tracker::new();
    t.seek(SeekFrom::End(25), Ok(125)).unwrap();
    assert_eq!(t.pos(), 125);
    assert_eq!(t.sz(), Some(100));
}

#[test]
fn end_seek_overwrites_known_size() {
    let mut t = Tracker::new();
    t.seek(SeekFrom::End(-10), Ok(90)).unwrap();
    assert_eq!(t.sz(), Some(100));
    t.seek(SeekFrom::End(-10), Ok(190)).unwrap();
    assert_eq!(t.sz(), Some(200));
    t.seek(SeekFrom::Start(0), Ok(0)).unwrap();
    assert_eq!(t.sz(), Some(200));
}

#[test]
fn end_seek_at_the_limits_of_the_offset() {
    let mut t = Tracker::new();
    t.seek(SeekFrom::End(i64::MIN), Ok(5)).unwrap();
    assert_eq!(t.sz(), Some(9_223_372_036_854_775_813));
    t.seek(SeekFrom::End(i64::MAX), Ok(u64::MAX)).unwrap();
    assert_eq!(t.sz(), Some(9_223_372_036_854_775_808));
    t.seek(SeekFrom::End(-1), Ok(u64::MAX - 1)).unwrap();
    assert_eq!(t.sz(), Some(u64::MAX));
    t.seek(SeekFrom::End(7), Ok(7)).unwrap();
    assert_eq!(t.sz(), Some(0));
}

#[test]
fn entries_can_be_cloned() {
    let mut t = Tracker::new();
    t.read(Ok(6)).unwrap();
    let _ = t.read(Err(failure(ErrorKind::BrokenPipe)));
    let first = t.entries()[0].clone();
    let second = t.entries()[1].clone();
    assert!(matches!(first, TrackerEntry::Entry(r) if r == (0..6)));
    assert!(matches!(second, TrackerEntry::Error(k) if k == ErrorKind::BrokenPipe));
}

#[test]
fn mixed_sign_subtraction_is_exact() {
    assert_eq!(sub_u64_i64(100, 10), 90);
    assert_eq!(sub_u64_i64(100, 0), 100);
    assert_eq!(sub_u64_i64(100, -10), 110);
    assert_eq!(sub_u64_i64(10, 10), 0);
    assert_eq!(sub_u64_i64(0, i64::MIN), 9_223_372_036_854_775_808);
    assert_eq!(sub_u64_i64(u64::MAX, i64::MAX), 9_223_372_036_854_775_808);
    assert_eq!(sub_u64_i64(u64::MAX - 1, -1), u64::MAX);
}

#[test]
fn cursor_follows_the_last_successful_call() {
    let mut t = Tracker::new();
    t.read(Ok(8)).unwrap();
    let _ = t.read(Err(failure(ErrorKind::Other)));
    let _ = t.seek(SeekFrom::Start(1), Err(failure(ErrorKind::Other)));
    assert_eq!(t.pos(), 8);
    t.seek(SeekFrom::Current(12), Ok(20)).unwrap();
    let _ = t.read(Err(failure(ErrorKind::Other)));
    assert_eq!(t.pos(), 20);
    t.read(Ok(3)).unwrap();
    let _ = t.seek(SeekFrom::End(0), Err(failure(ErrorKind::Other)));
    assert_eq!(t.pos(), 23);
    assert_eq!(t.sz(), None);
}

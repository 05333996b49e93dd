use std::io::{Cursor, Error, ErrorKind, Read, Seek, SeekFrom};

use tracked_reader::reader::Reader;
use tracked_reader::tracker::Report;

type Stream = Cursor<Vec<u8>>;

fn wrap(len: usize) -> Reader<Stream> {
    let mut stream = Cursor::new(vec![7u8; len]);
    stream.set_position(3);
    let rewound = stream.rewind();
    Reader::new(stream, rewound).unwrap()
}

fn read(r: &mut Reader<Stream>, buf: &mut [u8]) -> std::io::Result<usize> {
    let got = r.stream_mut().read(buf);
    r.read(got)
}

fn seek(r: &mut Reader<Stream>, from: SeekFrom) -> std::io::Result<u64> {
    let got = r.stream_mut().seek(from);
    r.seek(from, got)
}

#[test]
fn new_reader_has_an_empty_tracker() {
    let r = wrap(20);
    assert_eq!(r.tracker().pos(), 0);
    assert_eq!(r.tracker().sz(), None);
    assert!(r.tracker().entries().is_empty());
}

#[test]
fn failed_rewind_makes_no_reader() {
    let stream = Cursor::new(vec![0u8; 4]);
    let made = Reader::new(stream, Err(Error::new(ErrorKind::Unsupported, "no seeking")));
    let err = made.unwrap_err();
    assert_eq!(err.kind(), ErrorKind::Unsupported);
    assert_eq!(err.to_string(), "no seeking");
}

#[test]
fn reader_keeps_the_stream_it_was_given() {
    let mut r = wrap(5);
    let mut buf = [0u8; 8];
    assert_eq!(read(&mut r, &mut buf).unwrap(), 5);
    assert_eq!(&buf[..5], &[7u8; 5]);
    assert_eq!(r.stream_mut().position(), 5);
    assert_eq!(r.tracker().pos(), 5);
}

#[test]
fn failed_seek_through_the_reader_is_handed_back() {
    let mut r = wrap(10);
    let got = seek(&mut r, SeekFrom::Current(-1));
    assert_eq!(got.unwrap_err().kind(), ErrorKind::InvalidInput);
    assert_eq!(r.tracker().pos(), 0);
    assert_eq!(r.tracker().sz(), None);
    assert!(r.tracker().entries().is_empty());
}

#[test]
fn reading_a_stream_from_start_to_end() {
    let len: u64 = 200;
    let p: u64 = 14;
    let k: usize = 10;
    let mut r = wrap(200);

    let mut buf = [0u8; 8];
    assert_eq!(read(&mut r, &mut buf).unwrap(), 8);
    assert_eq!(r.tracker().pos(), 8);
    let out = Report::<64>::create(r.tracker()).ser();
    assert_eq!(out.io_operations.get(&0), Some(&1));
    assert_eq!(out.io_operations.len(), 1);

    assert_eq!(seek(&mut r, SeekFrom::Start(p)).unwrap(), p);
    assert_eq!(r.tracker().pos(), p);

    let mut buf = [0u8; 2];
    assert_eq!(read(&mut r, &mut buf).unwrap(), 2);
    assert_eq!(r.tracker().pos(), p + 2);

    assert_eq!(seek(&mut r, SeekFrom::Current(-2)).unwrap(), p);
    assert_eq!(r.tracker().pos(), p);
    assert_eq!(r.tracker().sz(), None);

    assert_eq!(seek(&mut r, SeekFrom::End(-10)).unwrap(), len - 10);
    assert_eq!(r.tracker().pos(), len - 10);
    assert_eq!(r.tracker().sz(), Some(len));

    let mut buf = [0u8; 10];
    assert_eq!(read(&mut r, &mut buf).unwrap(), k);
    assert_eq!(r.tracker().pos(), len);
    assert_eq!(r.tracker().pos(), r.tracker().sz().unwrap());

    let mut buf = [0u8; 4];
    assert_eq!(read(&mut r, &mut buf).unwrap(), 0);
    assert_eq!(r.tracker().pos(), len);

    let out = Report::<64>::create(r.tracker()).ser();
    assert_eq!(out.metadata.current_position, len);
    assert_eq!(out.metadata.estimated_size, Some(len));
    let totals: Vec<(u64, u64)> = out.io_operations.iter().map(|(b, n)| (*b, *n)).collect();
    assert_eq!(totals, vec![(0, 2), (128, 1), (192, 2)]);
    assert!(out.io_errors.is_empty());
}

//! The streams of the library, each on values of its own.
use flexible_io::adapters::{cap_min, fill, Take};
use flexible_io::collect::{append_bytes, append_to_string, position};
use flexible_io::cursor::vec_write;
use flexible_io::slices::copy_prefix;
use flexible_io::{
    copy, empty, repeat, sink, stack_copy, AllowStd, BufRead, Cursor, Error, ErrorKind, Read,
    Seek, SeekFrom, Write,
};

/// A source that reports `fault` before every read that it serves.
struct Flaky<'a> {
    data: &'a [u8],
    fault: ErrorKind,
    armed: bool,
    faults: u32,
}

impl<'a> Flaky<'a> {
    fn new(data: &'a [u8], fault: ErrorKind) -> Self {
        Flaky { data, fault, armed: true, faults: 0 }
    }
}

impl Read for Flaky<'_> {
    fn read(&mut self, buf: &mut [u8]) -> Result<usize, Error> {
        if self.armed {
            self.armed = false;
            self.faults += 1;
            return Err(Error::from_kind(self.fault));
        }
        self.armed = true;
        let n = buf.len().min(self.data.len()).min(3);
        buf[..n].copy_from_slice(&self.data[..n]);
        self.data = &self.data[n..];
        Ok(n)
    }
}

impl BufRead for Flaky<'_> {
    fn fill_buf(&mut self) -> Result<&[u8], Error> {
        if self.armed {
            self.armed = false;
            self.faults += 1;
            return Err(Error::from_kind(self.fault));
        }
        self.armed = true;
        Ok(&self.data[..self.data.len().min(3)])
    }

    fn consume(&mut self, amt: usize) {
        self.data = &self.data[amt..];
    }
}

#[test]
fn error_reports_its_kind() {
    let error = Error::from_kind(ErrorKind::WriteZero);
    assert_eq!(error.kind(), ErrorKind::WriteZero);
    assert!(!error.is_interrupted());
    let error = Error::from(ErrorKind::Interrupted);
    assert_eq!(error.kind(), ErrorKind::Interrupted);
    assert!(error.is_interrupted());
    assert!(Error::from_kind_impl(ErrorKind::Interrupted).is_interrupted_impl());
    for kind in [
        ErrorKind::UnexpectedEof,
        ErrorKind::WouldBlock,
        ErrorKind::InvalidData,
        ErrorKind::InvalidInput,
        ErrorKind::Other,
    ] {
        let error: Error = kind.into();
        assert_eq!(error.kind(), kind);
        assert!(!error.is_interrupted());
    }
}

#[test]
fn slice_is_read_from_its_front() {
    let mut source: &[u8] = b"Hello, world!";
    let mut buf = [b'.'; 5];
    assert!(matches!(source.read(&mut buf), Ok(5)));
    assert_eq!(&buf, b"Hello");
    assert_eq!(source, b", world!");

    let mut big = [b'.'; 10];
    assert!(matches!(source.read(&mut big), Ok(8)));
    assert_eq!(&big, b", world!..");
    assert_eq!(source, b"");
    assert!(matches!(source.read(&mut big), Ok(0)));
    assert!(matches!(b"abc".as_slice().read(&mut []), Ok(0)));
}

#[test]
fn slice_lends_itself_as_buffer() {
    let mut source: &[u8] = b"Hello";
    assert_eq!(source.fill_buf().unwrap(), b"Hello");
    source.consume(2);
    assert_eq!(source.fill_buf().unwrap(), b"llo");
    source.consume(3);
    assert_eq!(source.fill_buf().unwrap(), b"");
    source.consume(0);
}

#[test]
fn read_exact_fills_or_fails() {
    let mut source: &[u8] = b"Hello, world!";
    let mut buf = [0u8; 7];
    source.read_exact(&mut buf).unwrap();
    assert_eq!(&buf, b"Hello, ");
    assert_eq!(source, b"world!");

    let error = source.read_exact(&mut buf).unwrap_err();
    assert_eq!(error.kind(), ErrorKind::UnexpectedEof);

    let mut source: &[u8] = b"ab";
    source.read_exact(&mut []).unwrap();
    assert_eq!(source, b"ab");
}

#[test]
fn interruptions_are_read_over() {
    let mut source = Flaky::new(b"Hello, world!", ErrorKind::Interrupted);
    let mut buf = [0u8; 7];
    source.read_exact(&mut buf).unwrap();
    assert_eq!(&buf, b"Hello, ");
    assert!(source.faults >= 3);

    let mut rest = Vec::new();
    assert!(matches!(source.read_to_end(&mut rest), Ok(6)));
    assert_eq!(rest, b"world!");

    let mut source = Flaky::new(b"one\ntwo", ErrorKind::Interrupted);
    let mut line = Vec::new();
    assert!(matches!(source.read_until(b'\n', &mut line), Ok(4)));
    assert_eq!(line, b"one\n");
    let mut text = String::new();
    assert!(matches!(source.read_line(&mut text), Ok(3)));
    assert_eq!(text, "two");

    let mut source = Flaky::new(b"Hello, world!", ErrorKind::Interrupted);
    let mut out = Vec::new();
    assert!(matches!(stack_copy(&mut source, &mut out), Ok(13)));
    assert_eq!(out, b"Hello, world!");
}

#[test]
fn other_errors_are_passed_on() {
    let mut source = Flaky::new(b"Hello, world!", ErrorKind::WouldBlock);
    let mut buf = [0u8; 7];
    let error = source.read_exact(&mut buf).unwrap_err();
    assert_eq!(error.kind(), ErrorKind::WouldBlock);

    let mut source = Flaky::new(b"Hello, world!", ErrorKind::WouldBlock);
    source.armed = false;
    let mut out = b"> ".to_vec();
    let error = source.read_to_end(&mut out).unwrap_err();
    assert_eq!(error.kind(), ErrorKind::WouldBlock);
    assert_eq!(out, b"> Hel");

    let mut source = Flaky::new(b"Hello, world!", ErrorKind::InvalidData);
    source.armed = false;
    let mut out = Vec::new();
    let error = source.read_until(b'!', &mut out).unwrap_err();
    assert_eq!(error.kind(), ErrorKind::InvalidData);
    assert_eq!(out, b"Hel");

    let mut source = Flaky::new(b"Hello, world!", ErrorKind::WouldBlock);
    source.armed = false;
    let mut out = Vec::new();
    let error = stack_copy(&mut source, &mut out).unwrap_err();
    assert_eq!(error.kind(), ErrorKind::WouldBlock);
    assert_eq!(out, b"Hel");

    let mut source = Flaky::new(b"Hello", ErrorKind::WouldBlock);
    source.armed = false;
    let mut text = String::from("> ");
    let error = source.read_to_string(&mut text).unwrap_err();
    assert_eq!(error.kind(), ErrorKind::WouldBlock);
    assert_eq!(text, "> Hel");
}

#[test]
fn read_to_end_reads_all_and_grows_the_buffer() {
    let data: Vec<u8> = (0..1000u32).map(|i| (i % 251) as u8).collect();
    let mut source: &[u8] = &data;
    let mut out = vec![7u8, 8, 9];
    assert!(matches!(source.read_to_end(&mut out), Ok(1000)));
    assert_eq!(out.len(), 1003);
    assert_eq!(&out[..3], &[7, 8, 9]);
    assert_eq!(&out[3..], &data[..]);
    assert_eq!(source, b"");

    let mut out = Vec::with_capacity(100);
    assert!(matches!(flexible_io::collect::read_to_end(&mut &data[..40], &mut out), Ok(40)));
    assert_eq!(out, &data[..40]);

    let mut none = Vec::new();
    assert!(matches!(empty().read_to_end(&mut none), Ok(0)));
    assert!(none.is_empty());
}

#[test]
fn read_to_string_takes_valid_text_only() {
    let mut text = String::from("> ");
    let mut source: &[u8] = "héllo, wörld".as_bytes();
    assert!(matches!(source.read_to_string(&mut text), Ok(14)));
    assert_eq!(text, "> héllo, wörld");

    let mut source: &[u8] = b"Hello, \xfeworld";
    let error = flexible_io::collect::read_to_string(&mut source, &mut text).unwrap_err();
    assert_eq!(error.kind(), ErrorKind::InvalidData);
    assert_eq!(text, "> héllo, wörld");
    assert_eq!(source, b"");
}

#[test]
fn append_to_string_passes_the_outcome_on() {
    let mut text = String::from("a");
    assert!(matches!(append_to_string(&mut text, b"bc", Ok(2)), Ok(2)));
    assert_eq!(text, "abc");

    let error = append_to_string(&mut text, b"\xff", Ok(1)).unwrap_err();
    assert_eq!(error.kind(), ErrorKind::InvalidData);
    assert_eq!(text, "abc");

    let failed = Err(Error::from_kind(ErrorKind::WouldBlock));
    let error = append_to_string(&mut text, b"\xff", failed).unwrap_err();
    assert_eq!(error.kind(), ErrorKind::WouldBlock);
    assert_eq!(text, "abc");

    let failed = Err(Error::from_kind(ErrorKind::WouldBlock));
    let error = append_to_string(&mut text, b"de", failed).unwrap_err();
    assert_eq!(error.kind(), ErrorKind::WouldBlock);
    assert_eq!(text, "abcde");
}

#[test]
fn read_until_stops_behind_the_byte() {
    let mut source: &[u8] = b"one,two,,three";
    let mut out = Vec::new();
    assert!(matches!(source.read_until(b',', &mut out), Ok(4)));
    assert_eq!(out, b"one,");
    assert!(matches!(source.read_until(b',', &mut out), Ok(4)));
    assert_eq!(out, b"one,two,");
    assert!(matches!(source.read_until(b',', &mut out), Ok(1)));
    assert!(matches!(flexible_io::collect::read_until(&mut source, b',', &mut out), Ok(5)));
    assert_eq!(out, b"one,two,,three");
    assert!(matches!(source.read_until(b',', &mut out), Ok(0)));
    assert_eq!(out, b"one,two,,three");
    assert_eq!(position(b"one,two", b','), Some(3));
    assert_eq!(position(b"one,two", b'o'), Some(0));
    assert_eq!(position(b"one,two", b';'), None);
    assert_eq!(position(b"", b';'), None);
}

#[test]
fn read_line_reads_lines() {
    let mut source: &[u8] = "first\nsecond\n\nlast".as_bytes();
    let mut text = String::new();
    assert!(matches!(source.read_line(&mut text), Ok(6)));
    assert_eq!(text, "first\n");
    text.clear();
    assert!(matches!(flexible_io::collect::read_line(&mut source, &mut text), Ok(7)));
    assert_eq!(text, "second\n");
    assert!(matches!(source.read_line(&mut text), Ok(1)));
    assert!(matches!(source.read_line(&mut text), Ok(4)));
    assert_eq!(text, "second\n\nlast");
    assert!(matches!(source.read_line(&mut text), Ok(0)));
}

#[test]
fn cursor_reads_from_its_position() {
    let mut cursor = Cursor::new(b"Hello, world!".to_vec());
    assert_eq!(cursor.position(), 0);
    let mut buf = [0u8; 5];
    assert!(matches!(cursor.read(&mut buf), Ok(5)));
    assert_eq!(&buf, b"Hello");
    assert_eq!(cursor.position(), 5);
    cursor.set_position(7);
    assert_eq!(cursor.fill_buf().unwrap(), b"world!");
    cursor.consume(5);
    assert_eq!(cursor.position(), 12);
    assert!(matches!(cursor.read(&mut buf), Ok(1)));
    assert_eq!(buf[0], b'!');
    assert!(matches!(cursor.read(&mut buf), Ok(0)));
    assert_eq!(cursor.position(), 13);

    cursor.set_position(100);
    assert!(matches!(cursor.read(&mut buf), Ok(0)));
    assert_eq!(cursor.fill_buf().unwrap(), b"");
    assert_eq!(cursor.position(), 100);
    assert_eq!(cursor.get_ref().len(), 13);
    cursor.get_mut().truncate(2);
    assert_eq!(cursor.into_inner(), b"He");
}

#[test]
fn cursor_read_exact_moves_only_on_success() {
    let mut cursor = Cursor::new(&b"Hello, world!"[..]);
    let mut buf = [0u8; 7];
    cursor.read_exact(&mut buf).unwrap();
    assert_eq!(&buf, b"Hello, ");
    assert_eq!(cursor.position(), 7);
    let error = cursor.read_exact(&mut buf).unwrap_err();
    assert_eq!(error.kind(), ErrorKind::UnexpectedEof);
    assert_eq!(cursor.position(), 7);
}

#[test]
fn cursor_seeks() {
    let mut cursor = Cursor::new(&b"Hello, world!"[..]);
    assert!(matches!(cursor.seek(SeekFrom::Start(7)), Ok(7)));
    assert!(matches!(cursor.stream_position(), Ok(7)));
    assert!(matches!(cursor.seek(SeekFrom::Current(-2)), Ok(5)));
    assert!(matches!(cursor.seek(SeekFrom::Current(3)), Ok(8)));
    assert!(matches!(cursor.seek(SeekFrom::End(-13)), Ok(0)));
    assert!(matches!(cursor.seek(SeekFrom::End(0)), Ok(13)));
    assert!(matches!(cursor.seek(SeekFrom::End(5)), Ok(18)));
    assert!(matches!(cursor.seek(SeekFrom::Start(u64::MAX)), Ok(u64::MAX)));
    assert!(matches!(cursor.seek(SeekFrom::Current(0)), Ok(u64::MAX)));
    assert_eq!(cursor.position(), u64::MAX);

    let error = cursor.seek(SeekFrom::Current(1)).unwrap_err();
    assert_eq!(error.kind(), ErrorKind::InvalidInput);
    assert_eq!(cursor.position(), u64::MAX);
    assert!(matches!(cursor.seek(SeekFrom::Current(i64::MIN)), Ok(0x7fff_ffff_ffff_ffff)));

    cursor.set_position(3);
    let error = cursor.seek(SeekFrom::Current(-4)).unwrap_err();
    assert_eq!(error.kind(), ErrorKind::InvalidInput);
    assert_eq!(cursor.position(), 3);
    let error = cursor.seek(SeekFrom::End(-14)).unwrap_err();
    assert_eq!(error.kind(), ErrorKind::InvalidInput);
    assert_eq!(cursor.position(), 3);
    assert!(matches!(cursor.seek(SeekFrom::End(i64::MAX)), Ok(0x8000_0000_0000_000c)));
}

#[test]
fn cursor_over_a_fixed_buffer_never_grows_it() {
    let mut buffer = [b'.'; 8];
    let mut cursor = Cursor::new(&mut buffer[..]);
    assert!(matches!(cursor.write(b"Hello"), Ok(5)));
    assert_eq!(cursor.position(), 5);
    assert!(matches!(cursor.write(b", world!"), Ok(3)));
    assert_eq!(cursor.position(), 8);
    assert!(matches!(cursor.write(b"more"), Ok(0)));
    assert!(matches!(cursor.write(b""), Ok(0)));
    cursor.flush().unwrap();
    assert_eq!(cursor.position(), 8);
    cursor.set_position(20);
    assert!(matches!(cursor.write(b"x"), Ok(0)));
    assert_eq!(cursor.position(), 20);
    cursor.set_position(6);
    let error = cursor.write_all(b"abc").unwrap_err();
    assert_eq!(error.kind(), ErrorKind::WriteZero);
    assert_eq!(cursor.position(), 8);
    assert_eq!(&buffer, b"Hello,ab");
}

#[test]
fn cursor_over_a_vector_grows_it() {
    let mut cursor = Cursor::new(Vec::new());
    assert!(matches!(cursor.write(b""), Ok(0)));
    cursor.write_all(b"Hello, brain!").unwrap();
    assert_eq!(cursor.position(), 13);
    cursor.seek(SeekFrom::Start(7)).unwrap();
    cursor.write_all(b"world").unwrap();
    assert_eq!(cursor.get_ref(), b"Hello, world!");
    cursor.write_all(b"s, all of you").unwrap();
    assert_eq!(cursor.get_ref(), b"Hello, worlds, all of you");
    assert_eq!(cursor.position(), 25);
    cursor.set_position(28);
    cursor.flush().unwrap();
    assert_eq!(cursor.get_ref().len(), 25);
    cursor.write_all(b"!").unwrap();
    assert_eq!(cursor.get_ref(), b"Hello, worlds, all of you\0\0\0!");
    cursor.set_position(u64::MAX);
    assert!(matches!(cursor.write(b"x"), Ok(0)));
    let error = cursor.write_all(b"x").unwrap_err();
    assert_eq!(error.kind(), ErrorKind::WriteZero);

    let mut vec = b"abcdef".to_vec();
    let mut pos = 4;
    assert_eq!(vec_write(&mut pos, &mut vec, b"XYZ"), 3);
    assert_eq!(pos, 7);
    assert_eq!(vec, b"abcdXYZ");
    let mut pos = 1;
    assert_eq!(vec_write(&mut pos, &mut vec, b"--"), 2);
    assert_eq!(vec, b"a--dXYZ");
    let mut pos = 9;
    assert_eq!(vec_write(&mut pos, &mut vec, b""), 0);
    assert_eq!((pos, vec.len()), (9, 7));
}

#[test]
fn vector_and_slice_take_bytes() {
    let mut out = b"ab".to_vec();
    assert!(matches!(out.write(b"cd"), Ok(2)));
    out.write_all(b"ef").unwrap();
    out.flush().unwrap();
    assert_eq!(out, b"abcdef");
    append_bytes(&mut out, b"gh");
    assert_eq!(out, b"abcdefgh");

    let mut buffer = [b'.'; 6];
    {
        let mut window: &mut [u8] = &mut buffer;
        assert!(matches!(window.write(b"Hel"), Ok(3)));
        assert_eq!(window.len(), 3);
        assert_eq!(window, b"...");
        assert!(matches!(window.write(b"lo, world"), Ok(3)));
        assert_eq!(window.len(), 0);
        assert!(matches!(window.write(b"!"), Ok(0)));
        window.flush().unwrap();
        let error = window.write_all(b"!").unwrap_err();
        assert_eq!(error.kind(), ErrorKind::WriteZero);
    }
    assert_eq!(&buffer, b"Hello,");

    let mut dst = [b'.'; 4];
    copy_prefix(&mut dst, b"abcdef", 3);
    assert_eq!(&dst, b"abc.");
    copy_prefix(&mut dst, b"xy", 0);
    assert_eq!(&dst, b"abc.");
    fill(&mut dst, b'z');
    assert_eq!(&dst, b"zzzz");
}

#[test]
fn allowed_streams_act_as_what_they_hold() {
    let mut source = AllowStd(&b"Hello"[..]);
    let mut buf = [0u8; 3];
    assert!(matches!(source.read(&mut buf), Ok(3)));
    assert_eq!(&buf, b"Hel");
    assert_eq!(source.0, b"lo");

    let mut out = AllowStd(Vec::new());
    assert!(matches!(out.write(b"Hello"), Ok(5)));
    out.flush().unwrap();
    assert_eq!(out.0, b"Hello");

    let mut buffer = [b'.'; 4];
    {
        let mut window = AllowStd(&mut buffer[..]);
        assert!(matches!(window.write(b"Hello"), Ok(4)));
        assert!(matches!(window.write(b"Hello"), Ok(0)));
        window.flush().unwrap();
    }
    assert_eq!(&buffer, b"Hell");
}

#[test]
fn the_simplest_streams() {
    let mut buf = [b'.'; 4];
    let mut nothing = empty();
    assert!(matches!(nothing.read(&mut buf), Ok(0)));
    assert_eq!(&buf, b"....");
    assert_eq!(nothing.fill_buf().unwrap(), b"");
    nothing.consume(0);
    assert!(matches!(nothing.seek(SeekFrom::Start(5)), Ok(0)));
    assert!(matches!(nothing.seek(SeekFrom::End(-5)), Ok(0)));
    assert!(matches!(nothing.stream_position(), Ok(0)));
    let error = nothing.read_exact(&mut buf).unwrap_err();
    assert_eq!(error.kind(), ErrorKind::UnexpectedEof);

    let mut endless = repeat(b'x');
    assert!(matches!(endless.read(&mut buf), Ok(4)));
    assert_eq!(&buf, b"xxxx");
    let mut more = [0u8; 600];
    endless.read_exact(&mut more).unwrap();
    assert!(more.iter().all(|b| *b == b'x'));
    assert!(matches!(endless.read(&mut []), Ok(0)));

    let mut hole = sink();
    assert!(matches!(hole.write(b"Hello"), Ok(5)));
    assert!(matches!(hole.write(b""), Ok(0)));
    hole.write_all(&more).unwrap();
    hole.flush().unwrap();
    let mut shared = &hole;
    assert!(matches!(shared.write(b"Hello"), Ok(5)));
    shared.flush().unwrap();
}

#[test]
fn take_cuts_a_reader_off() {
    assert_eq!(cap_min(3, 5), 3);
    assert_eq!(cap_min(5, 3), 3);
    assert_eq!(cap_min(0, 3), 0);
    assert_eq!(cap_min(u64::MAX, 7), 7);
    assert_eq!(cap_min(4, 4), 4);

    let mut take = Take::new(&b"Hello, world!"[..], 5);
    assert_eq!(take.limit(), 5);
    let mut buf = [b'.'; 3];
    assert!(matches!(take.read(&mut buf), Ok(3)));
    assert_eq!(take.limit(), 2);
    assert!(matches!(take.read(&mut buf), Ok(2)));
    assert_eq!(&buf, b"lol");
    assert_eq!(take.limit(), 0);
    assert!(matches!(take.read(&mut buf), Ok(0)));
    assert_eq!(*take.get_ref(), b", world!");
    take.set_limit(2);
    let mut rest = Vec::new();
    assert!(matches!(take.read_to_end(&mut rest), Ok(2)));
    assert_eq!(rest, b", ");
    assert_eq!(take.into_inner(), b"world!");

    let mut take = Take::new(&b"Hi"[..], 10);
    let mut rest = Vec::new();
    assert!(matches!(take.read_to_end(&mut rest), Ok(2)));
    assert_eq!(take.limit(), 8);

    let mut take = Take::new(repeat(b'y'), 600);
    let mut all = Vec::new();
    assert!(matches!(take.read_to_end(&mut all), Ok(600)));
    assert!(all.len() == 600 && all.iter().all(|b| *b == b'y'));

    let mut take = Take::new(&b"one\ntwo"[..], 5);
    assert_eq!(take.fill_buf().unwrap(), b"one\nt");
    take.consume(2);
    assert_eq!(take.limit(), 3);
    assert_eq!(take.fill_buf().unwrap(), b"e\nt");
    let mut line = String::new();
    assert!(matches!(take.read_line(&mut line), Ok(2)));
    assert_eq!(line, "e\n");
    assert!(matches!(take.read_line(&mut line), Ok(1)));
    assert_eq!(take.fill_buf().unwrap(), b"");
    assert_eq!(*take.get_ref(), b"wo");
}

#[test]
fn copy_moves_everything() {
    let data: Vec<u8> = (0..2000u32).map(|i| (i % 253) as u8).collect();
    let mut out = vec![1u8];
    assert!(matches!(stack_copy(&mut &data[..], &mut out), Ok(2000)));
    assert_eq!(&out[1..], &data[..]);

    let mut none = Vec::new();
    assert!(matches!(copy(&mut empty(), &mut none), Ok(0)));
    assert!(none.is_empty());

    let mut cursor = Cursor::new(&data[..]);
    cursor.set_position(1990);
    assert!(matches!(copy(&mut cursor, &mut sink()), Ok(10)));
    assert_eq!(cursor.position(), 2000);

    let mut small = [0u8; 600];
    let mut source: &[u8] = &data;
    let error = stack_copy(&mut source, &mut Cursor::new(&mut small[..])).unwrap_err();
    assert_eq!(error.kind(), ErrorKind::WriteZero);
    assert_eq!(&small[..], &data[..600]);
    assert_eq!(source.len(), 2000 - 1024);
}

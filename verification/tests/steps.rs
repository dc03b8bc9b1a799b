//! What the loops decide after each call, and what follows from it: a stream
//! that only stalls is read and written in full, a stream that fails
//! otherwise fails the loop with its own error, and a stream is where the
//! bytes moved have left it.
use flexible_io::step::{after_fill, after_transfer, Scan, Step};
use flexible_io::{
    stack_copy, BufRead, Cursor, Error, ErrorKind, Read, Reader, Seek, SeekFrom, Write, Writer,
};

/// A source that stalls twice before every read that it serves.
struct Stalling<'a> {
    data: &'a [u8],
    stalls: u32,
    reads: u32,
}

impl<'a> Stalling<'a> {
    fn new(data: &'a [u8]) -> Self {
        Stalling { data, stalls: 2, reads: 0 }
    }
}

impl Read for Stalling<'_> {
    fn read(&mut self, buf: &mut [u8]) -> Result<usize, Error> {
        if self.stalls > 0 {
            self.stalls -= 1;
            return Err(Error::from_kind(ErrorKind::Interrupted));
        }
        self.stalls = 2;
        self.reads += 1;
        let n = buf.len().min(self.data.len()).min(4);
        buf[..n].copy_from_slice(&self.data[..n]);
        self.data = &self.data[n..];
        Ok(n)
    }
}

impl BufRead for Stalling<'_> {
    fn fill_buf(&mut self) -> Result<&[u8], Error> {
        if self.stalls > 0 {
            self.stalls -= 1;
            return Err(Error::from_kind(ErrorKind::Interrupted));
        }
        self.stalls = 2;
        Ok(&self.data[..self.data.len().min(4)])
    }

    fn consume(&mut self, amt: usize) {
        self.data = &self.data[amt..];
    }
}

/// A source that serves one read and then fails with `fault`.
struct Breaking<'a> {
    data: &'a [u8],
    fault: ErrorKind,
    served: bool,
}

impl Read for Breaking<'_> {
    fn read(&mut self, buf: &mut [u8]) -> Result<usize, Error> {
        if self.served {
            return Err(Error::from_kind(self.fault));
        }
        self.served = true;
        let n = buf.len().min(self.data.len()).min(4);
        buf[..n].copy_from_slice(&self.data[..n]);
        self.data = &self.data[n..];
        Ok(n)
    }
}

impl BufRead for Breaking<'_> {
    fn fill_buf(&mut self) -> Result<&[u8], Error> {
        if self.served {
            return Err(Error::from_kind(self.fault));
        }
        Ok(&self.data[..self.data.len().min(4)])
    }

    fn consume(&mut self, amt: usize) {
        self.served = true;
        self.data = &self.data[amt..];
    }
}

/// A sink that stalls once before every write that it takes.
struct StallingSink {
    taken: Vec<u8>,
    stall: bool,
}

impl Write for StallingSink {
    fn write(&mut self, buf: &[u8]) -> Result<usize, Error> {
        if self.stall {
            self.stall = false;
            return Err(Error::from_kind(ErrorKind::Interrupted));
        }
        self.stall = true;
        let n = buf.len().min(5);
        self.taken.extend_from_slice(&buf[..n]);
        Ok(n)
    }

    fn flush(&mut self) -> Result<(), Error> {
        Ok(())
    }
}

#[test]
fn a_count_of_zero_ends_the_loop() {
    assert!(matches!(after_transfer(Ok(0)), Step::Done));
}

#[test]
fn a_count_goes_on_with_that_count() {
    assert!(matches!(after_transfer(Ok(7)), Step::Advance(7)));
    assert!(matches!(after_transfer(Ok(usize::MAX)), Step::Advance(usize::MAX)));
}

#[test]
fn an_interruption_is_tried_again() {
    assert!(matches!(after_transfer(Err(Error::from_kind(ErrorKind::Interrupted))), Step::Retry));
}

#[test]
fn another_error_fails_with_that_error() {
    match after_transfer(Err(Error::from_kind(ErrorKind::WouldBlock))) {
        Step::Fail(error) => assert_eq!(error.kind(), ErrorKind::WouldBlock),
        _ => panic!("the error was not passed on"),
    }
    match after_transfer(Err(Error::from_kind(ErrorKind::Other))) {
        Step::Fail(error) => assert_eq!(error.kind(), ErrorKind::Other),
        _ => panic!("the error was not passed on"),
    }
}

#[test]
fn an_empty_buffer_ends_the_search() {
    let nothing: &[u8] = b"";
    assert!(matches!(after_fill(Ok(nothing), b'\n'), Scan::Done));
}

#[test]
fn a_buffer_with_the_byte_is_taken_up_to_it() {
    let bytes: &[u8] = b"ab\ncd\n";
    match after_fill(Ok(bytes), b'\n') {
        Scan::Take(part, last) => {
            assert_eq!(part, b"ab\n");
            assert!(last);
        },
        _ => panic!("nothing was taken"),
    }
    let ends: &[u8] = b"abc\n";
    match after_fill(Ok(ends), b'\n') {
        Scan::Take(part, last) => {
            assert_eq!(part, b"abc\n");
            assert!(last);
        },
        _ => panic!("nothing was taken"),
    }
}

#[test]
fn a_buffer_without_the_byte_is_taken_whole() {
    let bytes: &[u8] = b"abcd";
    match after_fill(Ok(bytes), b'\n') {
        Scan::Take(part, last) => {
            assert_eq!(part, b"abcd");
            assert!(!last);
        },
        _ => panic!("nothing was taken"),
    }
}

#[test]
fn a_failed_look_is_tried_again_or_fails() {
    assert!(matches!(
        after_fill(Err(Error::from_kind(ErrorKind::Interrupted)), b'\n'),
        Scan::Retry
    ));
    match after_fill(Err(Error::from_kind(ErrorKind::InvalidData)), b'\n') {
        Scan::Fail(error) => assert_eq!(error.kind(), ErrorKind::InvalidData),
        _ => panic!("the error was not passed on"),
    }
}

#[test]
fn a_source_that_only_stalls_is_read_to_its_end() {
    let mut source = Stalling::new(b"Hello, world!");
    let mut all = vec![1u8];
    assert_eq!(source.read_to_end(&mut all).unwrap(), 13);
    assert_eq!(all, b"\x01Hello, world!");
    assert_eq!(source.reads, 5);
}

#[test]
fn a_source_that_only_stalls_fills_a_buffer() {
    let mut source = Stalling::new(b"Hello, world!");
    let mut buf = [0u8; 7];
    source.read_exact(&mut buf).unwrap();
    assert_eq!(&buf, b"Hello, ");
    assert_eq!(source.data, b"world!");
}

#[test]
fn a_source_that_only_stalls_is_read_up_to_a_byte() {
    let mut source = Stalling::new(b"Hello, world!");
    let mut line = Vec::new();
    assert_eq!(source.read_until(b',', &mut line).unwrap(), 6);
    assert_eq!(line, b"Hello,");
    assert_eq!(source.data, b" world!");
}

#[test]
fn a_source_that_only_stalls_is_copied_in_full() {
    let mut source = Stalling::new(b"Hello, world!");
    let mut sink = StallingSink { taken: Vec::new(), stall: true };
    assert_eq!(stack_copy(&mut source, &mut sink).unwrap(), 13);
    assert_eq!(sink.taken, b"Hello, world!");
}

#[test]
fn a_sink_that_only_stalls_takes_all() {
    let mut sink = StallingSink { taken: Vec::new(), stall: true };
    sink.write_all(b"Hello, world!").unwrap();
    assert_eq!(sink.taken, b"Hello, world!");
}

#[test]
fn another_error_of_the_source_ends_the_reading() {
    let mut source = Breaking { data: b"Hello, world!", fault: ErrorKind::WouldBlock, served: false };
    let mut all = Vec::new();
    let error = source.read_to_end(&mut all).unwrap_err();
    assert_eq!(error.kind(), ErrorKind::WouldBlock);
    assert_eq!(all, b"Hell");

    let mut source = Breaking { data: b"Hello, world!", fault: ErrorKind::Other, served: false };
    let mut line = Vec::new();
    let error = source.read_until(b'!', &mut line).unwrap_err();
    assert_eq!(error.kind(), ErrorKind::Other);
    assert_eq!(line, b"Hell");

    let mut source = Breaking { data: b"Hello, world!", fault: ErrorKind::InvalidInput, served: false };
    let mut out = Vec::new();
    let error = stack_copy(&mut source, &mut out).unwrap_err();
    assert_eq!(error.kind(), ErrorKind::InvalidInput);
    assert_eq!(out, b"Hell");
}

#[test]
fn reading_all_leaves_the_stream_at_its_end() {
    let data: &[u8] = b"Hello, world!";
    let mut reader = Reader::new(Cursor::new(data));
    let mut all = Vec::new();
    assert_eq!(reader.as_read_mut().read_to_end(&mut all).unwrap(), 13);
    let mut cursor = reader.into_inner();
    assert_eq!(cursor.position(), 13);
    assert_eq!(*cursor.get_ref(), data);
    assert_eq!(cursor.seek(SeekFrom::Current(-6)).unwrap(), 7);
    let mut rest = Vec::new();
    assert_eq!(cursor.read_to_end(&mut rest).unwrap(), 6);
    assert_eq!(rest, b"world!");
}

#[test]
fn a_box_seeks_from_where_its_reads_have_left_it() {
    let data: &'static [u8] = b"Hello, world!";
    let mut reader = Reader::new(Cursor::new(data));
    reader.set_seek();
    let mut boxed = reader.into_boxed();
    let mut five = [0u8; 5];
    boxed.as_read_mut().read_exact(&mut five).unwrap();
    assert_eq!(&five, b"Hello");
    assert_eq!(boxed.as_seek_mut().unwrap().seek(SeekFrom::Current(-2)).unwrap(), 3);
    let mut rest = Vec::new();
    assert_eq!(boxed.as_read_mut().read_to_end(&mut rest).unwrap(), 10);
    assert_eq!(rest, b"lo, world!");
}

#[test]
fn a_boxed_writer_seeks_from_where_its_writes_have_left_it() {
    let mut writer = Writer::new(Cursor::new(Vec::new()));
    writer.set_seek();
    let mut boxed = writer.into_boxed();
    boxed.as_read_mut().write_all(b"Hello, world!").unwrap();
    assert_eq!(boxed.as_seek_mut().unwrap().stream_position().unwrap(), 13);
    assert_eq!(boxed.as_seek_mut().unwrap().seek(SeekFrom::Start(7)).unwrap(), 7);
    boxed.as_read_mut().write_all(b"friend").unwrap();
    assert_eq!(boxed.as_seek_mut().unwrap().stream_position().unwrap(), 13);
}

#[test]
fn a_writer_boxed_after_a_seek_writes_on_from_there() {
    let mut writer = Writer::new(Cursor::new(Vec::new()));
    writer.set_seek();
    writer.as_write_mut().write_all(b"Hello, world!").unwrap();
    assert_eq!(writer.as_seek_mut().unwrap().seek(SeekFrom::Start(7)).unwrap(), 7);
    let mut boxed = writer.into_boxed();
    assert_eq!(boxed.as_seek_mut().unwrap().stream_position().unwrap(), 7);
    boxed.as_read_mut().write_all(b"friend").unwrap();
    assert_eq!(boxed.as_seek_mut().unwrap().stream_position().unwrap(), 13);
}

#[test]
fn a_borrowed_stream_is_read_and_is_there_again() {
    let data: &[u8] = b"Hello, world!";
    let mut cursor = Cursor::new(data);
    {
        let mut reader = Reader::new(&mut cursor);
        let mut five = [0u8; 5];
        reader.as_read_mut().read_exact(&mut five).unwrap();
        assert_eq!(&five, b"Hello");
    }
    assert_eq!(cursor.position(), 5);

    let mut out: Vec<u8> = Vec::new();
    {
        let mut writer = Writer::new(&mut out);
        writer.as_write_mut().write_all(b"abc").unwrap();
        writer.as_write_mut().flush().unwrap();
    }
    assert_eq!(out, b"abc");
}

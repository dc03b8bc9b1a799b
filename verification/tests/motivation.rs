//! Skipping part of a stream by seeking where the stream can, and by reading
//! where it cannot.
use flexible_io::reader::{ReaderBox, ReaderMut};
use flexible_io::{Cursor, Error, ErrorKind, Read, Reader, Seek, SeekFrom};

#[test]
fn motivating_case() {
    {
        let mut untapped: &[u8] = b"Hello, world!";
        let reader = Reader::new(&mut untapped);
        let mut buffer = vec![];
        let report = read_with_skip(reader, 7, &mut buffer).unwrap();
        assert_eq!(buffer, b"world!");
        assert_eq!(
            report.num_seek, 0,
            "Obvious can't seek, we didn't tell that it can"
        );

        assert!(
            report.num_read >= 3,
            "Seek and read took two reads. We know slices fulfill the whole request if possible. Then a third read zeros to tell the reader that the slice is EOF."
        );
    }

    {
        let mut untapped: &[u8] = b"Hello, world!";
        let tapped = Cursor::new(&mut untapped);
        let mut reader = Reader::new(tapped);
        reader.set_seek();
        let mut buffer = vec![];
        let report = read_with_skip(reader, 7, &mut buffer).unwrap();
        assert_eq!(buffer, b"world!");
        assert_eq!(
            report.num_seek, 1,
            "Offset was resolved via seek, we didn't tell that it can"
        );

        assert!(
            report.num_read >= 2,
            "Read took two reads. We know slices fulfill the whole request if possible. Then a third read zeros to tell the reader that the slice is EOF."
        );
    }
}

#[test]
fn boxed_case() {
    let data: &'static [u8] = b"Hello, world!";
    let read = Reader::new(Cursor::new(data));

    check_boxed(
        read.into_boxed(),
        IoReport {
            num_seek: 0,
            num_read: 3,
        },
    );

    let mut read = Reader::new(Cursor::new(data));
    read.set_seek();

    check_boxed(
        read.into_boxed(),
        IoReport {
            num_seek: 1,
            num_read: 2,
        },
    );
}

fn check_boxed(mut boxed: ReaderBox<'_>, expect: IoReport) {
    let mut buffer = vec![];
    let report = read_with_skip_erased(boxed.as_mut(), 7, &mut buffer).unwrap();
    assert_eq!(buffer, b"world!");
    assert_eq!(report.num_seek, expect.num_seek);
    assert!(report.num_read >= expect.num_read);
}

#[derive(Default)]
pub struct IoReport {
    num_seek: u32,
    num_read: u32,
}

/// Skips `skip` bytes of the stream and reads the rest to its end, by seeking
/// where that has been declared and by reading where not.
pub fn read_with_skip<R>(
    mut file: Reader<R>,
    skip: u64,
    buffer: &mut Vec<u8>,
) -> Result<IoReport, Error> {
    read_with_skip_erased(file.as_mut(), skip, buffer)
}

/// The same on a reader that does not name the type of its stream.
pub fn read_with_skip_erased(
    mut file: ReaderMut<'_>,
    skip: u64,
    buffer: &mut Vec<u8>,
) -> Result<IoReport, Error> {
    let mut report = IoReport::default();

    if let Some(mut seekable) = file.as_seek_mut() {
        let mut skip: u64 = skip;
        while skip > 0 {
            let offset = i64::try_from(skip).unwrap_or(i64::MAX);
            seekable.seek(SeekFrom::Current(skip as i64))?;
            report.num_seek += 1;
            skip -= offset as u64;
        }
    } else {
        let mut skip: u64 = skip;

        let mut buffer = Box::new([0; 1 << 14]);
        while skip > 0 {
            let bound = usize::try_from(skip).unwrap_or(usize::MAX);
            let exact_read = buffer.len().min(bound);
            let actual = file.as_read_mut().read(&mut buffer[..exact_read])?;
            report.num_read += 1;

            if actual == 0 {
                return Err(Error::from(ErrorKind::UnexpectedEof));
            }

            skip -= actual as u64;
        }
    }

    let mut reader = file.as_read_mut();
    let inner = read_to_end(&mut reader, buffer)?;
    report.num_seek += inner.num_seek;
    report.num_read += inner.num_read;

    Ok(report)
}

struct Plug<'a, R>(pub &'a mut R, IoReport);

impl<R: Read> Read for Plug<'_, R> {
    fn read(&mut self, buf: &mut [u8]) -> Result<usize, Error> {
        self.1.num_read += 1;
        self.0.read(buf)
    }
}

// Reads to the end and reports how many reads that took.
fn read_to_end<R: Read>(reader: &mut R, buffer: &mut Vec<u8>) -> Result<IoReport, Error> {
    let mut plug = Plug(reader, IoReport::default());
    plug.read_to_end(buffer)?;
    Ok(plug.1)
}

//! What holds of readers and writers: what is declared stays, what is not
//! declared is absent, and every accessor acts on the stream where it is.
use core::any::TypeId;
use flexible_io::reader::{ReaderBox, ReaderMut};
use flexible_io::writer::{WriterBox, WriterMut};
use flexible_io::{BufRead, Cursor, Read, Reader, Seek, SeekFrom, Write, Writer};

#[test]
fn fresh_reader_offers_nothing() {
    let data: &[u8] = b"Hello, world!";
    let mut reader = Reader::new(Cursor::new(data));
    assert!(reader.as_seek().is_none());
    assert!(reader.as_seek_mut().is_none());
    assert!(reader.as_buf().is_none());
    assert!(reader.as_buf_mut().is_none());
    assert!(reader.as_any().is_none());
    assert!(reader.as_any_mut().is_none());

    {
        let mut view = reader.as_mut();
        assert!(view.as_seek_mut().is_none());
        assert!(view.as_buf_mut().is_none());
        assert!(view.as_any().is_none());
    }

    let mut boxed = reader.into_boxed();
    assert!(boxed.as_seek_mut().is_none());
    assert!(boxed.as_buf_mut().is_none());
    assert!(boxed.as_any().is_none());
    assert!(boxed.as_any_mut().is_none());
}

#[test]
fn fresh_writer_offers_nothing() {
    let mut writer = Writer::new(Cursor::new(vec![0u8; 4]));
    assert!(writer.as_seek().is_none());
    assert!(writer.as_seek_mut().is_none());
    assert!(writer.as_any().is_none());
    assert!(writer.as_any_mut().is_none());

    {
        let mut view = writer.as_mut();
        assert!(view.as_seek_mut().is_none());
        assert!(view.as_any().is_none());
    }

    let mut boxed = writer.into_boxed();
    assert!(boxed.as_seek_mut().is_none());
    assert!(boxed.as_any().is_none());
}

#[test]
fn declared_capabilities_stay() {
    let data: &[u8] = b"Hello, world!";
    let mut reader = Reader::new(Cursor::new(data));
    reader.set_seek();
    reader.set_buf();
    reader.set_any();

    let mut some = [0u8; 3];
    reader.as_read_mut().read_exact(&mut some).unwrap();
    assert!(reader.as_seek_mut().is_some());
    assert!(reader.as_buf_mut().is_some());
    assert!(reader.as_any().is_some());

    reader.get_mut().set_position(1);
    assert!(reader.as_seek().is_some());
    assert!(reader.as_buf().is_some());

    {
        let mut view = reader.as_mut();
        view.as_read_mut().read_exact(&mut some).unwrap();
        view.as_seek_mut().unwrap().seek(SeekFrom::Start(0)).unwrap();
        assert!(view.as_seek_mut().is_some());
        assert!(view.as_buf_mut().is_some());
        assert!(view.as_any_mut().is_some());
    }
    assert!(reader.as_seek_mut().is_some());

    let mut boxed = reader.into_boxed();
    let mut all = Vec::new();
    boxed.as_read_mut().read_to_end(&mut all).unwrap();
    assert_eq!(all, data);
    assert!(boxed.as_seek_mut().is_some());
    assert!(boxed.as_buf_mut().is_some());
    assert!(boxed.as_any().is_some());

    let mut view = boxed.as_mut();
    assert!(view.as_seek_mut().is_some());
    assert!(view.as_buf_mut().is_some());
    assert!(view.as_any().is_some());
}

#[test]
fn declaring_twice_changes_nothing() {
    let data: &[u8] = b"Hello, world!";
    let mut reader = Reader::new(Cursor::new(data));
    reader.set_seek();
    reader.as_seek_mut().unwrap().seek(SeekFrom::Start(7)).unwrap();
    reader.set_seek();
    assert!(matches!(reader.as_seek_mut().unwrap().stream_position(), Ok(7)));
    let id = {
        reader.set_any();
        reader.as_any()
    };
    reader.set_any();
    assert_eq!(reader.as_any(), id);
}

#[test]
fn seek_before_boxing_is_seen_after() {
    let data: &[u8] = b"Hello, world!";
    let mut reader = Reader::new(Cursor::new(data));
    reader.set_seek();
    assert!(matches!(
        reader.as_seek_mut().unwrap().seek(SeekFrom::Start(7)),
        Ok(7)
    ));

    let mut boxed = reader.into_boxed();
    assert!(matches!(boxed.as_seek_mut().unwrap().stream_position(), Ok(7)));
    let mut rest = Vec::new();
    assert!(matches!(boxed.as_read_mut().read_to_end(&mut rest), Ok(6)));
    assert_eq!(rest, b"world!");
    assert!(matches!(
        boxed.as_seek_mut().unwrap().seek(SeekFrom::Current(-6)),
        Ok(7)
    ));
}

#[test]
fn seek_before_boxing_a_writer_is_seen_after() {
    let mut writer = Writer::new(Cursor::new(b"Hello, brain!".to_vec()));
    writer.set_seek();
    writer.as_seek_mut().unwrap().seek(SeekFrom::Start(7)).unwrap();

    let mut boxed = writer.into_boxed();
    assert!(matches!(boxed.as_seek_mut().unwrap().stream_position(), Ok(7)));
    boxed.as_read_mut().write_all(b"world!").unwrap();
    assert!(matches!(boxed.as_seek_mut().unwrap().stream_position(), Ok(13)));
}

#[test]
fn unwrapping_gives_the_stream_as_the_accessors_left_it() {
    let data: &[u8] = b"Hello, world!";
    let reader = Reader::new(Cursor::new(data));
    let same = reader.into_inner();
    assert_eq!(same, Cursor::new(data));

    let mut reader = Reader::new(Cursor::new(data));
    reader.set_seek();
    reader.set_buf();
    reader.as_seek_mut().unwrap().seek(SeekFrom::Start(7)).unwrap();
    let mut byte = [0u8; 1];
    reader.as_read_mut().read_exact(&mut byte).unwrap();
    assert_eq!(&byte, b"w");
    reader.as_buf_mut().unwrap().consume(2);
    {
        let mut view = reader.as_mut();
        view.as_read_mut().read_exact(&mut byte).unwrap();
        assert_eq!(&byte, b"l");
    }
    assert_eq!(reader.get_ref().position(), 11);
    let stream = reader.into_inner();
    assert_eq!(stream.position(), 11);
    assert_eq!(*stream.get_ref(), data);

    let mut writer = Writer::new(Cursor::new(Vec::new()));
    writer.as_write_mut().write_all(b"Hello").unwrap();
    writer.get_mut().get_mut().push(b'!');
    let stream = writer.into_inner();
    assert_eq!(stream.position(), 5);
    assert_eq!(stream.into_inner(), b"Hello!");
}

#[test]
fn writer_over_a_fixed_buffer_fixes_its_mistake() {
    let mut buffer = [0u8; 13];
    {
        let mut writer = Writer::new(Cursor::new(&mut buffer[..]));
        assert!(writer.as_seek().is_none());
        writer.as_write_mut().write_all(b"Hello, brain!").unwrap();

        writer.set_seek();
        assert!(writer.as_seek().is_some());
        let mut seek = writer.as_seek_mut().unwrap();
        assert!(matches!(seek.seek(SeekFrom::Start(7)), Ok(7)));

        writer.as_write_mut().write_all(b"world!").unwrap();
        assert_eq!(writer.get_ref().position(), 13);
    }
    assert_eq!(&buffer, b"Hello, world!");
}

#[test]
fn writer_over_a_vector_fixes_its_mistake() {
    let mut buffer: Vec<u8> = vec![];
    let cursor = Cursor::new(&mut buffer);
    let mut writer = Writer::new(cursor);
    assert!(writer.as_seek().is_none());

    writer.as_write_mut().write_all(b"Hello, brain!").unwrap();

    writer.set_seek();
    assert!(writer.as_seek().is_some());

    let mut seek = writer.as_seek_mut().unwrap();
    seek.seek(SeekFrom::Start(7)).unwrap();

    writer.as_write_mut().write_all(b"world!").unwrap();

    let contents: &Vec<u8> = writer.get_ref().get_ref();
    assert_eq!(contents, b"Hello, world!");
}

#[test]
fn buffered_reading_through_a_reader() {
    let buffer: &[u8] = b"Hello, world!";
    let mut reader = Reader::new(buffer);
    assert!(reader.as_buf().is_none());

    reader.set_buf();
    assert!(reader.as_buf().is_some());

    let mut buffered = reader.as_buf_mut().unwrap();
    buffered.consume(7);
    assert_eq!(buffered.fill_buf().unwrap(), b"world!");

    let mut boxed = reader.into_boxed();
    let mut buffered = boxed.as_buf_mut().unwrap();
    assert_eq!(buffered.fill_buf().unwrap(), b"world!");
    buffered.consume(5);
    let mut line = Vec::new();
    assert!(matches!(buffered.read_until(b'\n', &mut line), Ok(1)));
    assert_eq!(line, b"!");
    assert!(matches!(boxed.as_read_mut().read(&mut [0u8; 4]), Ok(0)));
}

#[test]
fn type_is_told_apart() {
    let mut reader = Reader::new(Cursor::new(b"abc".to_vec()));
    reader.set_any();
    assert_eq!(reader.as_any(), Some(TypeId::of::<Cursor<Vec<u8>>>()));
    assert_ne!(reader.as_any(), Some(TypeId::of::<Vec<u8>>()));
    let boxed = reader.into_boxed();
    assert_eq!(boxed.as_any(), Some(TypeId::of::<Cursor<Vec<u8>>>()));

    let mut writer = Writer::new(Vec::<u8>::new());
    writer.set_any();
    assert_eq!(writer.as_any_mut(), Some(TypeId::of::<Vec<u8>>()));
    let mut boxed = writer.into_boxed();
    assert_eq!(boxed.as_mut().as_any(), Some(TypeId::of::<Vec<u8>>()));
}

#[test]
fn conversions_make_the_erased_forms() {
    let data: &[u8] = b"Hello, world!";
    let mut reader = Reader::new(Cursor::new(data));
    reader.set_seek();
    {
        let mut view = ReaderMut::from(&mut reader);
        assert!(view.as_seek_mut().is_some());
    }
    let mut boxed = ReaderBox::from(reader);
    assert!(boxed.as_seek_mut().is_some());
    let mut view: ReaderMut<'_> = (&mut boxed).into();
    let mut all = Vec::new();
    view.as_read_mut().read_to_end(&mut all).unwrap();
    assert_eq!(all, data);

    let mut writer = Writer::new(Vec::<u8>::new());
    {
        let mut view = WriterMut::from(&mut writer);
        view.as_write_mut().write_all(b"ab").unwrap();
    }
    let mut boxed = WriterBox::from(writer);
    let mut view = WriterMut::from(&mut boxed);
    assert!(view.as_seek_mut().is_none());
    view.as_write_mut().write_all(b"cd").unwrap();
    view.as_write_mut().flush().unwrap();
}

#[test]
fn accessors_read_and_write_in_full() {
    let text: &[u8] = "one\ntwo\nthrée".as_bytes();
    let mut reader = Reader::new(Cursor::new(text));
    reader.set_buf();
    let mut line = String::new();
    assert!(matches!(reader.as_buf_mut().unwrap().read_line(&mut line), Ok(4)));
    assert_eq!(line, "one\n");
    let mut bytes = Vec::new();
    assert!(matches!(reader.as_buf_mut().unwrap().read_until(b'w', &mut bytes), Ok(2)));
    assert_eq!(bytes, b"tw");
    let mut two = [0u8; 2];
    reader.as_buf_mut().unwrap().read_exact(&mut two).unwrap();
    assert_eq!(&two, b"o\n");
    assert_eq!(reader.get_ref().position(), 8);
    let mut rest = String::new();
    assert!(matches!(reader.as_read_mut().read_to_string(&mut rest), Ok(6)));
    assert_eq!(rest, "thrée");
    assert_eq!(reader.get_ref().position(), 14);

    let mut reader = Reader::new(text);
    reader.set_buf();
    let mut boxed = reader.into_boxed();
    let mut line = String::new();
    assert!(matches!(boxed.as_buf_mut().unwrap().read_line(&mut line), Ok(4)));
    assert!(matches!(boxed.as_read_mut().read_exact(&mut two), Ok(())));
    assert_eq!(&two, b"tw");
    assert!(matches!(boxed.as_buf_mut().unwrap().read_until(b'\n', &mut bytes), Ok(2)));
    assert_eq!(bytes, b"two\n");
    let mut end = Vec::new();
    assert!(matches!(boxed.as_buf_mut().unwrap().read_to_end(&mut end), Ok(6)));
    assert_eq!(end, "thrée".as_bytes());
    let mut none = String::new();
    assert!(matches!(boxed.as_read_mut().read_to_string(&mut none), Ok(0)));
    assert!(matches!(boxed.as_buf_mut().unwrap().read_to_string(&mut none), Ok(0)));
    let error = boxed.as_read_mut().read_exact(&mut two).unwrap_err();
    assert_eq!(error.kind(), flexible_io::ErrorKind::UnexpectedEof);

    let bad: &[u8] = b"\xff\n";
    let mut reader = Reader::new(bad);
    reader.set_buf();
    let error = reader.as_buf_mut().unwrap().read_line(&mut none).unwrap_err();
    assert_eq!(error.kind(), flexible_io::ErrorKind::InvalidData);
    assert_eq!(none, "");

    let mut buffer = [b'.'; 6];
    {
        let mut writer = Writer::new(Cursor::new(&mut buffer[..]));
        writer.as_write_mut().write_all(b"abcd").unwrap();
        let error = writer.as_write_mut().write_all(b"efgh").unwrap_err();
        assert_eq!(error.kind(), flexible_io::ErrorKind::WriteZero);
        let mut boxed = writer.into_boxed();
        let error = boxed.as_read_mut().write_all(b"i").unwrap_err();
        assert_eq!(error.kind(), flexible_io::ErrorKind::WriteZero);
        boxed.as_read_mut().write_all(b"").unwrap();
    }
    assert_eq!(&buffer, b"abcdef");
}

#[test]
fn seek_through_an_accessor_leaves_the_bytes() {
    let mut reader = Reader::new(Cursor::new(b"Hello, world!".to_vec()));
    reader.set_seek();
    reader.as_seek_mut().unwrap().seek(SeekFrom::Start(7)).unwrap();
    let cursor = reader.into_inner();
    assert_eq!(cursor.position(), 7);
    assert_eq!(cursor.get_ref(), b"Hello, world!");

    let mut buffer: Vec<u8> = vec![];
    let mut writer = Writer::new(Cursor::new(&mut buffer));
    writer.as_write_mut().write_all(b"Hello, brain!").unwrap();
    writer.set_seek();
    assert!(matches!(writer.as_seek_mut().unwrap().seek(SeekFrom::Start(7)), Ok(7)));
    assert_eq!(writer.get_ref().position(), 7);
    assert_eq!(*writer.get_ref().get_ref(), b"Hello, brain!");
}

#[test]
fn writes_through_handle_and_view_are_all_there() {
    let mut writer = Writer::new(Vec::<u8>::new());
    writer.as_write_mut().write_all(b"Hello").unwrap();
    writer.as_mut().as_write_mut().write_all(b", world!").unwrap();
    assert_eq!(writer.into_inner(), b"Hello, world!".to_vec());

    let data: &[u8] = b"Hello, world!";
    let mut reader = Reader::new(data);
    let mut skip = [0u8; 7];
    assert!(matches!(reader.as_mut().as_read_mut().read(&mut skip), Ok(7)));
    assert_eq!(&skip, b"Hello, ");
    assert_eq!(reader.into_inner(), b"world!");

    let mut boxed = Reader::new(data).into_boxed();
    assert!(matches!(boxed.as_read_mut().read(&mut skip), Ok(7)));
    let mut out = vec![];
    assert!(matches!(boxed.as_read_mut().read_to_end(&mut out), Ok(6)));
    assert_eq!(out, b"world!");
}

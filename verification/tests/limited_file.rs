use std::io::{self, Cursor, Read, Seek, Write};

use gix_motor::bounded::ErrorKind;
use gix_motor::complete::Target;
use gix_motor::limited_file::LimitedFile;

/// Reads and writes a limited file in memory.
struct File(LimitedFile<Cursor<Vec<u8>>>);

fn error(kind: ErrorKind) -> io::Error {
    io::Error::from(match kind {
        ErrorKind::InvalidData => io::ErrorKind::InvalidData,
        _ => io::ErrorKind::Other,
    })
}

impl Read for File {
    fn read(&mut self, buf: &mut [u8]) -> io::Result<usize> {
        let read = self.0.inner_mut().read(buf)?;
        self.0.advance(read).map_err(error)
    }
}

impl Write for File {
    fn write(&mut self, buf: &[u8]) -> io::Result<usize> {
        if !self.0.begin_write(buf.len()).map_err(error)? {
            return Ok(0);
        }
        let written = self.0.inner_mut().write(buf)?;
        self.0.advance(written).map_err(error)
    }

    fn flush(&mut self) -> io::Result<()> {
        Ok(())
    }
}

impl Seek for File {
    fn seek(&mut self, pos: io::SeekFrom) -> io::Result<u64> {
        let position = self.0.inner_mut().seek(pos)?;
        self.0.sought(position);
        Ok(position)
    }
}

#[test]
fn writes_respect_extent_and_track_seek_and_read_positions() -> io::Result<()> {
    let mut file = File(LimitedFile::new(Cursor::new(Vec::new()), Some(4)));
    file.write_all(b"abcd")?;
    assert_eq!(file.write(&[])?, 0, "empty writes remain no-ops at the limit");
    let error = file.write(b"e").expect_err("growth past the extent is rejected");
    assert_eq!(error.kind(), io::ErrorKind::InvalidData);
    assert_eq!(file.0.inner_mut().get_ref(), b"abcd", "rejection happens before writing");

    file.seek(io::SeekFrom::Start(1))?;
    file.write_all(b"Z")?;
    file.rewind()?;
    let mut prefix = [0; 2];
    file.read_exact(&mut prefix)?;
    assert_eq!(&prefix, b"aZ");
    file.write_all(b"XY")?;
    assert_eq!(
        file.0.inner_mut().get_ref(),
        b"aZXY",
        "writes follow the position updated by reads"
    );

    let mut file = File(LimitedFile::new(Cursor::new(Vec::new()), Some(31)));
    file.write_all(b"PACK\0\0\0\x02\0\0\0\0")?;
    let error = file
        .write_all(&[0u8; 20])
        .expect_err("the empty pack trailer crosses the tiny extent");
    assert_eq!(error.kind(), io::ErrorKind::InvalidData);
    Ok(())
}

#[test]
fn the_limit_depends_on_the_system() {
    let mut file = LimitedFile::for_target((), Target::Motor);
    file.sought(128 * 1024 * 1024 - 3);
    assert_eq!(file.begin_write(3), Ok(true));
    assert_eq!(file.begin_write(4), Err(ErrorKind::InvalidData));
    let mut file = LimitedFile::for_target((), Target::Other);
    file.sought(1 << 40);
    assert_eq!(file.begin_write(4), Ok(true));
    file.into_inner();
}

#[test]
fn positions_do_not_overflow() {
    let mut file = LimitedFile::new(String::from("inner"), None);
    file.sought(u64::MAX - 2);
    assert_eq!(file.next_position(2), Ok(u64::MAX));
    assert_eq!(file.next_position(3), Err(ErrorKind::Other));
    assert_eq!(file.begin_write(3), Err(ErrorKind::Other));
    assert_eq!(file.advance(3), Err(ErrorKind::Other));
    assert_eq!(file.advance(2), Ok(2));
    assert_eq!(file.next_position(0), Ok(u64::MAX));
    assert_eq!(file.into_inner(), "inner");
}

#[test]
fn no_sequence_of_operations_extends_a_file_beyond_its_limit() -> io::Result<()> {
    let mut file = File(LimitedFile::new(Cursor::new(Vec::new()), Some(8)));
    file.write_all(b"12345678")?;
    for (to, len, accepted) in [(0, 8, true), (1, 8, false), (8, 1, false), (20, 1, false), (7, 1, true)] {
        file.seek(io::SeekFrom::Start(to))?;
        let mut byte = [0];
        assert_eq!(file.read(&mut byte)?, usize::from(to < 8));
        file.seek(io::SeekFrom::Start(to))?;
        assert_eq!(file.write_all(&vec![b'x'; len]).is_ok(), accepted);
        let position = file.0.inner_mut().position();
        assert_eq!(file.0.next_position(0), Ok(position), "the kept place is that of the store");
        assert_eq!(file.0.inner_mut().get_ref().len(), 8);
    }
    Ok(())
}

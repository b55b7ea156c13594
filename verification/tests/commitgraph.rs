use gix_motor::bounded::ErrorKind;
use gix_motor::commitgraph::{Reader, MAX_CHAIN_BYTES};

fn file(content: &[u8]) -> impl FnOnce(usize) -> Result<Vec<u8>, ErrorKind> + '_ {
    move |limit: usize| Ok(content.iter().copied().take(limit.saturating_add(1)).collect())
}

#[test]
fn reader_enforces_retained_byte_and_file_limits() -> Result<(), ErrorKind> {
    let content = vec![7u8; 10_240];
    let file_len = content.len();
    let total_len = file_len.checked_mul(2).expect("fixture total fits in memory");

    let mut reader = Reader::new(file_len, total_len, 3);
    let retained = [reader.read(file(&content))?, reader.read(file(&content))?];
    assert_eq!(retained.iter().map(Vec::len).sum::<usize>(), total_len);
    assert_eq!(
        reader.read(file(&content)).expect_err("aggregate byte limit is exhausted"),
        ErrorKind::InvalidData
    );

    let mut reader = Reader::new(file_len, total_len, 1);
    let _retained = reader.read(file(&content))?;
    assert_eq!(
        reader.read(file(&content)).expect_err("file count is exhausted"),
        ErrorKind::InvalidData
    );
    Ok(())
}

#[test]
fn a_file_above_the_file_limit_does_not_count() -> Result<(), ErrorKind> {
    let mut reader = Reader::new(4, 100, 1);
    assert_eq!(reader.read(file(b"12345")).expect_err("too long"), ErrorKind::InvalidData);
    assert_eq!(reader.read(|_| Err(ErrorKind::Other)).expect_err("failing"), ErrorKind::Other);
    assert_eq!(reader.read(file(b"1234"))?, b"1234");
    Ok(())
}

#[test]
fn an_exhausted_reader_does_not_read() {
    let mut reader = Reader::new(4, 100, 0);
    let result = reader.read(|_| panic!("nothing is read"));
    assert_eq!(result.expect_err("no files are left"), ErrorKind::InvalidData);
}

#[test]
fn the_allowance_for_a_file_shrinks_with_what_is_left() -> Result<(), ErrorKind> {
    let mut reader = Reader::new(5, 8, 9);
    let ask = |limit: usize| Ok(vec![0; limit]);
    assert_eq!(reader.read(ask)?.len(), 5);
    assert_eq!(reader.read(ask)?.len(), 3);
    assert_eq!(reader.read(ask)?.len(), 0);
    Ok(())
}

#[test]
fn graphs_and_single_files_have_fixed_limits() {
    let ask = |limit: usize| Ok(vec![0; limit]);
    let mut reader = Reader::for_graph();
    assert_eq!(reader.read(ask).expect("first file").len(), 16 * 1024 * 1024);
    assert_eq!(reader.read(ask).expect("second file").len(), 16 * 1024 * 1024);
    for _ in 2..256 {
        assert_eq!(reader.read(ask).expect("no bytes are left").len(), 0);
    }
    assert_eq!(reader.read(ask).expect_err("no files are left"), ErrorKind::InvalidData);

    let mut reader = Reader::for_file();
    assert_eq!(reader.read(ask).expect("the file").len(), 16 * 1024 * 1024);
    assert_eq!(reader.read(ask).expect_err("no files are left"), ErrorKind::InvalidData);
    assert_eq!(MAX_CHAIN_BYTES, 32 * 1024);
}

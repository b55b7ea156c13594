use gix_motor::bounded::{read_to_end_bounded, ErrorKind};

#[test]
fn bounded_file_reads_enforce_the_supplied_ceiling() -> Result<(), ErrorKind> {
    let expected = b"[package]\nname = \"sample\"\n".to_vec();
    let read = |limit: usize| {
        let bytes: Vec<u8> = expected.iter().copied().take(limit.saturating_add(1)).collect();
        Ok(bytes)
    };

    for limit in [expected.len(), expected.len() + 1] {
        let actual = read_to_end_bounded(limit, read)?;
        assert_eq!(actual, expected);
    }

    let error = read_to_end_bounded(expected.len() - 1, read)
        .expect_err("a regular file above the caller's limit must be rejected");
    assert_eq!(error, ErrorKind::InvalidData);
    Ok(())
}

#[test]
fn a_failure_to_read_is_passed_on() {
    assert_eq!(
        read_to_end_bounded(8, |_| Err(ErrorKind::InvalidInput)),
        Err(ErrorKind::InvalidInput)
    );
}

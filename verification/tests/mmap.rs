use std::ops::Deref;

use gix_motor::bounded::ErrorKind;
use gix_motor::mmap::{set_aside, check_file, keep, read_with_limits, Budget, MMap};

fn read(contents: Vec<u8>, len: usize, file_limit: usize, budget: &mut Budget) -> Result<MMap, ErrorKind> {
    read_with_limits(
        |mut buffer: Vec<u8>, len: usize| {
            buffer.extend(contents.iter().copied().take(len + 1));
            Ok(buffer)
        },
        len,
        file_limit,
        budget,
    )
}

#[test]
fn native_reads_enforce_file_and_live_limits_and_release_reservations() -> Result<(), ErrorKind> {
    let mut budget = Budget::new(16);
    assert_eq!(budget.used(), 0);

    for len in [7, 8] {
        let map = read(vec![0; len], len, 8, &mut budget)?;
        assert_eq!(map.len(), len);
        budget.release(map.into_reservation());
        assert_eq!(budget.used(), 0);
    }
    assert_eq!(
        read(vec![0; 9], 9, 8, &mut budget)
            .expect_err("a file above the per-file limit must be rejected"),
        ErrorKind::InvalidData
    );

    let first = read(vec![0; 8], 8, 8, &mut budget)?;
    let second = read(vec![0; 8], 8, 8, &mut budget)?;
    assert_eq!(budget.used(), 16);
    assert_eq!(
        read(vec![0], 1, 8, &mut budget)
            .expect_err("the aggregate live-buffer limit must be enforced"),
        ErrorKind::OutOfMemory
    );
    budget.release(first.into_reservation());
    let replacement = read(vec![0], 1, 8, &mut budget)?;
    budget.release(second.into_reservation());
    budget.release(replacement.into_reservation());
    assert_eq!(budget.used(), 0);

    assert_eq!(
        read(vec![0; 7], 8, 8, &mut budget).expect_err("a short read must fail"),
        ErrorKind::UnexpectedEof
    );
    assert_eq!(budget.used(), 0);
    assert_eq!(
        read(vec![0; 9], 8, 8, &mut budget)
            .expect_err("growth after metadata inspection must fail"),
        ErrorKind::InvalidData
    );
    assert_eq!(budget.used(), 0);
    Ok(())
}

#[test]
fn a_map_holds_the_bytes_that_were_read() -> Result<(), ErrorKind> {
    let mut budget = Budget::new(3);
    let map = read(vec![5, 6, 7], 3, 3, &mut budget)?;
    assert_eq!(map.deref(), &[5, 6, 7][..]);
    assert_eq!(budget.used(), 3);
    Ok(())
}

#[test]
fn a_failing_read_is_passed_on_and_releases_its_reservation() {
    let mut budget = Budget::new(8);
    let result = read_with_limits(|_, _| Err(ErrorKind::Other), 8, 8, &mut budget);
    assert_eq!(result.expect_err("the read fails"), ErrorKind::Other);
    assert_eq!(budget.used(), 0);
}

#[test]
fn reservations_are_made_up_to_the_limit_and_undone_by_release() {
    let mut budget = Budget::new(10);
    let a = budget.reserve(4).expect("within the limit");
    let b = budget.reserve(6).expect("just within the limit");
    assert_eq!(budget.reserve(1).expect_err("above the limit"), ErrorKind::OutOfMemory);
    assert_eq!(budget.reserve(usize::MAX).expect_err("out of range"), ErrorKind::OutOfMemory);
    assert_eq!(budget.used(), 10);
    budget.release(a);
    assert_eq!(budget.used(), 6);
    budget.release(b);
    assert_eq!(budget.used(), 0);
}

#[test]
fn what_was_read_is_kept_only_at_its_exact_length() {
    let mut budget = Budget::new(8);
    for (read, expected) in [
        (Ok(vec![1]), ErrorKind::UnexpectedEof),
        (Ok(vec![1, 2, 3]), ErrorKind::InvalidData),
        (Err(ErrorKind::Other), ErrorKind::Other),
    ] {
        let reservation = budget.reserve(2).expect("within the limit");
        assert_eq!(keep(read, 2, reservation, &mut budget).expect_err("not kept"), expected);
        assert_eq!(budget.used(), 0);
    }
    let reservation = budget.reserve(2).expect("within the limit");
    let map = keep(Ok(vec![1, 2]), 2, reservation, &mut budget).expect("kept");
    assert_eq!(map.deref(), &[1, 2][..]);
    assert_eq!(budget.used(), 2);
}

#[test]
fn only_regular_files_of_a_fitting_length_are_read() {
    assert_eq!(check_file(false, 3), Err(ErrorKind::InvalidInput));
    assert_eq!(check_file(true, 3), Ok(3));
}

#[test]
fn files_are_admitted_within_both_limits() {
    let mut budget = Budget::new(10);
    assert_eq!(set_aside(9, 8, &mut budget).expect_err("too long"), ErrorKind::InvalidData);
    let first = set_aside(8, 8, &mut budget).expect("within both limits");
    assert_eq!(set_aside(8, 8, &mut budget).expect_err("no room is left"), ErrorKind::OutOfMemory);
    assert_eq!(budget.used(), 8);
    budget.release(first);
    assert_eq!(budget.used(), 0);
}

#[test]
fn an_empty_file_needs_no_memory() -> Result<(), ErrorKind> {
    let mut budget = Budget::new(0);
    let map = read(Vec::new(), 0, 0, &mut budget)?;
    assert!(map.is_empty());
    budget.release(map.into_reservation());
    assert_eq!(budget.used(), 0);
    Ok(())
}

#[test]
fn nothing_is_read_of_a_file_that_a_limit_rejects() {
    let mut budget = Budget::new(4);
    let reject = |len: usize, file_limit: usize, budget: &mut Budget| {
        read_with_limits(|_, _| panic!("nothing is read"), len, file_limit, budget)
            .expect_err("rejected")
    };
    assert_eq!(reject(3, 2, &mut budget), ErrorKind::InvalidData);
    assert_eq!(reject(5, 8, &mut budget), ErrorKind::OutOfMemory);
    assert_eq!(reject(9, 8, &mut budget), ErrorKind::InvalidData);
    assert_eq!(budget.used(), 0);
}

use std::collections::BTreeMap;

use gix_motor::hash::{compute_hash, CollisionAttack, HashKind, ObjectId, ObjectKind};
use gix_motor::ref_deltas::RefDeltaChildren;
use gix_motor::traverse::{check_base_id, Action, Error, Event, ExternalBases, Lookup};

fn blob(data: &[u8]) -> ObjectId {
    compute_hash(HashKind::Sha1, ObjectKind::Blob, data).expect("no collision")
}

type Objects = BTreeMap<ObjectId, Vec<u8>>;

/// Runs a search for external bases in memory. Yields the bases and the children that were resolved.
fn search(
    waiting: &mut RefDeltaChildren,
    lookup: Option<&Objects>,
    interrupt_after: usize,
) -> Result<(Vec<ObjectId>, Vec<u32>), Error> {
    let mut search = ExternalBases::new(waiting, lookup.is_some(), HashKind::Sha1)?;
    let mut resolved = Vec::new();
    let mut rounds = 0;
    let mut found: &[u8] = &[];
    let mut action = search.step(Event::Continue { interrupted: rounds >= interrupt_after }, waiting);
    loop {
        action = match action {
            Action::Continue => {
                rounds += 1;
                search.step(Event::Continue { interrupted: rounds >= interrupt_after }, waiting)
            }
            Action::LookUp { base_id } => {
                let answer = match lookup.expect("there is a lookup").get(&base_id) {
                    Some(data) => {
                        found = data;
                        Lookup::Found { kind: ObjectKind::Blob, data }
                    }
                    None => Lookup::Absent,
                };
                search.step(Event::LookedUp(answer), waiting)
            }
            Action::Copy => {
                let copied = if found == b"large" { Err(Error::OutOfMemory) } else { Ok(()) };
                search.step(Event::Copied(copied), waiting)
            }
            Action::Resolve { kind, children, .. } => {
                assert_eq!(kind, ObjectKind::Blob);
                let outcome = if found == b"bad" { Err(Error::Delta) } else { Ok(()) };
                resolved.extend(children);
                search.step(Event::Resolved(outcome), waiting)
            }
            Action::Done { external_bases } => return Ok((external_bases, resolved)),
            Action::Fail(error) => return Err(error),
        };
    }
}

fn waiting_for(bases: &[(ObjectId, u32)]) -> RefDeltaChildren {
    let mut waiting = RefDeltaChildren::new();
    for (base, child) in bases {
        waiting.add(*base, *child);
    }
    waiting
}

fn objects(contents: &[&[u8]]) -> Objects {
    contents.iter().map(|data| (blob(data), data.to_vec())).collect()
}

#[test]
fn external_bases_resolve_every_waiting_delta_once() {
    let (a, b) = (blob(b"a"), blob(b"b"));
    let mut waiting = waiting_for(&[(a, 1), (b, 2), (a, 3)]);
    let (bases, mut resolved) =
        search(&mut waiting, Some(&objects(&[b"a", b"b", b"unused"])), usize::MAX).expect("found");
    let mut expected = vec![a, b];
    expected.sort();
    assert_eq!(bases, expected);
    resolved.sort_unstable();
    assert_eq!(resolved, [1, 2, 3]);
    assert!(waiting.is_empty());
}

#[test]
fn without_waiting_deltas_nothing_is_looked_up() {
    let mut waiting = RefDeltaChildren::new();
    let (bases, resolved) = search(&mut waiting, None, usize::MAX).expect("nothing to do");
    assert!(bases.is_empty() && resolved.is_empty());
    let (bases, _) = search(&mut waiting, Some(&Objects::new()), usize::MAX).expect("nothing to do");
    assert!(bases.is_empty());
}

#[test]
fn a_delta_without_base_stays_unresolved() {
    let (a, b) = (blob(b"a"), blob(b"b"));
    let mut waiting = waiting_for(&[(a, 1), (b, 2)]);
    assert!(matches!(
        search(&mut waiting, None, usize::MAX),
        Err(Error::UnresolvedRefDelta { base_id }) if base_id == a.min(b)
    ));
    let mut waiting = waiting_for(&[(a, 1), (b, 2)]);
    assert!(matches!(
        search(&mut waiting, Some(&objects(&[b"a"])), usize::MAX),
        Err(Error::UnresolvedRefDelta { base_id }) if base_id == b
    ));
}

#[test]
fn a_base_of_another_content_is_rejected() {
    let a = blob(b"a");
    let mut wrong = Objects::new();
    wrong.insert(a, b"other".to_vec());
    assert!(matches!(
        search(&mut waiting_for(&[(a, 1)]), Some(&wrong), usize::MAX),
        Err(Error::ExternalBaseIdMismatch { expected, actual })
            if expected == a && actual == blob(b"other")
    ));
}

#[test]
fn failures_end_the_search() {
    let large = blob(b"large");
    assert!(matches!(
        search(&mut waiting_for(&[(large, 1)]), Some(&objects(&[b"large"])), usize::MAX),
        Err(Error::OutOfMemory)
    ));
    let bad = blob(b"bad");
    assert!(matches!(
        search(&mut waiting_for(&[(bad, 1)]), Some(&objects(&[b"bad"])), usize::MAX),
        Err(Error::Delta)
    ));
    assert!(matches!(
        search(&mut waiting_for(&[(bad, 1)]), Some(&objects(&[b"bad"])), 0),
        Err(Error::Interrupted)
    ));
    let mut waiting = waiting_for(&[(bad, 1)]);
    let mut search = ExternalBases::begin(&waiting, true, HashKind::Sha1, Vec::new());
    assert!(matches!(
        search.step(Event::Continue { interrupted: false }, &mut waiting),
        Action::LookUp { base_id } if base_id == bad
    ));
    assert!(matches!(
        search.step(Event::LookedUp(Lookup::Failed), &mut waiting),
        Action::Fail(Error::ExternalBaseLookup { base_id }) if base_id == bad
    ));
}

#[test]
fn a_base_that_was_resolved_meanwhile_is_skipped() {
    let (a, b) = (blob(b"a"), blob(b"b"));
    let mut waiting = waiting_for(&[(a, 1), (b, 2)]);
    let mut search = ExternalBases::new(&waiting, true, HashKind::Sha1).expect("memory");
    waiting.remove(&a);
    waiting.remove(&b);
    for _ in 0..2 {
        assert!(matches!(
            search.step(Event::Continue { interrupted: false }, &mut waiting),
            Action::Continue
        ));
    }
    match search.step(Event::Continue { interrupted: true }, &mut waiting) {
        Action::Done { external_bases } => assert!(external_bases.is_empty()),
        _ => panic!("nothing waits any more"),
    }
}

#[test]
fn a_base_that_goes_away_while_it_is_copied_is_unresolved() {
    let a = blob(b"a");
    let mut waiting = waiting_for(&[(a, 1)]);
    let mut search = ExternalBases::new(&waiting, true, HashKind::Sha1).expect("memory");
    search.step(Event::Continue { interrupted: false }, &mut waiting);
    let answer = Lookup::Found { kind: ObjectKind::Blob, data: b"a" };
    assert!(matches!(search.step(Event::LookedUp(answer), &mut waiting), Action::Copy));
    waiting.remove(&a);
    assert!(matches!(
        search.step(Event::Copied(Ok(())), &mut waiting),
        Action::Fail(Error::UnresolvedRefDelta { base_id }) if base_id == a
    ));
}

#[test]
fn computed_ids_are_compared() {
    let (a, b) = (blob(b"a"), blob(b"b"));
    assert!(check_base_id(&a, Ok(a)).is_ok());
    assert!(matches!(
        check_base_id(&a, Ok(b)),
        Err(Error::ExternalBaseIdMismatch { expected, actual }) if expected == a && actual == b
    ));
    assert!(matches!(check_base_id(&a, Err(CollisionAttack)), Err(Error::ObjectHash)));
}

#[test]
fn memory_that_cannot_be_had_is_reported() {
    let error = Vec::<u8>::new().try_reserve(usize::MAX).expect_err("more than any memory");
    assert!(matches!(Error::from(error), Error::OutOfMemory));
}

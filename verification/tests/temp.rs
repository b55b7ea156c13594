use std::collections::BTreeMap;
use std::io;
use std::path::PathBuf;

use gix_motor::temp::{
    random_component, Builder, CreateAction, CreateEvent, NamedTempFile, TempPath,
};

/// Files by name, with their contents.
type Directory = BTreeMap<String, Vec<u8>>;

/// Creates a file as a builder says, or tells whether a file of its name is in the way. `random` gives
/// the random number of each attempt.
fn tempfile_in<P>(
    builder: &Builder<P>,
    directory: &mut Directory,
    random: impl Fn(usize) -> u64,
    permit: bool,
) -> Result<NamedTempFile<String>, io::ErrorKind> {
    let mut creation = builder.tempfile_in();
    let mut event = CreateEvent::Random(random(0));
    let mut current = String::new();
    let mut error = io::ErrorKind::Other;
    loop {
        event = match creation.step(event) {
            CreateAction::Draw { attempt } => CreateEvent::Random(random(attempt)),
            CreateAction::Create { name } => {
                current = String::from_utf8(name).expect("names are ASCII here");
                if directory.contains_key(&current) {
                    error = io::ErrorKind::AlreadyExists;
                    CreateEvent::NotCreated { exists: true }
                } else {
                    directory.insert(current.clone(), Vec::new());
                    CreateEvent::Created
                }
            }
            CreateAction::SetPermissions => {
                assert!(creation.permissions().is_some());
                if !permit {
                    error = io::ErrorKind::PermissionDenied;
                }
                CreateEvent::Permitted { ok: permit }
            }
            CreateAction::Remove => {
                directory.remove(&current);
                CreateEvent::Removed
            }
            CreateAction::Done => {
                let path = TempPath::new(PathBuf::from(&current));
                return Ok(NamedTempFile::from_parts(current, path));
            }
            CreateAction::Fail => return Err(error),
        };
    }
}

fn drop_temporary(path: TempPath, directory: &mut Directory) {
    if path.needs_cleanup() {
        directory.remove(path.to_path_buf().to_str().expect("names are ASCII here"));
    }
}

#[test]
fn creates_cleans_and_persists_named_files() -> Result<(), io::ErrorKind> {
    let mut root = Directory::new();
    let builder = Builder::<()>::new();
    let temporary = tempfile_in(&builder, &mut root, |_| 0, true)?;
    assert_eq!(temporary.path(), &PathBuf::from(".tmp05WFgr"));
    let temporary_name = temporary.as_file().clone();
    assert!(root.contains_key(&temporary_name));
    drop_temporary(temporary.into_temp_path(), &mut root);
    assert!(!root.contains_key(&temporary_name), "drop must remove the temporary name");

    let temporary = tempfile_in(&builder, &mut root, |_| 61, true)?;
    root.insert(temporary.as_file().clone(), b"complete".to_vec());
    let content = root.remove(temporary.as_file()).expect("the file is there");
    root.insert("destination".into(), content);
    let (_file, path) = match temporary.persist(Ok(())) {
        Ok(persisted) => persisted,
        Err(_) => panic!("the file was moved"),
    };
    assert!(!path.needs_cleanup());
    drop_temporary(path, &mut root);
    assert_eq!(root["destination"], b"complete");
    assert_eq!(root.len(), 1);
    Ok(())
}

#[test]
fn zero_random_bytes_create_the_exact_lock_name() -> Result<(), io::ErrorKind> {
    let mut root = Directory::new();
    let mut builder = Builder::<()>::new();
    builder.prefix(b"shallow").suffix(b".lock").rand_bytes(0);
    let first = tempfile_in(&builder, &mut root, |attempt| attempt as u64, true)?;
    assert_eq!(first.path(), &PathBuf::from("shallow.lock"));
    let error = match tempfile_in(&builder, &mut root, |attempt| attempt as u64, true) {
        Ok(_) => panic!("an existing lock must prevent another writer"),
        Err(error) => error,
    };
    assert_eq!(error, io::ErrorKind::AlreadyExists);
    drop_temporary(first.into_temp_path(), &mut root);
    assert!(root.is_empty());
    Ok(())
}

#[test]
fn names_are_generated_from_the_random_number() {
    assert_eq!(random_component(6, 0), b"05WFgr");
    assert_eq!(random_component(6, 61), b"znUZ43");
    assert_eq!(random_component(8, u64::MAX), b"FAj0ZOVg");
    assert_eq!(random_component(24, 1_234_567_890_123), b"Zr2VvuHhZS9IYxR6oJjml0b1");
    assert_eq!(random_component(0, 7), b"");
}

#[test]
fn generated_names_hold_digits_and_letters_between_their_fixed_parts() {
    let mut builder = Builder::<()>::new();
    builder.prefix(b"a-").suffix(b".b").rand_bytes(40);
    for random in [0, 1, 99, u64::MAX, 0x9e37_79b9_7f4a_7c15] {
        let name = builder.name(random);
        assert_eq!(name.len(), 44);
        assert!(name.starts_with(b"a-") && name.ends_with(b".b"));
        assert!(name[2..42].iter().all(u8::is_ascii_alphanumeric));
        assert_eq!(name[2..42], random_component(40, random)[..]);
    }
}

#[test]
fn a_name_that_is_taken_is_replaced_by_another() -> Result<(), io::ErrorKind> {
    let mut root = Directory::new();
    let builder = Builder::<()>::default();
    root.insert(".tmp05WFgr".into(), Vec::new());
    let file = tempfile_in(&builder, &mut root, |attempt| if attempt < 127 { 0 } else { 61 }, true)?;
    assert_eq!(file.as_file(), ".tmpznUZ43");
    assert_eq!(
        tempfile_in(&builder, &mut root, |attempt| if attempt < 128 { 0 } else { 1 }, true)
            .err(),
        Some(io::ErrorKind::AlreadyExists),
        "there are no more than 128 attempts"
    );
    Ok(())
}

#[test]
fn a_file_whose_permissions_cannot_be_set_is_removed() -> Result<(), io::ErrorKind> {
    let mut root = Directory::new();
    let mut builder = Builder::new();
    builder.permissions(0o600u32);
    assert_eq!(
        tempfile_in(&builder, &mut root, |_| 0, false).err(),
        Some(io::ErrorKind::PermissionDenied)
    );
    assert!(root.is_empty());
    tempfile_in(&builder, &mut root, |_| 0, true)?;
    assert_eq!(root.len(), 1);
    Ok(())
}

#[test]
fn a_creation_that_fails_otherwise_is_not_tried_again() {
    let builder = Builder::<()>::new();
    let mut creation = builder.tempfile_in();
    assert!(matches!(creation.step(CreateEvent::Random(5)), CreateAction::Create { .. }));
    assert!(matches!(
        creation.step(CreateEvent::NotCreated { exists: false }),
        CreateAction::Fail
    ));
}

#[test]
fn a_file_that_cannot_be_persisted_is_handed_back() {
    let path = TempPath::new(PathBuf::from("name"));
    assert!(path.needs_cleanup());
    assert_eq!(path.path(), &PathBuf::from("name"));
    let file = NamedTempFile::from_parts(7u8, path);
    let error = match file.persist(Err(io::Error::from(io::ErrorKind::NotFound))) {
        Ok(_) => panic!("the file was not moved"),
        Err(error) => error,
    };
    assert_eq!(error.error.kind(), io::ErrorKind::NotFound);
    let mut file = error.file;
    *file.as_file_mut() += 1;
    let (file, path) = file.into_parts();
    assert_eq!(file, 8);
    let kept = path.persist(Err(io::Error::from(io::ErrorKind::Other))).expect_err("not moved");
    assert_eq!(kept.path.to_path_buf(), PathBuf::from("name"));
}

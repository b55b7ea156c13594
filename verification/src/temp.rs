//! Named temporary files: how they are named, created and moved into place.
use std::io::Error as IoError;
use std::path::PathBuf;

use vstd::prelude::*;

verus! {

/// A failure of the file system.
#[verifier::external_type_specification]
#[verifier::external_body]
pub struct ExIoError(IoError);

/// A path in the file system.
#[verifier::external_type_specification]
#[verifier::external_body]
pub struct ExPathBuf(PathBuf);

/// The bytes of a path, as `OsStr::as_encoded_bytes` returns them.
pub uninterp spec fn path_bytes(path: PathBuf) -> Seq<u8>;

/// Calls `PathBuf::clone`, which copies the path.
#[verifier::external_body]
fn outside_clone(path: &PathBuf) -> (copy: PathBuf)
    ensures
        path_bytes(copy) == path_bytes(*path),
{
    path.clone()
}

/// Calls `PathBuf::new`, which makes an empty path.
#[verifier::external_body]
fn outside_empty_path() -> (path: PathBuf)
    ensures
        path_bytes(path) == Seq::<u8>::empty(),
{
    PathBuf::new()
}

/// Calls `OsStr::is_empty` on the path, which tells whether it has no bytes.
#[verifier::external_body]
fn outside_is_empty(path: &PathBuf) -> (empty: bool)
    ensures
        empty == (path_bytes(*path).len() == 0),
{
    path.as_os_str().is_empty()
}

/// The character with this number in the alphabet of generated names: the digits, the upper-case
/// letters, and the lower-case letters.
pub open spec fn letter(number: int) -> u8 {
    if number < 10 {
        (48 + number) as u8
    } else if number < 36 {
        (65 + number - 10) as u8
    } else {
        (97 + number - 36) as u8
    }
}

/// The random number that follows `random`.
pub open spec fn next_random(random: u64) -> u64 {
    ((random << 7) | (random >> 57)) ^ 0x9e3779b97f4a7c15
}

/// The random number after `steps` steps from `random`.
pub open spec fn random_after(random: u64, steps: nat) -> u64
    decreases steps,
{
    if steps == 0 {
        random
    } else {
        next_random(random_after(random, (steps - 1) as nat))
    }
}

/// The generated part of a name.
pub open spec fn component(length: nat, random: u64) -> Seq<u8> {
    Seq::new(length, |i: int| letter((random_after(random, i as nat) % 62) as int))
}

/// Generates `length` ASCII characters from a random number.
pub fn random_component(length: usize, random: u64) -> (name: Vec<u8>)
    ensures
        name@ == component(length as nat, random),
{
    let mut name: Vec<u8> = Vec::new();
    let mut state: u64 = random;
    for i in 0..length
        invariant
            state == random_after(random, i as nat),
            name@ == component(i as nat, random),
    {
        let number: u8 = (state % 62) as u8;
        let byte: u8 = if number < 10 {
            48 + number
        } else if number < 36 {
            55 + number
        } else {
            61 + number
        };
        name.push(byte);
        state = ((state << 7) | (state >> 57)) ^ 0x9e3779b97f4a7c15;
        assert(name@ =~= component((i + 1) as nat, random));
    }
    name
}

/// Configures creation of a named temporary file. `P` are the permissions of a file.
pub struct Builder<P> {
    prefix: Vec<u8>,
    suffix: Vec<u8>,
    random_len: usize,
    permissions: Option<P>,
}

/// How a temporary file is to be created.
pub struct BuilderView<P> {
    /// The fixed part before the generated name.
    pub prefix: Seq<u8>,
    /// The fixed part after the generated name.
    pub suffix: Seq<u8>,
    /// The number of generated characters.
    pub random_len: usize,
    /// The permissions applied immediately after creation.
    pub permissions: Option<P>,
}

impl<P> View for Builder<P> {
    type V = BuilderView<P>;

    closed spec fn view(&self) -> BuilderView<P> {
        BuilderView {
            prefix: self.prefix@,
            suffix: self.suffix@,
            random_len: self.random_len,
            permissions: self.permissions,
        }
    }
}

impl<P> BuilderView<P> {
    /// What is configured at first: the prefix `.tmp` and six generated characters.
    pub open spec fn initial() -> BuilderView<P> {
        BuilderView {
            prefix: seq![46u8, 116u8, 109u8, 112u8],
            suffix: Seq::empty(),
            random_len: 6,
            permissions: None,
        }
    }

    /// The name that is made with `random`.
    pub open spec fn name(self, random: u64) -> Seq<u8> {
        self.prefix + component(self.random_len as nat, random) + self.suffix
    }

    /// How often creation is tried. There is no point in trying the same name twice.
    pub open spec fn attempts(self) -> nat {
        if self.random_len == 0 {
            1
        } else {
            128
        }
    }
}

impl<P> Builder<P> {
    /// Creates a builder with the usual names.
    pub fn new() -> (builder: Builder<P>)
        ensures
            builder@ == BuilderView::<P>::initial(),
    {
        let prefix: Vec<u8> = vec![46u8, 116u8, 109u8, 112u8];
        let suffix: Vec<u8> = Vec::new();
        assert(prefix@ =~= seq![46u8, 116u8, 109u8, 112u8]);
        assert(suffix@ =~= Seq::<u8>::empty());
        Builder { prefix, suffix, random_len: 6, permissions: None }
    }

    /// Sets the fixed part before the generated name.
    pub fn prefix(&mut self, value: &[u8]) -> (builder: &mut Builder<P>)
        ensures
            builder@ == (BuilderView { prefix: value@, ..old(self)@ }),
            *final(self) == *final(builder),
    {
        self.prefix = vstd::slice::slice_to_vec(value);
        self
    }

    /// Sets the fixed part after the generated name.
    pub fn suffix(&mut self, value: &[u8]) -> (builder: &mut Builder<P>)
        ensures
            builder@ == (BuilderView { suffix: value@, ..old(self)@ }),
            *final(self) == *final(builder),
    {
        self.suffix = vstd::slice::slice_to_vec(value);
        self
    }

    /// Sets the number of generated ASCII characters.
    pub fn rand_bytes(&mut self, value: usize) -> (builder: &mut Builder<P>)
        ensures
            builder@ == (BuilderView { random_len: value, ..old(self)@ }),
            *final(self) == *final(builder),
    {
        self.random_len = value;
        self
    }

    /// Sets the permissions applied immediately after creation.
    pub fn permissions(&mut self, value: P) -> (builder: &mut Builder<P>)
        ensures
            builder@ == (BuilderView { permissions: Some(value), ..old(self)@ }),
            *final(self) == *final(builder),
    {
        self.permissions = Some(value);
        self
    }

    /// Composes the name that is made with `random`.
    pub fn name(&self, random: u64) -> (name: Vec<u8>)
        ensures
            name@ == self@.name(random),
    {
        let mut name: Vec<u8> = vstd::slice::slice_to_vec(self.prefix.as_slice());
        let mut generated = random_component(self.random_len, random);
        let mut suffix: Vec<u8> = vstd::slice::slice_to_vec(self.suffix.as_slice());
        name.append(&mut generated);
        name.append(&mut suffix);
        name
    }
}

impl<P> Default for Builder<P> {
    fn default() -> (builder: Builder<P>)
        ensures
            builder@ == BuilderView::<P>::initial(),
    {
        Builder::new()
    }
}

/// What the creation of a temporary file is to be told next.
pub enum CreateEvent {
    /// A random number to make a name with.
    Random(u64),
    /// The file was created.
    Created,
    /// The file could not be created; `exists` tells whether because there is one of that name.
    NotCreated { exists: bool },
    /// Whether the permissions could be set.
    Permitted { ok: bool },
    /// It was tried to remove the file.
    Removed,
}

/// What is to be done to create a temporary file.
pub enum CreateAction {
    /// Get a random number for the attempt with this number.
    Draw { attempt: usize },
    /// Create a file of this name, but only if there is none.
    Create { name: Vec<u8> },
    /// Set the permissions of the file.
    SetPermissions,
    /// Remove the file, if possible.
    Remove,
    /// The file is ready.
    Done,
    /// Fail with the error that was met when the file was created or when its permissions were set.
    Fail,
}

/// What the creation of a temporary file waits for.
#[derive(Clone, Copy)]
pub enum CreateStage {
    /// A random number.
    Naming,
    /// The creation of the file.
    Creating,
    /// The permissions of the file.
    Permitting,
    /// The removal of a file whose permissions could not be set.
    Removing,
    /// Nothing any more.
    Over,
}

/// The creation of a temporary file.
pub struct Creation<'a, P> {
    builder: &'a Builder<P>,
    attempt: usize,
    stage: CreateStage,
}

/// What is known while a temporary file is created.
pub struct CreationView<P> {
    /// How the file is to be created.
    pub builder: BuilderView<P>,
    /// How many attempts have failed.
    pub attempt: nat,
    /// What the creation waits for.
    pub stage: CreateStage,
}

impl<'a, P> View for Creation<'a, P> {
    type V = CreationView<P>;

    closed spec fn view(&self) -> CreationView<P> {
        CreationView { builder: self.builder@, attempt: self.attempt as nat, stage: self.stage }
    }
}

impl<P> CreationView<P> {
    /// There are attempts left for what is being tried.
    pub open spec fn wf(self) -> bool {
        self.attempt < self.builder.attempts()
    }

    /// The event is one that the creation waits for.
    pub open spec fn expects(self, event: CreateEvent) -> bool {
        match event {
            CreateEvent::Random(_) => self.stage is Naming,
            CreateEvent::Created | CreateEvent::NotCreated { .. } => self.stage is Creating,
            CreateEvent::Permitted { .. } => self.stage is Permitting,
            CreateEvent::Removed => self.stage is Removing,
        }
    }

    /// What the creation does on `event`: `next` is what is known afterwards.
    pub open spec fn creates(
        self,
        event: CreateEvent,
        next: CreationView<P>,
        action: CreateAction,
    ) -> bool {
        match event {
            CreateEvent::Random(random) => {
                &&& action matches CreateAction::Create { name } && name@ == self.builder.name(
                    random,
                )
                &&& next == (CreationView { stage: CreateStage::Creating, ..self })
            },
            CreateEvent::Created => if self.builder.permissions is Some {
                &&& action is SetPermissions
                &&& next == (CreationView { stage: CreateStage::Permitting, ..self })
            } else {
                &&& action is Done
                &&& next == (CreationView { stage: CreateStage::Over, ..self })
            },
            CreateEvent::NotCreated { exists } => if exists && self.attempt + 1
                < self.builder.attempts() {
                &&& action matches CreateAction::Draw { attempt } && attempt == self.attempt + 1
                &&& next == (CreationView {
                    attempt: self.attempt + 1,
                    stage: CreateStage::Naming,
                    ..self
                })
            } else {
                &&& action is Fail
                &&& next == (CreationView { stage: CreateStage::Over, ..self })
            },
            CreateEvent::Permitted { ok } => if ok {
                &&& action is Done
                &&& next == (CreationView { stage: CreateStage::Over, ..self })
            } else {
                &&& action is Remove
                &&& next == (CreationView { stage: CreateStage::Removing, ..self })
            },
            CreateEvent::Removed => {
                &&& action is Fail
                &&& next == (CreationView { stage: CreateStage::Over, ..self })
            },
        }
    }
}

impl<P> Builder<P> {
    /// Begins the creation of a named temporary file. A random number for the attempt with number zero
    /// is wanted first.
    pub fn tempfile_in(&self) -> (creation: Creation<'_, P>)
        ensures
            creation@.wf(),
            creation@ == (CreationView { builder: self@, attempt: 0, stage: CreateStage::Naming }),
    {
        Creation { builder: self, attempt: 0, stage: CreateStage::Naming }
    }
}

impl<'a, P> Creation<'a, P> {
    /// The permissions to set, if there are any.
    pub fn permissions(&self) -> (permissions: &Option<P>)
        ensures
            *permissions == self@.builder.permissions,
    {
        &self.builder.permissions
    }

    /// Takes in `event` and says what is to be done. If a file of the name exists, another name is
    /// tried, as long as there are attempts left.
    pub fn step(&mut self, event: CreateEvent) -> (action: CreateAction)
        requires
            old(self)@.wf(),
            old(self)@.expects(event),
        ensures
            final(self)@.wf(),
            old(self)@.creates(event, final(self)@, action),
    {
        match event {
            CreateEvent::Random(random) => {
                self.stage = CreateStage::Creating;
                CreateAction::Create { name: self.builder.name(random) }
            },
            CreateEvent::Created => if self.builder.permissions.is_some() {
                self.stage = CreateStage::Permitting;
                CreateAction::SetPermissions
            } else {
                self.stage = CreateStage::Over;
                CreateAction::Done
            },
            CreateEvent::NotCreated { exists } => {
                let attempts: usize = if self.builder.random_len == 0 {
                    1
                } else {
                    128
                };
                if exists && self.attempt + 1 < attempts {
                    self.attempt = self.attempt + 1;
                    self.stage = CreateStage::Naming;
                    CreateAction::Draw { attempt: self.attempt }
                } else {
                    self.stage = CreateStage::Over;
                    CreateAction::Fail
                }
            },
            CreateEvent::Permitted { ok } => if ok {
                self.stage = CreateStage::Over;
                CreateAction::Done
            } else {
                self.stage = CreateStage::Removing;
                CreateAction::Remove
            },
            CreateEvent::Removed => {
                self.stage = CreateStage::Over;
                CreateAction::Fail
            },
        }
    }
}

/// Without generated characters the name is the prefix followed by the suffix, whatever the random
/// number, and it is tried once: if there is a file of that name, creation fails.
pub proof fn lemma_fixed_names_are_exact<P>(
    view: CreationView<P>,
    random: u64,
    next: CreationView<P>,
    action: CreateAction,
)
    requires
        view.builder.random_len == 0,
        view.wf(),
        view.stage is Creating,
        view.creates(CreateEvent::NotCreated { exists: true }, next, action),
    ensures
        view.builder.name(random) == view.builder.prefix + view.builder.suffix,
        action is Fail,
{
    assert(view.builder.name(random) =~= view.builder.prefix + view.builder.suffix);
}

/// The letters of generated names are all digits, upper-case and lower-case letters, in this order: the
/// letters with ascending numbers ascend, and none is anything else.
pub proof fn lemma_letters_ascend(a: int, b: int)
    requires
        0 <= a < b < 62,
    ensures
        letter(a) < letter(b),
        48 <= letter(a) <= 57 || 65 <= letter(a) <= 90 || 97 <= letter(a) <= 122,
        48 <= letter(b) <= 57 || 65 <= letter(b) <= 90 || 97 <= letter(b) <= 122,
{
}

/// Each random number is the one before it with its bits turned seven places to the left, and then with
/// those bits flipped that the constant tells.
pub proof fn lemma_random_numbers_turn(random: u64)
    ensures
        next_random(random) == ((random % 0x200_0000_0000_0000) * 128 + random
            / 0x200_0000_0000_0000) as u64 ^ 0x9e3779b97f4a7c15,
{
    assert(((random << 7) | (random >> 57)) == ((random % 0x200_0000_0000_0000) * 128 + random
        / 0x200_0000_0000_0000) as u64) by (bit_vector);
}

/// A generated part begins with the letter whose number is the random number modulo 62, and goes on as one
/// that is generated from the next random number.
pub proof fn lemma_components_unfold(length: nat, random: u64)
    ensures
        component(length, random).len() == length,
        length > 0 ==> component(length, random)[0] == letter((random % 62) as int),
        length > 0 ==> component(length, random).skip(1) == component(
            (length - 1) as nat,
            next_random(random),
        ),
{
    if length > 0 {
        let rest = component((length - 1) as nat, next_random(random));
        assert forall|i: int| 0 <= i < rest.len() implies component(length, random).skip(1)[i]
            == #[trigger] rest[i] by {
            lemma_random_after_next(random, i as nat);
        }
        assert(component(length, random).skip(1) =~= rest);
    }
}

proof fn lemma_random_after_next(random: u64, steps: nat)
    ensures
        random_after(next_random(random), steps) == random_after(random, steps + 1),
    decreases steps,
{
    if steps > 0 {
        lemma_random_after_next(random, (steps - 1) as nat);
    } else {
        assert(random_after(random, 0) == random);
    }
}

/// A name begins with the prefix, ends with the suffix, and has the generated part between them.
pub proof fn lemma_names_keep_their_parts<P>(builder: BuilderView<P>, random: u64)
    ensures
        ({
            let name = builder.name(random);
            let first = builder.prefix.len() as int;
            let second = first + builder.random_len;
            &&& name.len() == second + builder.suffix.len()
            &&& name.take(first) == builder.prefix
            &&& name.subrange(first, second) == component(builder.random_len as nat, random)
            &&& name.skip(second) == builder.suffix
        }),
{
    let name = builder.name(random);
    let first = builder.prefix.len() as int;
    let second = first + builder.random_len;
    assert(name.take(first) =~= builder.prefix);
    assert(name.subrange(first, second) =~= component(builder.random_len as nat, random));
    assert(name.skip(second) =~= builder.suffix);
}

/// How the creation of a file goes on from what it asked last.
///
/// A file that was created gets the permissions that are configured, if there are any, and is then ready;
/// if they cannot be set it is removed, and creation fails. If there is a file of that name, another name
/// is drawn as long as generated characters make that possible, 127 times at most. Any other failure is
/// final.
pub proof fn lemma_how_a_creation_goes_on<P>(
    before: CreationView<P>,
    told: CreateEvent,
    view: CreationView<P>,
    asked: CreateAction,
    event: CreateEvent,
    next: CreationView<P>,
    action: CreateAction,
)
    requires
        before.wf(),
        before.expects(told),
        before.creates(told, view, asked),
        view.expects(event),
        view.creates(event, next, action),
    ensures
        next.builder == before.builder,
        told matches CreateEvent::Random(random) ==> {
            &&& asked matches CreateAction::Create { name }
            &&& name@ == before.builder.prefix + component(
                before.builder.random_len as nat,
                random,
            ) + before.builder.suffix
        },
        match asked {
            CreateAction::Draw { attempt } => attempt == before.attempt + 1 && event is Random,
            CreateAction::Create { .. } => match event {
                CreateEvent::Created => if before.builder.permissions is Some {
                    action is SetPermissions
                } else {
                    action is Done
                },
                CreateEvent::NotCreated { exists } => if exists && before.builder.random_len > 0
                    && before.attempt < 127 {
                    action matches CreateAction::Draw { attempt } && attempt == before.attempt + 1
                } else {
                    action is Fail
                },
                _ => false,
            },
            CreateAction::SetPermissions => event matches CreateEvent::Permitted { ok } && if ok {
                action is Done
            } else {
                action is Remove
            },
            CreateAction::Remove => event is Removed && action is Fail,
            CreateAction::Done => false,
            CreateAction::Fail => false,
        },
{
}

/// Generated names are as long as they are to be, and hold only digits and letters between their
/// fixed parts.
pub proof fn lemma_generated_names<P>(builder: BuilderView<P>, random: u64)
    ensures
        builder.name(random).len() == builder.prefix.len() + builder.random_len
            + builder.suffix.len(),
        forall|i: int|
            0 <= i < builder.random_len ==> {
                let byte = #[trigger] component(builder.random_len as nat, random)[i];
                ||| 48 <= byte <= 57
                ||| 65 <= byte <= 90
                ||| 97 <= byte <= 122
            },
{
}

impl<P> CreationView<P> {
    /// A bound on the number of events that the creation still needs.
    pub open spec fn remaining(self) -> int {
        4 * (self.builder.attempts() - self.attempt) + match self.stage {
            CreateStage::Naming => 4int,
            CreateStage::Creating => 3,
            CreateStage::Permitting => 2,
            CreateStage::Removing => 1,
            CreateStage::Over => 0,
        }
    }
}

/// Creation comes to an end: every event brings it closer, and no more names are tried than there are
/// attempts.
pub proof fn lemma_creation_ends<P>(
    view: CreationView<P>,
    event: CreateEvent,
    next: CreationView<P>,
    action: CreateAction,
)
    requires
        view.wf(),
        view.expects(event),
        view.creates(event, next, action),
    ensures
        next.wf(),
        0 <= next.remaining() < view.remaining(),
        next.stage is Over <==> action is Done || action is Fail,
{
}

/// A temporary path, whose file is to be removed in the end unless it was persisted.
#[derive(Debug)]
pub struct TempPath {
    path: PathBuf,
}

impl View for TempPath {
    type V = Seq<u8>;

    /// The bytes of the path; none once the file was persisted.
    closed spec fn view(&self) -> Seq<u8> {
        path_bytes(self.path)
    }
}

/// An error that retains the path after persistence has failed.
#[derive(Debug)]
pub struct PathPersistError {
    /// The failure of the file system.
    pub error: IoError,
    /// The temporary path which was not persisted.
    pub path: TempPath,
}

impl TempPath {
    /// Takes charge of the file at `path`.
    pub fn new(path: PathBuf) -> (temp: TempPath)
        ensures
            temp@ == path_bytes(path),
    {
        TempPath { path }
    }

    /// Returns an owned copy of the temporary path.
    pub fn to_path_buf(&self) -> (path: PathBuf)
        ensures
            path_bytes(path) == self@,
    {
        outside_clone(&self.path)
    }

    /// Returns the temporary path.
    pub fn path(&self) -> (path: &PathBuf)
        ensures
            path_bytes(*path) == self@,
    {
        &self.path
    }

    /// Whether the file is to be removed once the path is given up.
    pub fn needs_cleanup(&self) -> (cleanup: bool)
        ensures
            cleanup == (self@.len() > 0),
    {
        !outside_is_empty(&self.path)
    }

    /// Decides on what came of moving the file to its destination. Where that went well, there is
    /// nothing left to be removed. Otherwise the path is handed back as it was.
    pub fn persist(self, renamed: Result<(), IoError>) -> (result: Result<
        TempPath,
        PathPersistError,
    >)
        ensures
            match renamed {
                Ok(()) => result matches Ok(path) && path@.len() == 0,
                Err(error) => result == Err::<TempPath, PathPersistError>(
                    PathPersistError { error, path: self },
                ),
            },
    {
        match renamed {
            Ok(()) => Ok(TempPath { path: outside_empty_path() }),
            Err(error) => Err(PathPersistError { error, path: self }),
        }
    }
}

/// An open file together with its temporary path. `F` is the open file.
pub struct NamedTempFile<F> {
    file: F,
    path: TempPath,
}

/// An error that retains the open temporary file after persistence has failed.
pub struct PersistError<F> {
    /// The failure of the file system.
    pub error: IoError,
    /// The temporary file which was not persisted.
    pub file: NamedTempFile<F>,
}

impl<F> NamedTempFile<F> {
    /// The open file.
    pub closed spec fn spec_file(&self) -> F {
        self.file
    }

    /// The path of the file.
    pub closed spec fn spec_path(&self) -> TempPath {
        self.path
    }

    /// Puts an open file and its path together.
    pub fn from_parts(file: F, path: TempPath) -> (temp: NamedTempFile<F>)
        ensures
            temp.spec_file() == file,
            temp.spec_path() == path,
    {
        NamedTempFile { file, path }
    }

    /// Returns the temporary path.
    pub fn path(&self) -> (path: &PathBuf)
        ensures
            path_bytes(*path) == self.spec_path()@,
    {
        self.path.path()
    }

    /// Returns the underlying file.
    pub fn as_file(&self) -> (file: &F)
        ensures
            *file == self.spec_file(),
    {
        &self.file
    }

    /// Returns the underlying file mutably.
    pub fn as_file_mut(&mut self) -> (file: &mut F)
        ensures
            *file == old(self).spec_file(),
            final(self).spec_file() == *final(file),
            final(self).spec_path() == old(self).spec_path(),
    {
        &mut self.file
    }

    /// Converts into a path that is still to be cleaned up.
    pub fn into_temp_path(self) -> (path: TempPath)
        ensures
            path == self.spec_path(),
    {
        self.path
    }

    /// Converts into the open file and its path.
    pub fn into_parts(self) -> (parts: (F, TempPath))
        ensures
            parts == (self.spec_file(), self.spec_path()),
    {
        (self.file, self.path)
    }

    /// Decides on what came of moving the file to its destination. Where that went well, the open file
    /// is handed out and nothing is left to be removed. Otherwise the file is handed back as it was.
    pub fn persist(self, renamed: Result<(), IoError>) -> (result: Result<
        (F, TempPath),
        PersistError<F>,
    >)
        ensures
            match renamed {
                Ok(()) => {
                    &&& result matches Ok((file, path))
                    &&& file == self.spec_file()
                    &&& path@.len() == 0
                },
                Err(error) => {
                    &&& result matches Err(kept)
                    &&& kept.error == error
                    &&& kept.file == self
                },
            },
    {
        let NamedTempFile { file, path } = self;
        match path.persist(renamed) {
            Ok(path) => Ok((file, path)),
            Err(failure) => Err(
                PersistError { error: failure.error, file: NamedTempFile { file, path: failure.path } },
            ),
        }
    }
}

} // verus!

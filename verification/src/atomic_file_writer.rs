//! One maintenance transaction: files are staged under `tmp/`, deletions
//! are only noted, and nothing touches the live directories before the
//! commit.
//!
//! The writer keeps the lists and gives out the steps; the caller, who
//! holds the repository lock, carries them out.

use crate::error::{Error, ErrorKind};
use crate::random::{is_ascii_alphanumeric, random_temp_name};
use vstd::prelude::*;

verus! {

/// Where the taking of the repository lock stands.  The lock is two locks
/// on the same file, taken one after the other: a lock on the whole file,
/// and a write lock on its byte range.
#[derive(Clone, Copy, Debug, PartialEq, Eq, Structural)]
pub enum LockState {
    /// Neither lock is held; the lock on the whole file is being asked for.
    WholeFile,
    /// The lock on the whole file is held; the lock on the byte range is
    /// being asked for.
    ByteRange,
    /// Both locks are held.
    Held,
    /// A lock was refused for another reason than that it is taken.
    Failed,
}

/// What came back from the operating system.
#[derive(Clone, Copy, Debug, PartialEq, Eq, Structural)]
pub enum LockEvent {
    /// The call succeeded.
    Granted,
    /// The lock is taken by someone else, and the call was not to wait.
    WouldBlock,
    /// The call failed otherwise.
    Refused,
    /// The pause before another try is over.
    Slept,
}

/// What the caller is to do next.
#[derive(Clone, Copy, Debug, PartialEq, Eq, Structural)]
pub enum LockAction {
    /// Ask for the lock on the whole file, waiting for it or not.
    LockWholeFile { wait: bool },
    /// Pause for so many milliseconds, then report `Slept`.
    Sleep { millis: u64 },
    /// Ask for the write lock on the byte range, waiting for it.
    LockByteRange,
    /// Both locks are held: go on.
    Proceed,
    /// Give up: close the lock file and report the error.
    GiveUp,
}

/// The first step in taking the lock.  With a pause between tries the lock
/// on the whole file is asked for without waiting; without one the call
/// waits.
pub open spec fn lock_start(sleep_time: Option<u64>) -> (LockState, LockAction) {
    (LockState::WholeFile, LockAction::LockWholeFile { wait: sleep_time is None })
}

/// The step that follows `event` in `state`.
pub open spec fn lock_next(sleep_time: Option<u64>, state: LockState, event: LockEvent) -> (
    LockState,
    LockAction,
) {
    match (state, event) {
        (LockState::WholeFile, LockEvent::Granted) => (
            LockState::ByteRange,
            LockAction::LockByteRange,
        ),
        (LockState::WholeFile, LockEvent::WouldBlock) => match sleep_time {
            Some(millis) => (LockState::WholeFile, LockAction::Sleep { millis }),
            None => (LockState::Failed, LockAction::GiveUp),
        },
        (LockState::WholeFile, LockEvent::Slept) => (
            LockState::WholeFile,
            LockAction::LockWholeFile { wait: sleep_time is None },
        ),
        (LockState::ByteRange, LockEvent::Granted) => (LockState::Held, LockAction::Proceed),
        (LockState::Held, _) => (LockState::Held, LockAction::Proceed),
        _ => (LockState::Failed, LockAction::GiveUp),
    }
}

/// The first step in taking the lock.
pub fn lock_begin(sleep_time: Option<u64>) -> (step: (LockState, LockAction))
    ensures
        step == lock_start(sleep_time),
{
    (LockState::WholeFile, LockAction::LockWholeFile { wait: sleep_time.is_none() })
}

/// The step that follows `event` in `state`.
pub fn lock_step(sleep_time: Option<u64>, state: LockState, event: LockEvent) -> (step: (
    LockState,
    LockAction,
))
    ensures
        step == lock_next(sleep_time, state, event),
{
    match state {
        LockState::WholeFile => match event {
            LockEvent::Granted => (LockState::ByteRange, LockAction::LockByteRange),
            LockEvent::WouldBlock => match sleep_time {
                Some(millis) => (LockState::WholeFile, LockAction::Sleep { millis }),
                None => (LockState::Failed, LockAction::GiveUp),
            },
            LockEvent::Slept => (
                LockState::WholeFile,
                LockAction::LockWholeFile { wait: sleep_time.is_none() },
            ),
            LockEvent::Refused => (LockState::Failed, LockAction::GiveUp),
        },
        LockState::ByteRange => match event {
            LockEvent::Granted => (LockState::Held, LockAction::Proceed),
            _ => (LockState::Failed, LockAction::GiveUp),
        },
        LockState::Held => (LockState::Held, LockAction::Proceed),
        LockState::Failed => (LockState::Failed, LockAction::GiveUp),
    }
}

/// The state after a run of events, from the start.
pub open spec fn lock_run(sleep_time: Option<u64>, events: Seq<LockEvent>) -> LockState
    decreases events.len(),
{
    if events.len() == 0 {
        lock_start(sleep_time).0
    } else {
        lock_next(sleep_time, lock_run(sleep_time, events.drop_last()), events.last()).0
    }
}

/// How many of the events are grants.
pub open spec fn grants(events: Seq<LockEvent>) -> nat
    decreases events.len(),
{
    if events.len() == 0 {
        0
    } else {
        grants(events.drop_last()) + if events.last() == LockEvent::Granted {
            1nat
        } else {
            0nat
        }
    }
}

/// The lock counts as held only when both locks were granted: the one on
/// the whole file, and then the one on the byte range.
pub proof fn lemma_lock_held_needs_both(sleep_time: Option<u64>, events: Seq<LockEvent>)
    ensures
        lock_run(sleep_time, events) == LockState::Held ==> grants(events) >= 2,
        lock_run(sleep_time, events) == LockState::ByteRange ==> grants(events) >= 1,
    decreases events.len(),
{
    if events.len() > 0 {
        lemma_lock_held_needs_both(sleep_time, events.drop_last());
    }
}

/// The failure to take the lock.
pub fn lock_error(lock_path: &str, detail: &str) -> (e: Error)
    ensures
        e.kind == ErrorKind::LockError,
        e.message@ == "Error obtaining lock on "@ + lock_path@ + ": "@ + detail@,
{
    let mut message = String::from_str("Error obtaining lock on ");
    message.append(lock_path);
    message.append(": ");
    message.append(detail);
    Error { kind: ErrorKind::LockError, message }
}

/// A file that has been staged: its name under `tmp/`, and where it goes.
#[derive(Clone, Debug, PartialEq, Eq)]
pub struct StagedFile {
    pub temp_file_name: String,
    pub target_path: String,
}

/// What a `StagedFile` stands for.
pub struct StagedSpec {
    pub temp_file_name: Seq<char>,
    pub target_path: Seq<char>,
}

impl View for StagedFile {
    type V = StagedSpec;

    open spec fn view(&self) -> StagedSpec {
        StagedSpec { temp_file_name: self.temp_file_name@, target_path: self.target_path@ }
    }
}

/// One step on the file system.
#[derive(Clone, Debug, PartialEq, Eq)]
pub enum FileAction {
    /// Flush the staged file at this path to disk.
    Sync(String),
    /// Create the directory that is to hold this path, and those above it.
    CreateParentDirs(String),
    /// Move the file at the first path to the second; where they lie on
    /// different file systems, copy it and delete the file it was copied from.
    Rename(String, String),
    /// Delete the file at this path.
    Unlink(String),
    /// Remove the directory at this path, if it is empty.
    RemoveDir(String),
    /// Close the lock file, which releases the lock.
    ReleaseLock,
}

/// What a `FileAction` stands for.
pub enum ActionSpec {
    Sync(Seq<char>),
    CreateParentDirs(Seq<char>),
    Rename(Seq<char>, Seq<char>),
    Unlink(Seq<char>),
    RemoveDir(Seq<char>),
    ReleaseLock,
}

impl View for FileAction {
    type V = ActionSpec;

    open spec fn view(&self) -> ActionSpec {
        match self {
            FileAction::Sync(p) => ActionSpec::Sync(p@),
            FileAction::CreateParentDirs(p) => ActionSpec::CreateParentDirs(p@),
            FileAction::Rename(a, b) => ActionSpec::Rename(a@, b@),
            FileAction::Unlink(p) => ActionSpec::Unlink(p@),
            FileAction::RemoveDir(p) => ActionSpec::RemoveDir(p@),
            FileAction::ReleaseLock => ActionSpec::ReleaseLock,
        }
    }
}

/// What the steps in a vector stand for.
pub open spec fn action_views(actions: Seq<FileAction>) -> Seq<ActionSpec> {
    actions.map_values(|a: FileAction| a@)
}

/// The state of a transaction.
pub struct WriterSpec {
    /// The directory for staged files: `tmp` under the repository.
    pub temp_dir_path: Seq<char>,
    /// The staged files, in the order staged.
    pub temp_files: Seq<StagedSpec>,
    /// The files to delete at the commit, in the order noted.
    pub delete_files: Seq<Seq<char>>,
}

/// The path of a staged file.
pub open spec fn temp_path(temp_dir_path: Seq<char>, temp_file_name: Seq<char>) -> Seq<char> {
    temp_dir_path + "/"@ + temp_file_name
}

impl WriterSpec {
    /// The steps that flush every staged file, in order.
    pub open spec fn sync_steps(self) -> Seq<ActionSpec> {
        Seq::new(
            self.temp_files.len(),
            |i: int| ActionSpec::Sync(temp_path(self.temp_dir_path, self.temp_files[i].temp_file_name)),
        )
    }

    /// The steps that move every staged file into place, in order: for each,
    /// first the directory, then the move.
    pub open spec fn rename_steps(self) -> Seq<ActionSpec> {
        Seq::new(
            2 * self.temp_files.len(),
            |k: int|
                if k % 2 == 0 {
                    ActionSpec::CreateParentDirs(self.temp_files[k / 2].target_path)
                } else {
                    ActionSpec::Rename(
                        temp_path(self.temp_dir_path, self.temp_files[k / 2].temp_file_name),
                        self.temp_files[k / 2].target_path,
                    )
                },
        )
    }

    /// The steps that delete every file noted for deletion, in order.
    pub open spec fn delete_steps(self) -> Seq<ActionSpec> {
        Seq::new(self.delete_files.len(), |i: int| ActionSpec::Unlink(self.delete_files[i]))
    }

    /// The steps of the commit: every staged file is flushed; then each is
    /// moved into place; then the files noted for deletion are deleted.
    pub open spec fn commit_steps(self) -> Seq<ActionSpec> {
        self.sync_steps() + self.rename_steps() + self.delete_steps()
    }

    /// The steps that undo the transaction: every file still staged is
    /// deleted, `tmp/` is removed, and the lock is released.  No file
    /// outside `tmp/` is touched.
    pub open spec fn rollback_steps(self) -> Seq<ActionSpec> {
        Seq::new(
            self.temp_files.len(),
            |i: int|
                ActionSpec::Unlink(temp_path(self.temp_dir_path, self.temp_files[i].temp_file_name)),
        ) + seq![ActionSpec::RemoveDir(self.temp_dir_path), ActionSpec::ReleaseLock]
    }
}

/// The staged files and noted deletions of one transaction.
pub struct AtomicFileWriter {
    temp_dir_path: String,
    temp_files: Vec<StagedFile>,
    delete_files: Vec<String>,
}

/// What the staged files in a vector stand for.
pub open spec fn staged_views(files: Seq<StagedFile>) -> Seq<StagedSpec> {
    files.map_values(|f: StagedFile| f@)
}

/// What the paths in a vector stand for.
pub open spec fn path_views(paths: Seq<String>) -> Seq<Seq<char>> {
    paths.map_values(|p: String| p@)
}

impl View for AtomicFileWriter {
    type V = WriterSpec;

    closed spec fn view(&self) -> WriterSpec {
        WriterSpec {
            temp_dir_path: self.temp_dir_path@,
            temp_files: staged_views(self.temp_files@),
            delete_files: path_views(self.delete_files@),
        }
    }
}

fn join_path(directory: &str, name: &str) -> (path: String)
    ensures
        path@ == temp_path(directory@, name@),
{
    let mut path = String::from_str(directory);
    path.append("/");
    path.append(name);
    path
}

impl AtomicFileWriter {
    /// A transaction on the repository at `repository_path`, with nothing
    /// staged and nothing noted.  It is for the one who holds the
    /// repository lock.
    pub fn new(repository_path: &str) -> (writer: AtomicFileWriter)
        ensures
            writer@ == (WriterSpec {
                temp_dir_path: temp_path(repository_path@, "tmp"@),
                temp_files: Seq::empty(),
                delete_files: Seq::empty(),
            }),
    {
        let writer = AtomicFileWriter {
            temp_dir_path: join_path(repository_path, "tmp"),
            temp_files: Vec::new(),
            delete_files: Vec::new(),
        };
        proof {
            assert(writer@.temp_files =~= Seq::<StagedSpec>::empty());
            assert(writer@.delete_files =~= Seq::<Seq<char>>::empty());
        }
        writer
    }

    /// The directory for staged files.
    pub fn temp_dir_path(&self) -> (path: String)
        ensures
            path@ == self@.temp_dir_path,
    {
        self.temp_dir_path.clone()
    }

    /// Stages a file for `target_path` under the name `temp_file_name`;
    /// gives the path at which the caller is to create and write it.
    pub fn stage(&mut self, temp_file_name: String, target_path: String) -> (path: String)
        ensures
            path@ == temp_path(old(self)@.temp_dir_path, temp_file_name@),
            final(self)@ == (WriterSpec {
                temp_files: old(self)@.temp_files.push(
                    StagedSpec { temp_file_name: temp_file_name@, target_path: target_path@ },
                ),
                ..old(self)@
            }),
    {
        let path = join_path(self.temp_dir_path.as_str(), temp_file_name.as_str());
        self.temp_files.push(StagedFile { temp_file_name, target_path });
        proof {
            assert(final(self)@.temp_files =~= old(self)@.temp_files.push(
                StagedSpec { temp_file_name: temp_file_name@, target_path: target_path@ },
            ));
        }
        path
    }

    /// Stages a file for `target_path` under a fresh random name of sixteen
    /// letters and digits; gives the path at which the caller is to create
    /// and write it.  The path lies directly in `tmp/`; no other file is
    /// touched before the commit.
    pub fn create(&mut self, target_path: String) -> (path: String)
        ensures
            path@.len() == old(self)@.temp_dir_path.len() + 17,
            path@.take((old(self)@.temp_dir_path.len() + 1) as int) == old(self)@.temp_dir_path + "/"@,
            forall|i: int|
                old(self)@.temp_dir_path.len() < i < path@.len() ==> is_ascii_alphanumeric(
                    #[trigger] path@[i],
                ),
            final(self)@.temp_dir_path == old(self)@.temp_dir_path,
            final(self)@.delete_files == old(self)@.delete_files,
            final(self)@.temp_files.len() == old(self)@.temp_files.len() + 1,
            final(self)@.temp_files.drop_last() == old(self)@.temp_files,
            final(self)@.temp_files.last().target_path == target_path@,
            path@ == temp_path(
                old(self)@.temp_dir_path,
                final(self)@.temp_files.last().temp_file_name,
            ),
    {
        let temp_file_name = random_temp_name();
        let ghost name = temp_file_name@;
        let path = self.stage(temp_file_name, target_path);
        proof {
            reveal_strlit("/");
            let dir = old(self)@.temp_dir_path;
            assert(path@.take((dir.len() + 1) as int) =~= dir + "/"@);
            assert forall|i: int| dir.len() < i < path@.len() implies is_ascii_alphanumeric(
                #[trigger] path@[i],
            ) by {
                assert(path@[i] == name[i - dir.len() - 1]);
            }
            assert(final(self)@.temp_files.drop_last() =~= old(self)@.temp_files);
        }
        path
    }

    /// Notes a file for deletion at the commit.  Nothing is deleted now.
    pub fn delete(&mut self, delete_path: String)
        ensures
            final(self)@ == (WriterSpec {
                delete_files: old(self)@.delete_files.push(delete_path@),
                ..old(self)@
            }),
    {
        self.delete_files.push(delete_path);
        proof {
            assert(final(self)@.delete_files =~= old(self)@.delete_files.push(delete_path@));
        }
    }

    /// Whether anything is staged or noted.
    pub fn changes(&self) -> (any: bool)
        ensures
            any == (self@.temp_files.len() > 0 || self@.delete_files.len() > 0),
    {
        !self.delete_files.is_empty() || !self.temp_files.is_empty()
    }

    /// The steps of the commit, in the order in which they are to be taken.
    /// The lists are left as they are; `committed` empties them once all
    /// steps have been taken.
    pub fn commit(&self) -> (steps: Vec<FileAction>)
        ensures
            action_views(steps@) == self@.commit_steps(),
    {
        let mut steps: Vec<FileAction> = Vec::new();
        let mut i: usize = 0;
        while i < self.temp_files.len()
            invariant
                i <= self.temp_files@.len(),
                action_views(steps@) == self@.sync_steps().take(i as int),
            decreases self.temp_files@.len() - i,
        {
            let path = join_path(
                self.temp_dir_path.as_str(),
                self.temp_files[i].temp_file_name.as_str(),
            );
            let ghost done = action_views(steps@);
            let step = FileAction::Sync(path);
            let ghost shown = step@;
            steps.push(step);
            proof {
                assert(action_views(steps@) =~= done.push(shown));
                assert(self@.sync_steps().take(i + 1) =~= self@.sync_steps().take(i as int).push(
                    shown,
                ));
            }
            i = i + 1;
        }
        proof {
            assert(self@.sync_steps().take(i as int) =~= self@.sync_steps());
            assert(action_views(steps@) =~= self@.sync_steps() + self@.rename_steps().take(0));
        }
        let mut j: usize = 0;
        while j < self.temp_files.len()
            invariant
                j <= self.temp_files@.len(),
                action_views(steps@) == self@.sync_steps() + self@.rename_steps().take(2 * j),
            decreases self.temp_files@.len() - j,
        {
            let file = &self.temp_files[j];
            let from = join_path(self.temp_dir_path.as_str(), file.temp_file_name.as_str());
            let ghost done = action_views(steps@);
            let first = FileAction::CreateParentDirs(file.target_path.clone());
            let second = FileAction::Rename(from, file.target_path.clone());
            let ghost first_shown = first@;
            let ghost second_shown = second@;
            steps.push(first);
            steps.push(second);
            proof {
                assert(action_views(steps@) =~= done.push(first_shown).push(second_shown));
                assert(self@.rename_steps()[2 * j] == first_shown);
                assert(self@.rename_steps()[2 * j + 1] == second_shown);
                assert(self@.rename_steps().take(2 * (j + 1)) =~= self@.rename_steps().take(
                    2 * j,
                ).push(first_shown).push(second_shown));
                assert(action_views(steps@) =~= self@.sync_steps() + self@.rename_steps().take(
                    2 * (j + 1),
                ));
            }
            j = j + 1;
        }
        proof {
            assert(self@.rename_steps().take(2 * j) =~= self@.rename_steps());
            assert(action_views(steps@) =~= self@.sync_steps() + self@.rename_steps()
                + self@.delete_steps().take(0));
        }
        let mut k: usize = 0;
        while k < self.delete_files.len()
            invariant
                k <= self.delete_files@.len(),
                action_views(steps@) == self@.sync_steps() + self@.rename_steps()
                    + self@.delete_steps().take(k as int),
            decreases self.delete_files@.len() - k,
        {
            let ghost done = action_views(steps@);
            let step = FileAction::Unlink(self.delete_files[k].clone());
            let ghost shown = step@;
            steps.push(step);
            proof {
                assert(action_views(steps@) =~= done.push(shown));
                assert(self@.delete_steps().take(k + 1) =~= self@.delete_steps().take(
                    k as int,
                ).push(shown));
                assert(action_views(steps@) =~= self@.sync_steps() + self@.rename_steps()
                    + self@.delete_steps().take(k + 1));
            }
            k = k + 1;
        }
        proof {
            assert(self@.delete_steps().take(k as int) =~= self@.delete_steps());
        }
        steps
    }

    /// Takes note that every step of the commit has been taken: nothing is
    /// staged or noted any more.
    pub fn committed(&mut self)
        ensures
            final(self)@ == (WriterSpec {
                temp_files: Seq::empty(),
                delete_files: Seq::empty(),
                ..old(self)@
            }),
    {
        self.temp_files.clear();
        self.delete_files.clear();
        proof {
            assert(final(self)@.temp_files =~= Seq::<StagedSpec>::empty());
            assert(final(self)@.delete_files =~= Seq::<Seq<char>>::empty());
        }
    }

    /// The steps that undo the transaction, for when it is dropped.
    pub fn rollback(&self) -> (steps: Vec<FileAction>)
        ensures
            action_views(steps@) == self@.rollback_steps(),
    {
        let mut steps: Vec<FileAction> = Vec::new();
        let mut i: usize = 0;
        while i < self.temp_files.len()
            invariant
                i <= self.temp_files@.len(),
                steps@.len() == i,
                forall|k: int|
                    0 <= k < i ==> (#[trigger] steps@[k])@ == ActionSpec::Unlink(
                        temp_path(self@.temp_dir_path, self@.temp_files[k].temp_file_name),
                    ),
            decreases self.temp_files@.len() - i,
        {
            let path = join_path(
                self.temp_dir_path.as_str(),
                self.temp_files[i].temp_file_name.as_str(),
            );
            steps.push(FileAction::Unlink(path));
            i = i + 1;
        }
        steps.push(FileAction::RemoveDir(self.temp_dir_path.clone()));
        steps.push(FileAction::ReleaseLock);
        proof {
            assert(action_views(steps@) =~= self@.rollback_steps());
        }
        steps
    }
}

/// A transaction that is dropped before its commit leaves the live
/// directories as they were: staging and noting add no step to the
/// rollback but the deletion of the staged file itself, and every file that
/// the rollback deletes lies directly in `tmp/`.
pub proof fn lemma_rollback_stays_in_tmp(writer: WriterSpec, k: int)
    requires
        0 <= k < writer.rollback_steps().len(),
    ensures
        match writer.rollback_steps()[k] {
            ActionSpec::Unlink(path) => k < writer.temp_files.len() && path == temp_path(
                writer.temp_dir_path,
                writer.temp_files[k].temp_file_name,
            ),
            ActionSpec::RemoveDir(path) => path == writer.temp_dir_path,
            ActionSpec::ReleaseLock => true,
            _ => false,
        },
{
}

} // verus!

//! Checking that every chunk a backup refers to is indexed, and setting
//! broken backups aside.

use crate::data::ChunkId;
use crate::digest::{sha1, sha1_of};
use crate::hex::{encode_hex, hex_string, lemma_hex_digit_value};
use crate::idmap::IdList;
use crate::index_cache::{IndexCache, IndexEntry};
use crate::text::{append_decimal, decimal_text};
use vstd::prelude::*;
use vstd::string::StringSliceAdditionalSpecFns;

verus! {

/// Whether `text` begins with `prefix`.
pub open spec fn has_prefix(text: Seq<char>, prefix: Seq<char>) -> bool {
    prefix.len() <= text.len() && text.take(prefix.len() as int) == prefix
}

/// The hexadecimal text of any bytes is ASCII.
pub proof fn lemma_hex_string_ascii(bytes: Seq<u8>)
    ensures
        vstd::utf8::is_ascii_chars(hex_string(bytes)),
{
    assert forall|i: int| 0 <= i < hex_string(bytes).len() implies '\0' <= #[trigger] hex_string(
        bytes,
    )[i] <= '\u{7f}' by {
        lemma_hex_digit_value(bytes[i / 2] as int / 16);
        lemma_hex_digit_value(bytes[i / 2] as int % 16);
    }
}

/// Whether the hexadecimal text of `digest` begins with `prefix`.
pub fn hash_has_prefix(digest: &[u8], prefix: &str) -> (matches: bool)
    ensures
        matches == has_prefix(hex_string(digest@), prefix@),
{
    broadcast use vstd::string::is_ascii_spec_bytes;

    let text = encode_hex(digest);
    proof {
        lemma_hex_string_ascii(digest@);
    }
    if !prefix.is_ascii() {
        proof {
            if has_prefix(text@, prefix@) {
                assert forall|i: int| 0 <= i < prefix@.len() implies '\0' <= #[trigger] prefix@[i]
                    <= '\u{7f}' by {
                    assert(prefix@[i] == text@.take(prefix@.len() as int)[i]);
                    assert(prefix@[i] == text@[i]);
                }
            }
        }
        return false;
    }
    let text_str = text.as_str();
    let text_bytes = text_str.as_bytes();
    let prefix_bytes = prefix.as_bytes();
    proof {
        assert(vstd::string::is_ascii(text_str));
        assert(vstd::string::is_ascii(prefix));
        assert(text_bytes@ == text_str.spec_bytes());
        assert(prefix_bytes@ == prefix.spec_bytes());
        assert(text_bytes@.len() == text@.len());
        assert(prefix_bytes@.len() == prefix@.len());
    }
    if prefix_bytes.len() > text_bytes.len() {
        return false;
    }
    let mut i: usize = 0;
    while i < prefix_bytes.len()
        invariant
            i <= prefix_bytes@.len() <= text_bytes@.len(),
            text@ == hex_string(digest@),
            text_bytes@.len() == text@.len(),
            prefix_bytes@.len() == prefix@.len(),
            vstd::utf8::is_ascii_chars(text@),
            vstd::utf8::is_ascii_chars(prefix@),
            forall|k: int| 0 <= k < text@.len() ==> text_bytes@[k] == text@[k] as u8,
            forall|k: int| 0 <= k < prefix@.len() ==> prefix_bytes@[k] == prefix@[k] as u8,
            text@.take(i as int) == prefix@.take(i as int),
        decreases prefix_bytes@.len() - i,
    {
        if text_bytes[i] != prefix_bytes[i] {
            proof {
                if has_prefix(text@, prefix@) {
                    assert(text@.take(prefix@.len() as int)[i as int] == prefix@[i as int]);
                }
            }
            return false;
        }
        proof {
            let a = text@[i as int];
            let b = prefix@[i as int];
            assert('\0' <= a <= '\u{7f}');
            assert('\0' <= b <= '\u{7f}');
            assert(a as u8 == b as u8);
            assert(a == b);
            assert(text@.take(i + 1) =~= text@.take(i as int).push(a));
            assert(prefix@.take(i + 1) =~= prefix@.take(i as int).push(b));
        }
        i = i + 1;
    }
    proof {
        assert(prefix@.take(i as int) =~= prefix@);
    }
    true
}

/// Whether a backup is among those to check: all are where no prefix is
/// given; with a prefix, those whose name's SHA-1, in hexadecimal, begins
/// with it.
pub fn backup_name_matches(backup_name: &[u8], backup_name_hash_prefix: &Option<String>) -> (matches:
    bool)
    ensures
        matches == match backup_name_hash_prefix {
            None => true,
            Some(prefix) => backup_name@.len() < 0x2000_0000_0000_0000 && has_prefix(
                hex_string(sha1_of(backup_name@)),
                prefix@,
            ),
        },
{
    match backup_name_hash_prefix {
        None => true,
        Some(prefix) => match sha1(backup_name) {
            Some(digest) => hash_has_prefix(digest.as_slice(), prefix.as_str()),
            None => false,
        },
    }
}

/// The chunks among `chunks` that are not indexed, in order.
pub open spec fn missing_of(chunks: Seq<ChunkId>, index: Map<ChunkId, IndexEntry>) -> Seq<ChunkId>
    decreases chunks.len(),
{
    if chunks.len() == 0 {
        Seq::empty()
    } else {
        let front = missing_of(chunks.drop_last(), index);
        if index.contains_key(chunks.last()) {
            front
        } else {
            front.push(chunks.last())
        }
    }
}

/// What the check of one backup found.
#[derive(Clone, Debug, PartialEq, Eq)]
pub struct BackupVerdict {
    /// Whether the backup could be expanded through all its rounds.
    pub expanded: bool,
    /// The chunks it refers to that are not indexed.
    pub missing_chunks: Vec<ChunkId>,
    /// How many chunks it refers to.
    pub total_chunks: usize,
}

impl BackupVerdict {
    /// A backup is broken if it could not be expanded or refers to a chunk
    /// that is not indexed.
    pub open spec fn spec_broken(&self) -> bool {
        !self.expanded || self.missing_chunks@.len() > 0
    }

    /// Whether the backup is broken.
    #[verifier::when_used_as_spec(spec_broken)]
    pub fn broken(&self) -> (broken: bool)
        ensures
            broken == self.spec_broken(),
    {
        !self.expanded || self.missing_chunks.len() > 0
    }
}

/// What the operator is told of a broken backup.
pub open spec fn verdict_text(backup_name: Seq<char>, expanded: bool, missing: nat, total: nat)
    -> Seq<char> {
    if !expanded {
        "Backup "@ + backup_name + " could not be expanded due to missing chunks"@
    } else {
        "Backup "@ + backup_name + " is missing "@ + decimal_text(missing) + " out of "@
            + decimal_text(total) + " chunks"@
    }
}

impl BackupVerdict {
    /// What the operator is told of the backup: nothing where it is
    /// intact.
    pub fn message(&self, backup_name: &str) -> (message: Option<String>)
        ensures
            match message {
                Some(text) => self.spec_broken() && text@ == verdict_text(
                    backup_name@,
                    self.expanded,
                    self.missing_chunks@.len(),
                    self.total_chunks as nat,
                ),
                None => !self.spec_broken(),
            },
    {
        if !self.expanded {
            let mut text = String::from_str("Backup ");
            text.append(backup_name);
            text.append(" could not be expanded due to missing chunks");
            Some(text)
        } else if self.missing_chunks.len() > 0 {
            let mut text = String::from_str("Backup ");
            text.append(backup_name);
            text.append(" is missing ");
            append_decimal(&mut text, self.missing_chunks.len() as u64);
            text.append(" out of ");
            append_decimal(&mut text, self.total_chunks as u64);
            text.append(" chunks");
            Some(text)
        } else {
            None
        }
    }
}

/// Checks one backup: `backup_chunks` are the chunks found in it, each
/// once, and `backup_expanded` says whether its expansion went through.
pub fn check_backup(backup_expanded: bool, backup_chunks: &IdList, index: &IndexCache) -> (verdict:
    BackupVerdict)
    requires
        index@ is Some,
    ensures
        verdict.expanded == backup_expanded,
        verdict.missing_chunks@ == missing_of(backup_chunks.order(), index@->0),
        verdict.total_chunks == backup_chunks.order().len(),
{
    let chunks = backup_chunks.ids();
    let mut missing_chunks: Vec<ChunkId> = Vec::new();
    let mut i: usize = 0;
    proof {
        assert(chunks@.take(0) =~= Seq::<ChunkId>::empty());
    }
    while i < chunks.len()
        invariant
            i <= chunks@.len(),
            index@ is Some,
            missing_chunks@ == missing_of(chunks@.take(i as int), index@->0),
        decreases chunks@.len() - i,
    {
        proof {
            assert(chunks@.take(i + 1).drop_last() =~= chunks@.take(i as int));
            assert(chunks@.take(i + 1).last() == chunks@[i as int]);
        }
        if !index.has_chunk(&chunks[i]) {
            missing_chunks.push(chunks[i]);
        }
        i = i + 1;
    }
    proof {
        assert(chunks@.take(i as int) =~= chunks@);
    }
    BackupVerdict { expanded: backup_expanded, missing_chunks, total_chunks: chunks.len() }
}

/// A backup that was checked: its path below `backups/`, and whether it is
/// broken.
#[derive(Clone, Debug, PartialEq, Eq)]
pub struct CheckedBackup {
    pub backup_name: String,
    pub broken: bool,
}

/// A broken backup to move out of the way.
#[derive(Clone, Debug, PartialEq, Eq)]
pub struct BackupMove {
    pub from: String,
    pub to: String,
}

/// What a `BackupMove` stands for.
pub struct MoveSpec {
    pub from: Seq<char>,
    pub to: Seq<char>,
}

impl View for BackupMove {
    type V = MoveSpec;

    open spec fn view(&self) -> MoveSpec {
        MoveSpec { from: self.from@, to: self.to@ }
    }
}

/// What the moves in a vector stand for.
pub open spec fn move_views(moves: Seq<BackupMove>) -> Seq<MoveSpec> {
    moves.map_values(|m: BackupMove| m@)
}

/// The path of a backup.
pub open spec fn backup_path(repository_path: Seq<char>, backup_name: Seq<char>) -> Seq<char> {
    repository_path + "/backups/"@ + backup_name
}

/// The path that a broken backup is moved to: the same path below
/// `backups-broken/` as it had below `backups/`.
pub open spec fn broken_backup_path(repository_path: Seq<char>, backup_name: Seq<char>) -> Seq<
    char,
> {
    repository_path + "/backups-broken/"@ + backup_name
}

/// The moves of the broken backups among `checked`, in order.
pub open spec fn broken_moves(repository_path: Seq<char>, checked: Seq<CheckedBackup>) -> Seq<
    MoveSpec,
>
    decreases checked.len(),
{
    if checked.len() == 0 {
        Seq::empty()
    } else {
        let front = broken_moves(repository_path, checked.drop_last());
        if checked.last().broken {
            front.push(
                MoveSpec {
                    from: backup_path(repository_path, checked.last().backup_name@),
                    to: broken_backup_path(repository_path, checked.last().backup_name@),
                },
            )
        } else {
            front
        }
    }
}

/// How many of the backups are broken.
pub open spec fn broken_count(checked: Seq<CheckedBackup>) -> nat
    decreases checked.len(),
{
    if checked.len() == 0 {
        0
    } else {
        broken_count(checked.drop_last()) + if checked.last().broken {
            1nat
        } else {
            0nat
        }
    }
}

/// What a check of the backups comes to.
#[derive(Clone, Debug, PartialEq, Eq)]
pub struct CheckBackupsReport {
    /// How many backups were checked.
    pub checked_backup_count: u64,
    /// How many of them are broken.
    pub error_backup_count: u64,
    /// The broken backups to move, where they are to be moved.
    pub moves: Vec<BackupMove>,
}

/// The summary of a check in words.
pub open spec fn summary_text(checked: nat, errors: nat, move_broken: bool) -> Seq<char> {
    if errors > 0 {
        (if move_broken {
            "Moved "@
        } else {
            "Found "@
        }) + decimal_text(errors) + " backups with errors out of "@ + decimal_text(checked)
            + " checked"@
    } else {
        "All chunks present for "@ + decimal_text(checked) + " backups checked"@
    }
}

impl CheckBackupsReport {
    /// The summary in words, for the operator.
    pub fn message(&self, move_broken: bool) -> (message: String)
        ensures
            message@ == summary_text(
                self.checked_backup_count as nat,
                self.error_backup_count as nat,
                move_broken,
            ),
    {
        if self.error_backup_count > 0 {
            let mut message = if move_broken {
                String::from_str("Moved ")
            } else {
                String::from_str("Found ")
            };
            append_decimal(&mut message, self.error_backup_count);
            message.append(" backups with errors out of ");
            append_decimal(&mut message, self.checked_backup_count);
            message.append(" checked");
            message
        } else {
            let mut message = String::from_str("All chunks present for ");
            append_decimal(&mut message, self.checked_backup_count);
            message.append(" backups checked");
            message
        }
    }
}

fn join3(a: &str, b: &str, c: &str) -> (path: String)
    ensures
        path@ == a@ + b@ + c@,
{
    let mut path = String::from_str(a);
    path.append(b);
    path.append(c);
    path
}

/// Sums up a check of the backups.
///
/// The check itself changes nothing.  Without `move_broken` nothing is to
/// be moved.  With it, every broken backup, and no other, is to be moved
/// from its path below `backups/` to the same path below
/// `backups-broken/`.
pub fn check_backups(repository_path: &str, checked: &Vec<CheckedBackup>, move_broken: bool) -> (report:
    CheckBackupsReport)
    requires
        checked@.len() <= u64::MAX,
    ensures
        report.checked_backup_count == checked@.len(),
        report.error_backup_count == broken_count(checked@),
        !move_broken ==> report.moves@.len() == 0,
        move_broken ==> move_views(report.moves@) == broken_moves(repository_path@, checked@),
{
    let mut moves: Vec<BackupMove> = Vec::new();
    let mut error_backup_count: u64 = 0;
    let mut i: usize = 0;
    proof {
        assert(checked@.take(0) =~= Seq::<CheckedBackup>::empty());
        assert(move_views(moves@) =~= Seq::<MoveSpec>::empty());
    }
    while i < checked.len()
        invariant
            i <= checked@.len() <= u64::MAX,
            error_backup_count == broken_count(checked@.take(i as int)),
            error_backup_count <= i,
            !move_broken ==> moves@.len() == 0,
            move_broken ==> move_views(moves@) == broken_moves(
                repository_path@,
                checked@.take(i as int),
            ),
        decreases checked@.len() - i,
    {
        proof {
            assert(checked@.take(i + 1).drop_last() =~= checked@.take(i as int));
            assert(checked@.take(i + 1).last() == checked@[i as int]);
        }
        if checked[i].broken {
            if move_broken {
                let name = checked[i].backup_name.as_str();
                let ghost done = move_views(moves@);
                let step = BackupMove {
                    from: join3(repository_path, "/backups/", name),
                    to: join3(repository_path, "/backups-broken/", name),
                };
                let ghost shown = step@;
                moves.push(step);
                proof {
                    assert(move_views(moves@) =~= done.push(shown));
                }
            }
            error_backup_count = error_backup_count + 1;
        }
        i = i + 1;
    }
    proof {
        assert(checked@.take(i as int) =~= checked@);
    }
    CheckBackupsReport { checked_backup_count: checked.len() as u64, error_backup_count, moves }
}

} // verus!

//! What a backup says: its instruction stream, the bytes it expands to, and
//! the chunks it refers to.

use crate::data::ChunkId;
use crate::digest::{sha256, sha256_of, verify_checksum, checksum_message};
use crate::disk_format::{frame_decode, read_frame};
use crate::error::{Error, ErrorKind};
use crate::hex::hex_string;
use crate::idmap::{IdList, IdMap};
use crate::records::{
    copy_bytes, instruction_decode, BackupInfo, BackupInstruction, InstructionSpec,
};
use vstd::prelude::*;
use vstd::slice::slice_subrange;

verus! {

/// Reads framed instructions until the bytes run out.
#[verifier::opaque]
pub open spec fn instructions_decode(bytes: Seq<u8>) -> Option<Seq<InstructionSpec>>
    decreases bytes.len(),
{
    if bytes.len() == 0 {
        Some(Seq::empty())
    } else {
        match frame_decode(bytes) {
            None => None,
            Some((record, k)) => if !(1 <= k <= bytes.len()) {
                None
            } else {
                match instruction_decode(record) {
                    None => None,
                    Some(instruction) => match instructions_decode(bytes.skip(k as int)) {
                        None => None,
                        Some(rest) => Some(seq![instruction] + rest),
                    },
                }
            },
        }
    }
}

/// What the instructions in a vector stand for.
pub open spec fn instruction_views(instructions: Seq<BackupInstruction>) -> Seq<InstructionSpec> {
    instructions.map_values(|i: BackupInstruction| i@)
}

/// What a stream decodes to when `done` has been read and `rest` is what
/// the remaining bytes decode to.
pub open spec fn prepend_instructions(
    done: Seq<InstructionSpec>,
    rest: Option<Seq<InstructionSpec>>,
) -> Option<Seq<InstructionSpec>> {
    match rest {
        Some(tail) => Some(done + tail),
        None => None,
    }
}

/// How reading a stream goes on after one instruction has been read.
pub proof fn lemma_instructions_decode_step(bytes: Seq<u8>)
    ensures
        instructions_decode(bytes) == if bytes.len() == 0 {
            Some(Seq::empty())
        } else {
            match frame_decode(bytes) {
                None => None,
                Some((record, k)) => if !(1 <= k <= bytes.len()) {
                    None
                } else {
                    match instruction_decode(record) {
                        None => None,
                        Some(instruction) => prepend_instructions(
                            seq![instruction],
                            instructions_decode(bytes.skip(k as int)),
                        ),
                    }
                },
            }
        },
{
    reveal(instructions_decode);
}

/// Reads an instruction stream.  Fails with `CorruptFile` exactly where
/// the bytes are not a run of framed instructions.
pub fn read_instructions(data: &[u8]) -> (found: Result<Vec<BackupInstruction>, Error>)
    ensures
        match found {
            Ok(instructions) => instructions_decode(data@) == Some(
                instruction_views(instructions@),
            ),
            Err(e) => instructions_decode(data@).is_none() && e.kind == ErrorKind::CorruptFile,
        },
{
    let mut instructions: Vec<BackupInstruction> = Vec::new();
    let mut pos: usize = 0;
    proof {
        assert(data@.skip(0) =~= data@);
        assert(instruction_views(instructions@) =~= Seq::<InstructionSpec>::empty());
        if let Some(tail) = instructions_decode(data@) {
            assert(Seq::<InstructionSpec>::empty() + tail =~= tail);
        }
    }
    while pos < data.len()
        invariant
            pos <= data@.len(),
            instructions_decode(data@) == prepend_instructions(
                instruction_views(instructions@),
                instructions_decode(data@.skip(pos as int)),
            ),
        decreases data@.len() - pos,
    {
        let ghost here = data@.skip(pos as int);
        let ghost done = instruction_views(instructions@);
        proof {
            lemma_instructions_decode_step(here);
        }
        let (start, end) = match read_frame(data, pos) {
            Some(range) => range,
            None => {
                return Err(Error::new(ErrorKind::CorruptFile, "Error reading backup instruction"));
            },
        };
        let instruction = match BackupInstruction::parse(slice_subrange(data, start, end)) {
            Some(instruction) => instruction,
            None => {
                return Err(Error::new(ErrorKind::CorruptFile, "Error reading backup instruction"));
            },
        };
        let ghost shown = instruction@;
        instructions.push(instruction);
        proof {
            assert(here.skip(end - pos) =~= data@.skip(end as int));
            assert(instruction_views(instructions@) =~= done.push(shown));
            if let Some(tail) = instructions_decode(data@.skip(end as int)) {
                assert(done + (seq![shown] + tail) =~= done.push(shown) + tail);
            }
        }
        pos = end;
    }
    proof {
        lemma_instructions_decode_step(data@.skip(pos as int));
        assert(instruction_views(instructions@) + Seq::<InstructionSpec>::empty()
            =~= instruction_views(instructions@));
    }
    Ok(instructions)
}

/// The chunks that are at hand, each with its bytes.
pub struct ChunkStore {
    chunks: IdMap<Vec<u8>>,
}

impl View for ChunkStore {
    type V = Map<ChunkId, Seq<u8>>;

    closed spec fn view(&self) -> Map<ChunkId, Seq<u8>> {
        self.chunks@.map_values(|data: Vec<u8>| data@)
    }
}

impl ChunkStore {
    /// A store without chunks.
    pub fn new() -> (store: ChunkStore)
        ensures
            store@ == Map::<ChunkId, Seq<u8>>::empty(),
    {
        let store = ChunkStore { chunks: IdMap::new() };
        proof {
            assert(store@ =~= Map::<ChunkId, Seq<u8>>::empty());
        }
        store
    }

    /// Puts the bytes of a chunk in the store.
    pub fn insert(&mut self, chunk_id: ChunkId, data: Vec<u8>)
        ensures
            final(self)@ == old(self)@.insert(chunk_id, data@),
    {
        self.chunks.insert(chunk_id, data);
        proof {
            assert(final(self)@ =~= old(self)@.insert(chunk_id, data@));
        }
    }

    /// Whether the chunk is in the store.
    pub fn contains(&self, chunk_id: &ChunkId) -> (found: bool)
        ensures
            found == self@.contains_key(*chunk_id),
    {
        self.chunks.contains_key(chunk_id)
    }

    /// The bytes of a chunk, if it is in the store.
    pub fn get(&self, chunk_id: &ChunkId) -> (data: Option<&Vec<u8>>)
        ensures
            match data {
                Some(bytes) => self@.contains_key(*chunk_id) && self@[*chunk_id] == bytes@,
                None => !self@.contains_key(*chunk_id),
            },
    {
        self.chunks.get(chunk_id)
    }
}

/// Why an instruction stream cannot be followed.
pub enum FollowError {
    /// The bytes are not a run of framed instructions.
    Corrupt,
    /// An instruction has neither a chunk nor literal bytes.
    EmptyInstruction,
    /// The chunk is not to be had.
    MissingChunk(ChunkId),
}

/// The bytes that one instruction emits: the chunk's bytes first, then the
/// literal bytes.
pub open spec fn emitted(instruction: InstructionSpec, store: Map<ChunkId, Seq<u8>>) -> Result<
    Seq<u8>,
    FollowError,
> {
    match (instruction.chunk, instruction.bytes) {
        (Some(chunk_id), Some(bytes)) => if store.contains_key(chunk_id) {
            Ok(store[chunk_id] + bytes)
        } else {
            Err(FollowError::MissingChunk(chunk_id))
        },
        (Some(chunk_id), None) => if store.contains_key(chunk_id) {
            Ok(store[chunk_id])
        } else {
            Err(FollowError::MissingChunk(chunk_id))
        },
        (None, Some(bytes)) => Ok(bytes),
        (None, None) => Err(FollowError::EmptyInstruction),
    }
}

/// The bytes that a run of instructions emits, in strict instruction order.
/// The first instruction that cannot be followed decides the failure.
pub open spec fn follow_all(instructions: Seq<InstructionSpec>, store: Map<ChunkId, Seq<u8>>)
    -> Result<Seq<u8>, FollowError>
    decreases instructions.len(),
{
    if instructions.len() == 0 {
        Ok(Seq::empty())
    } else {
        match follow_all(instructions.drop_last(), store) {
            Err(e) => Err(e),
            Ok(front) => match emitted(instructions.last(), store) {
                Err(e) => Err(e),
                Ok(bytes) => Ok(front + bytes),
            },
        }
    }
}

/// The bytes that an instruction stream expands to.
pub open spec fn follow(input: Seq<u8>, store: Map<ChunkId, Seq<u8>>) -> Result<
    Seq<u8>,
    FollowError,
> {
    match instructions_decode(input) {
        None => Err(FollowError::Corrupt),
        Some(instructions) => follow_all(instructions, store),
    }
}

/// The result of expanding `data` as an instruction stream `rounds` times
/// over, each round's output being the next round's instructions.
pub open spec fn expand(data: Seq<u8>, rounds: nat, store: Map<ChunkId, Seq<u8>>) -> Result<
    Seq<u8>,
    FollowError,
>
    decreases rounds,
{
    if rounds == 0 {
        Ok(data)
    } else {
        match follow(data, store) {
            Err(e) => Err(e),
            Ok(out) => expand(out, (rounds - 1) as nat, store),
        }
    }
}

/// Whether `e` reports the failure `f`.
pub open spec fn reports(e: Error, f: FollowError) -> bool {
    match f {
        FollowError::Corrupt => e.kind == ErrorKind::CorruptFile,
        FollowError::EmptyInstruction => e.kind == ErrorKind::CorruptBackup && e.message@
            == "Instruction with neither chunk or bytes"@,
        FollowError::MissingChunk(chunk_id) => e.kind == ErrorKind::NotFound && e.message@
            == "Missing chunk: "@ + hex_string(chunk_id@),
    }
}

/// Whether what was computed is what was to be computed.
pub open spec fn computes(found: Result<Vec<u8>, Error>, target: Result<Seq<u8>, FollowError>)
    -> bool {
    match (found, target) {
        (Ok(out), Ok(bytes)) => out@ == bytes,
        (Err(e), Err(f)) => reports(e, f),
        _ => false,
    }
}

/// The failure for a chunk that is not to be had.
pub fn missing_chunk(chunk_id: ChunkId) -> (e: Error)
    ensures
        reports(e, FollowError::MissingChunk(chunk_id)),
{
    let name = chunk_id.to_hex();
    Error::with_detail(ErrorKind::NotFound, "Missing chunk: ", name.as_str())
}

fn append_bytes(out: &mut Vec<u8>, bytes: &Vec<u8>)
    ensures
        final(out)@ == old(out)@ + bytes@,
{
    let mut copy = copy_bytes(bytes);
    out.append(&mut copy);
}

/// Appends the bytes that one instruction emits.
pub fn follow_instruction(instruction: &BackupInstruction, store: &ChunkStore, out: &mut Vec<u8>) -> (outcome:
    Result<(), Error>)
    ensures
        match (outcome, emitted(instruction@, store@)) {
            (Ok(_), Ok(bytes)) => final(out)@ == old(out)@ + bytes,
            (Err(e), Err(f)) => reports(e, f) && final(out)@ == old(out)@,
            _ => false,
        },
{
    match instruction.chunk_to_emit {
        Some(chunk_id) => {
            match store.get(&chunk_id) {
                Some(data) => {
                    append_bytes(out, data);
                    match &instruction.bytes_to_emit {
                        Some(bytes) => {
                            append_bytes(out, bytes);
                            proof {
                                assert(out@ =~= old(out)@ + (data@ + bytes@));
                            }
                        },
                        None => {},
                    }
                    Ok(())
                },
                None => Err(missing_chunk(chunk_id)),
            }
        },
        None => match &instruction.bytes_to_emit {
            Some(bytes) => {
                append_bytes(out, bytes);
                Ok(())
            },
            None => Err(
                Error::new(ErrorKind::CorruptBackup, "Instruction with neither chunk or bytes"),
            ),
        },
    }
}

/// Expands an instruction stream: every instruction's chunk, then its
/// literal bytes, in strict instruction order.
///
/// Fails with `CorruptFile` where the bytes are no instruction stream,
/// with `CorruptBackup` at an instruction with neither chunk nor bytes, and
/// with `NotFound`, naming the chunk, at a chunk that is not in `store`.
pub fn follow_instructions(input: &[u8], store: &ChunkStore) -> (target: Result<Vec<u8>, Error>)
    ensures
        computes(target, follow(input@, store@)),
{
    let instructions = match read_instructions(input) {
        Ok(instructions) => instructions,
        Err(e) => {
            return Err(e);
        },
    };
    let ghost all = instruction_views(instructions@);
    let mut out: Vec<u8> = Vec::new();
    let mut i: usize = 0;
    proof {
        assert(all.take(0) =~= Seq::<InstructionSpec>::empty());
    }
    while i < instructions.len()
        invariant
            i <= instructions@.len(),
            all == instruction_views(instructions@),
            instructions_decode(input@) == Some(all),
            follow_all(all.take(i as int), store@) == Ok::<Seq<u8>, FollowError>(out@),
        decreases instructions@.len() - i,
    {
        proof {
            assert(all.take(i + 1).drop_last() =~= all.take(i as int));
            assert(all.take(i + 1).last() == instructions@[i as int]@);
        }
        match follow_instruction(&instructions[i], store, &mut out) {
            Ok(_) => {},
            Err(e) => {
                proof {
                    lemma_follow_all_prefix_error(all, i + 1, store@);
                }
                return Err(e);
            },
        }
        i = i + 1;
    }
    proof {
        assert(all.take(i as int) =~= all);
    }
    Ok(out)
}

/// Where the first instructions cannot be followed, the whole run fails the
/// same way.
pub proof fn lemma_follow_all_prefix_error(
    instructions: Seq<InstructionSpec>,
    n: int,
    store: Map<ChunkId, Seq<u8>>,
)
    requires
        0 <= n <= instructions.len(),
        follow_all(instructions.take(n), store) is Err,
    ensures
        follow_all(instructions, store) == follow_all(instructions.take(n), store),
    decreases instructions.len() - n,
{
    if n < instructions.len() {
        assert(instructions.take(n + 1).drop_last() =~= instructions.take(n));
        lemma_follow_all_prefix_error(instructions, n + 1, store);
    } else {
        assert(instructions.take(n) =~= instructions);
    }
}

/// Expands `data` as an instruction stream `rounds` times over.
pub fn expand_backup(data: Vec<u8>, rounds: u32, store: &ChunkStore) -> (target: Result<
    Vec<u8>,
    Error,
>)
    ensures
        computes(target, expand(data@, rounds as nat, store@)),
{
    let mut input = data;
    let mut left: u32 = rounds;
    while left > 0
        invariant
            expand(data@, rounds as nat, store@) == expand(input@, left as nat, store@),
        decreases left,
    {
        match follow_instructions(input.as_slice(), store) {
            Ok(out) => {
                input = out;
            },
            Err(e) => {
                return Err(e);
            },
        }
        left = left - 1;
    }
    Ok(input)
}

/// Whether `backup_name` can name a backup: it is not empty and begins with
/// a slash.
pub open spec fn valid_backup_name(backup_name: Seq<char>) -> bool {
    backup_name.len() > 0 && backup_name[0] == '/'
}

/// Checks the name under which a backup is asked for.
pub fn check_backup_name(backup_name: &str) -> (outcome: Result<(), Error>)
    ensures
        match outcome {
            Ok(_) => valid_backup_name(backup_name@),
            Err(e) => !valid_backup_name(backup_name@) && e.kind == ErrorKind::BadInput
                && e.message@ == if backup_name@.len() == 0 {
                "Backup name must not be empty"@
            } else {
                "Backup name must begin with '/'"@
            },
        },
{
    if backup_name.unicode_len() == 0 {
        return Err(Error::new(ErrorKind::BadInput, "Backup name must not be empty"));
    }
    if backup_name.get_char(0) != '/' {
        return Err(Error::new(ErrorKind::BadInput, "Backup name must begin with '/'"));
    }
    Ok(())
}

/// The bytes that a backup restores to: its instruction bytes expanded once
/// more than its iteration count.
pub open spec fn restored(info: crate::records::BackupInfoSpec, store: Map<ChunkId, Seq<u8>>)
    -> Result<Seq<u8>, FollowError> {
    expand(info.backup_data, (info.iterations + 1) as nat, store)
}

/// The instruction stream of the last round, expanded from the backup's
/// instruction bytes as often as its iteration count says, together with
/// the recorded digest.
pub fn read_and_expand_backup(backup_info: &BackupInfo, store: &ChunkStore) -> (expanded: Result<
    (Vec<u8>, Vec<u8>),
    Error,
>)
    ensures
        match (expanded, expand(backup_info@.backup_data, backup_info@.iterations as nat, store@)) {
            (Ok((input, checksum)), Ok(bytes)) => input@ == bytes && checksum@
                == backup_info@.sha256,
            (Err(e), Err(f)) => reports(e, f),
            _ => false,
        },
{
    let data = copy_bytes(&backup_info.backup_data);
    match expand_backup(data, backup_info.iterations, store) {
        Ok(input) => Ok((input, copy_bytes(&backup_info.sha256))),
        Err(e) => Err(e),
    }
}

/// What restoring a backup is to come to.
pub enum RestoreOutcome {
    /// The restored bytes, which have the recorded SHA-256.
    Restored(Seq<u8>),
    /// The name is empty or does not begin with a slash.
    BadName,
    /// An instruction stream cannot be followed.
    Unfollowable(FollowError),
    /// What the backup expands to does not have the recorded SHA-256, or is
    /// too long to be digested.
    WrongDigest(Seq<u8>),
}

/// What restoring a backup is to come to: the name is looked at first, then
/// the backup is expanded, then the digest of the result is held against
/// the recorded one.
pub open spec fn restore_outcome(
    backup_name: Seq<char>,
    info: crate::records::BackupInfoSpec,
    store: Map<ChunkId, Seq<u8>>,
) -> RestoreOutcome {
    if !valid_backup_name(backup_name) {
        RestoreOutcome::BadName
    } else {
        match restored(info, store) {
            Err(f) => RestoreOutcome::Unfollowable(f),
            Ok(bytes) => if bytes.len() < 0x2000_0000_0000_0000 && sha256_of(bytes)
                == info.sha256 {
                RestoreOutcome::Restored(bytes)
            } else {
                RestoreOutcome::WrongDigest(bytes)
            },
        }
    }
}

/// Whether what `restore` gave back is what restoring was to come to.
pub open spec fn restore_meets(
    target: Result<Vec<u8>, Error>,
    outcome: RestoreOutcome,
    backup_name: Seq<char>,
    expected: Seq<u8>,
) -> bool {
    match outcome {
        RestoreOutcome::Restored(bytes) => target matches Ok(out) && out@ == bytes,
        RestoreOutcome::BadName => target matches Err(e) && e.kind == ErrorKind::BadInput
            && e.message@ == if backup_name.len() == 0 {
            "Backup name must not be empty"@
        } else {
            "Backup name must begin with '/'"@
        },
        RestoreOutcome::Unfollowable(f) => target matches Err(e) && reports(e, f),
        RestoreOutcome::WrongDigest(bytes) => target matches Err(e) && e.kind
            == ErrorKind::IntegrityError && e.message@ == if bytes.len()
            >= 0x2000_0000_0000_0000 {
            "Restored data is too long to be digested"@
        } else {
            checksum_message(expected, sha256_of(bytes))
        },
    }
}

/// Restores a backup from the chunks at hand.
///
/// Succeeds exactly where the name is valid, the backup expands, and the
/// SHA-256 of what it expands to is the recorded one; what is returned then
/// is what it expands to.  The failures come in this order: a bad name is
/// `BadInput`; a stream that cannot be followed fails as
/// `follow_instructions` does; a digest that differs is `IntegrityError`.
pub fn restore(backup_name: &str, backup_info: &BackupInfo, store: &ChunkStore) -> (target: Result<
    Vec<u8>,
    Error,
>)
    ensures
        restore_meets(
            target,
            restore_outcome(backup_name@, backup_info@, store@),
            backup_name@,
            backup_info@.sha256,
        ),
        target matches Ok(out) ==> sha256_of(out@) == backup_info@.sha256,
{
    match check_backup_name(backup_name) {
        Ok(_) => {},
        Err(e) => {
            return Err(e);
        },
    }
    let (input, checksum) = match read_and_expand_backup(backup_info, store) {
        Ok(expanded) => expanded,
        Err(e) => {
            proof {
                lemma_expand_last(
                    backup_info@.backup_data,
                    backup_info@.iterations as nat,
                    store@,
                );
            }
            return Err(e);
        },
    };
    proof {
        lemma_expand_last(backup_info@.backup_data, backup_info@.iterations as nat, store@);
    }
    let out = match follow_instructions(input.as_slice(), store) {
        Ok(out) => out,
        Err(e) => {
            return Err(e);
        },
    };
    let calculated = match sha256(out.as_slice()) {
        Some(calculated) => calculated,
        None => {
            return Err(
                Error::new(ErrorKind::IntegrityError, "Restored data is too long to be digested"),
            );
        },
    };
    match verify_checksum(checksum.as_slice(), calculated.as_slice()) {
        Ok(_) => Ok(out),
        Err(e) => Err(e),
    }
}

/// One more round is one more following of what the rounds before gave.
pub proof fn lemma_expand_last(data: Seq<u8>, rounds: nat, store: Map<ChunkId, Seq<u8>>)
    ensures
        expand(data, rounds + 1, store) == match expand(data, rounds, store) {
            Ok(out) => follow(out, store),
            Err(e) => Err(e),
        },
    decreases rounds,
{
    if rounds > 0 {
        if let Ok(out) = follow(data, store) {
            lemma_expand_last(out, (rounds - 1) as nat, store);
        }
    } else {
        assert(expand(data, 1, store) == match follow(data, store) {
            Ok(out) => expand(out, 0, store),
            Err(e) => Err(e),
        });
    }
}

/// The chunks that a run of instructions refers to.
pub open spec fn chunk_refs(instructions: Seq<InstructionSpec>) -> Set<ChunkId> {
    Set::new(
        |chunk_id: ChunkId|
            exists|i: int|
                0 <= i < instructions.len() && (#[trigger] instructions[i]).chunk == Some(chunk_id),
    )
}

/// Adds to `chunk_ids` the chunks that an instruction stream refers to.
/// Fails with `CorruptFile`, leaving `chunk_ids` as it was, where the bytes
/// are no instruction stream.
pub fn collect_chunks_from_instructions(chunk_ids: &mut IdList, instructions: &[u8]) -> (outcome:
    Result<(), Error>)
    requires
        old(chunk_ids).wf(),
    ensures
        final(chunk_ids).wf(),
        match outcome {
            Ok(_) => instructions_decode(instructions@) matches Some(decoded) && final(chunk_ids)@
                == old(chunk_ids)@.union(chunk_refs(decoded)),
            Err(e) => instructions_decode(instructions@).is_none() && e.kind
                == ErrorKind::CorruptFile && final(chunk_ids)@ == old(chunk_ids)@,
        },
{
    let decoded = match read_instructions(instructions) {
        Ok(decoded) => decoded,
        Err(e) => {
            return Err(e);
        },
    };
    let ghost all = instruction_views(decoded@);
    let mut i: usize = 0;
    proof {
        assert(chunk_ids@ =~= old(chunk_ids)@.union(chunk_refs(all.take(0))));
    }
    while i < decoded.len()
        invariant
            i <= decoded@.len(),
            all == instruction_views(decoded@),
            chunk_ids.wf(),
            chunk_ids@ == old(chunk_ids)@.union(chunk_refs(all.take(i as int))),
        decreases decoded@.len() - i,
    {
        match decoded[i].chunk_to_emit {
            Some(chunk_id) => {
                chunk_ids.insert(chunk_id);
            },
            None => {},
        }
        proof {
            let a = all.take(i as int);
            let b = all.take(i + 1);
            assert(b[i as int] == decoded@[i as int]@);
            assert forall|c: ChunkId| chunk_ids@.contains(c) <==> old(chunk_ids)@.union(
                chunk_refs(b),
            ).contains(c) by {
                if chunk_refs(a).contains(c) {
                    let k = choose|k: int| 0 <= k < a.len() && (#[trigger] a[k]).chunk == Some(c);
                    assert(b[k] == a[k]);
                }
                if chunk_refs(b).contains(c) {
                    let k = choose|k: int| 0 <= k < b.len() && (#[trigger] b[k]).chunk == Some(c);
                    if k < i {
                        assert(a[k] == b[k]);
                    }
                }
                if decoded@[i as int]@.chunk == Some(c) {
                    assert(b[i as int].chunk == Some(c));
                }
            }
            assert(chunk_ids@ =~= old(chunk_ids)@.union(chunk_refs(b)));
        }
        i = i + 1;
    }
    proof {
        assert(all.take(i as int) =~= all);
    }
    Ok(())
}

/// The chunks that a backup refers to, at every round of its expansion:
/// those of its instruction bytes, and those of what each round but the
/// last expands to.  `None` where the expansion fails on the way.
pub open spec fn backup_refs(data: Seq<u8>, rounds: nat, store: Map<ChunkId, Seq<u8>>) -> Option<
    Set<ChunkId>,
>
    decreases rounds,
{
    match instructions_decode(data) {
        None => None,
        Some(decoded) => if rounds == 0 {
            Some(chunk_refs(decoded))
        } else {
            match follow_all(decoded, store) {
                Err(_) => None,
                Ok(out) => match backup_refs(out, (rounds - 1) as nat, store) {
                    Some(deeper) => Some(chunk_refs(decoded).union(deeper)),
                    None => None,
                },
            }
        },
    }
}

/// Adds to `chunk_ids` the chunks that a backup refers to, at every round
/// of its expansion.  Where the expansion fails on the way, the chunks
/// found up to there have been added.
pub fn collect_chunks_from_backup(
    store: &ChunkStore,
    chunk_ids: &mut IdList,
    backup_info: &BackupInfo,
) -> (outcome: Result<(), Error>)
    requires
        old(chunk_ids).wf(),
    ensures
        final(chunk_ids).wf(),
        old(chunk_ids)@.subset_of(final(chunk_ids)@),
        match outcome {
            Ok(_) => backup_refs(backup_info@.backup_data, backup_info@.iterations as nat, store@)
                matches Some(refs) && final(chunk_ids)@ == old(chunk_ids)@.union(refs),
            Err(_) => backup_refs(
                backup_info@.backup_data,
                backup_info@.iterations as nat,
                store@,
            ).is_none(),
        },
{
    let mut input = copy_bytes(&backup_info.backup_data);
    let mut left: u32 = backup_info.iterations;
    let ghost start = chunk_ids@;
    let ghost target = backup_refs(backup_info@.backup_data, backup_info@.iterations as nat, store@);
    let ghost found = Set::<ChunkId>::empty();
    proof {
        assert(chunk_ids@ =~= start.union(found));
    }
    loop
        invariant
            start == old(chunk_ids)@,
            chunk_ids.wf(),
            chunk_ids@ == start.union(found),
            target == backup_refs(
                backup_info@.backup_data,
                backup_info@.iterations as nat,
                store@,
            ),
            target == match backup_refs(input@, left as nat, store@) {
                Some(refs) => Some(found.union(refs)),
                None => None,
            },
        decreases left,
    {
        match collect_chunks_from_instructions(chunk_ids, input.as_slice()) {
            Ok(_) => {},
            Err(e) => {
                return Err(e);
            },
        }
        let ghost decoded = instructions_decode(input@)->0;
        if left == 0 {
            proof {
                assert(chunk_ids@ =~= start.union(found.union(chunk_refs(decoded))));
            }
            return Ok(());
        }
        match follow_instructions(input.as_slice(), store) {
            Ok(out) => {
                proof {
                    let next = found.union(chunk_refs(decoded));
                    assert(chunk_ids@ =~= start.union(next));
                    if let Some(deeper) = backup_refs(out@, (left - 1) as nat, store@) {
                        assert(found.union(chunk_refs(decoded).union(deeper)) =~= next.union(
                            deeper,
                        ));
                    }
                    found = next;
                }
                input = out;
            },
            Err(e) => {
                return Err(e);
            },
        }
        left = left - 1;
    }
}

/// Where the expansion of a backup stands: the instruction stream of the
/// round that is next, and how many rounds follow it before the last.
pub struct RoundsSpec {
    pub data: Seq<u8>,
    pub left: nat,
}

/// The expansion of a backup, round by round, for a caller who fetches the
/// chunks of each round before the round is followed.
pub struct BackupRounds {
    input: Vec<u8>,
    left: u32,
}

impl View for BackupRounds {
    type V = RoundsSpec;

    closed spec fn view(&self) -> RoundsSpec {
        RoundsSpec { data: self.input@, left: self.left as nat }
    }
}

impl BackupRounds {
    /// The expansion of a backup before its first round.
    pub fn new(backup_info: &BackupInfo) -> (rounds: BackupRounds)
        ensures
            rounds@ == (RoundsSpec {
                data: backup_info@.backup_data,
                left: backup_info@.iterations as nat,
            }),
    {
        BackupRounds { input: copy_bytes(&backup_info.backup_data), left: backup_info.iterations }
    }

    /// The instruction stream of the round that is next.
    pub fn stream(&self) -> (input: &Vec<u8>)
        ensures
            input@ == self@.data,
    {
        &self.input
    }

    /// Whether the round that is next is the last: its stream is the one
    /// that the backup restores from.
    pub fn is_last(&self) -> (last: bool)
        ensures
            last == (self@.left == 0),
    {
        self.left == 0
    }

    /// The chunks that the round that is next refers to, each once, in the
    /// order in which the stream names them first.  Fails with
    /// `CorruptFile` where the stream is no instruction stream.
    pub fn chunk_ids(&self) -> (found: Result<Vec<ChunkId>, Error>)
        ensures
            match found {
                Ok(ids) => instructions_decode(self@.data) matches Some(decoded) && ids@.to_set()
                    == chunk_refs(decoded) && ids@.no_duplicates(),
                Err(e) => instructions_decode(self@.data).is_none() && e.kind
                    == ErrorKind::CorruptFile,
            },
    {
        let mut list = IdList::new();
        match collect_chunks_from_instructions(&mut list, self.input.as_slice()) {
            Ok(_) => {},
            Err(e) => {
                return Err(e);
            },
        }
        proof {
            list.lemma_order();
            let decoded = instructions_decode(self@.data)->0;
            assert(Set::<ChunkId>::empty().union(chunk_refs(decoded)) =~= chunk_refs(decoded));
        }
        let ids = list.ids();
        let mut copy: Vec<ChunkId> = Vec::new();
        let mut i: usize = 0;
        while i < ids.len()
            invariant
                i <= ids@.len(),
                copy@ == ids@.take(i as int),
            decreases ids@.len() - i,
        {
            copy.push(ids[i]);
            proof {
                assert(copy@ =~= ids@.take(i + 1));
            }
            i = i + 1;
        }
        proof {
            assert(ids@.take(i as int) =~= ids@);
        }
        Ok(copy)
    }

    /// Follows the round that is next, with the chunks at hand; what it
    /// expands to is the stream of the round after it.  On failure the
    /// expansion stays where it is.
    pub fn follow(&mut self, store: &ChunkStore) -> (outcome: Result<(), Error>)
        requires
            old(self)@.left > 0,
        ensures
            match (outcome, follow(old(self)@.data, store@)) {
                (Ok(_), Ok(bytes)) => final(self)@ == (RoundsSpec {
                    data: bytes,
                    left: (old(self)@.left - 1) as nat,
                }),
                (Err(e), Err(f)) => reports(e, f) && final(self)@ == old(self)@,
                _ => false,
            },
    {
        match follow_instructions(self.input.as_slice(), store) {
            Ok(out) => {
                self.input = out;
                self.left = self.left - 1;
                Ok(())
            },
            Err(e) => Err(e),
        }
    }
}

/// Going through the rounds comes to the expansion: following the round
/// that is next and expanding what it gives through the rounds left is
/// expanding from here.
pub proof fn lemma_rounds_expand(rounds: RoundsSpec, store: Map<ChunkId, Seq<u8>>)
    requires
        rounds.left > 0,
    ensures
        expand(rounds.data, rounds.left, store) == match follow(rounds.data, store) {
            Ok(bytes) => expand(bytes, (rounds.left - 1) as nat, store),
            Err(f) => Err(f),
        },
{
}

} // verus!

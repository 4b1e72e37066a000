//! Reading a restored backup piece by piece: a cursor over the last
//! instruction stream that follows an instruction only when its bytes are
//! asked for.

use crate::backup::{
    emitted, follow_instruction, instruction_views, read_instructions, reports, ChunkStore,
    FollowError, instructions_decode,
};
use crate::data::ChunkId;
use crate::error::{Error, ErrorKind};
use crate::records::{BackupInstruction, InstructionSpec};
use vstd::prelude::*;

verus! {

/// The bytes that the instructions from the `index`-th on emit before the
/// first of them that cannot be followed, and why that one cannot, if there
/// is one.
pub open spec fn readable(
    instructions: Seq<InstructionSpec>,
    index: nat,
    store: Map<ChunkId, Seq<u8>>,
) -> (Seq<u8>, Option<FollowError>)
    decreases instructions.len() - index,
{
    if index >= instructions.len() {
        (Seq::empty(), None)
    } else {
        match emitted(instructions[index as int], store) {
            Err(f) => (Seq::empty(), Some(f)),
            Ok(bytes) => {
                let (rest, failure) = readable(instructions, index + 1, store);
                (bytes + rest, failure)
            },
        }
    }
}

/// The state of a cursor.
pub struct RandomAccessSpec {
    /// The instructions of the backup's last round.
    pub instructions: Seq<InstructionSpec>,
    /// How many of them have been followed.
    pub index: nat,
    /// The bytes that have been emitted and not yet handed out.
    pub pending: Seq<u8>,
}

impl RandomAccessSpec {
    /// What is still to be read: the bytes up to the end or to the first
    /// instruction that cannot be followed, and why that one cannot.
    pub open spec fn remaining(self, store: Map<ChunkId, Seq<u8>>) -> (Seq<u8>, Option<FollowError>) {
        (
            self.pending + readable(self.instructions, self.index, store).0,
            readable(self.instructions, self.index, store).1,
        )
    }
}

/// A cursor over a restored backup.
pub struct RandomAccess {
    instructions: Vec<BackupInstruction>,
    index: usize,
    pending: Vec<u8>,
    position: usize,
}

impl View for RandomAccess {
    type V = RandomAccessSpec;

    closed spec fn view(&self) -> RandomAccessSpec {
        RandomAccessSpec {
            instructions: instruction_views(self.instructions@),
            index: self.index as nat,
            pending: self.pending@.skip(self.position as int),
        }
    }
}

impl RandomAccess {
    /// Whether the cursor's own bookkeeping is in order.
    pub closed spec fn wf(&self) -> bool {
        self.index <= self.instructions@.len() && self.position <= self.pending@.len()
    }

    /// A cursor at the start of the backup whose last instruction stream is
    /// `input`.  Fails with `CorruptFile` where the bytes are no
    /// instruction stream.
    pub fn new(input: &[u8]) -> (cursor: Result<RandomAccess, Error>)
        ensures
            match cursor {
                Ok(c) => c.wf() && instructions_decode(input@) == Some(c@.instructions) && c@.index
                    == 0 && c@.pending.len() == 0,
                Err(e) => instructions_decode(input@).is_none() && e.kind
                    == ErrorKind::CorruptFile,
            },
    {
        match read_instructions(input) {
            Ok(instructions) => Ok(
                RandomAccess { instructions, index: 0, pending: Vec::new(), position: 0 },
            ),
            Err(e) => Err(e),
        }
    }

    /// Reads up to `max` bytes.
    ///
    /// Hands out the next bytes of the backup, as many as `max` unless the
    /// backup ends or an instruction cannot be followed before.  Nothing is
    /// handed out at the end of the backup.  Where an instruction cannot be
    /// followed and nothing is left before it, the read fails as following
    /// it fails, and what is still to be read stays the same.
    pub fn read(&mut self, store: &ChunkStore, max: usize) -> (piece: Result<Vec<u8>, Error>)
        requires
            old(self).wf(),
        ensures
            final(self).wf(),
            final(self)@.instructions == old(self)@.instructions,
            match piece {
                Ok(out) => {
                    let (bytes, failure) = old(self)@.remaining(store@);
                    &&& out@.len() <= max
                    &&& out@.len() <= bytes.len()
                    &&& out@ == bytes.take(out@.len() as int)
                    &&& (out@.len() == max || out@.len() == bytes.len())
                    &&& (out@.len() == 0 && max > 0 ==> failure is None)
                    &&& final(self)@.remaining(store@) == (bytes.skip(out@.len() as int), failure)
                },
                Err(e) => {
                    &&& max > 0
                    &&& old(self)@.remaining(store@).0.len() == 0
                    &&& final(self)@.remaining(store@) == old(self)@.remaining(store@)
                    &&& old(self)@.remaining(store@).1 matches Some(f) && reports(e, f)
                },
            },
    {
        let ghost all = instruction_views(self.instructions@);
        let ghost start = old(self)@.remaining(store@);
        let mut out: Vec<u8> = Vec::new();
        proof {
            assert(start.0.take(0) =~= out@);
            assert(start.0.skip(0) =~= start.0);
        }
        while out.len() < max
            invariant
                self.wf(),
                all == instruction_views(self.instructions@),
                all == old(self)@.instructions,
                start == old(self)@.remaining(store@),
                out@.len() <= max,
                out@.len() <= start.0.len(),
                out@ == start.0.take(out@.len() as int),
                self@.remaining(store@) == (start.0.skip(out@.len() as int), start.1),
            decreases
                    self.instructions@.len() - self.index,
                    self.pending@.len() - self.position,
        {
            let ghost left = start.0.skip(out@.len() as int);
            if self.position < self.pending.len() {
                let byte = self.pending[self.position];
                let ghost before = out@;
                proof {
                    let pending = self.pending@.skip(self.position as int);
                    let more = readable(all, self.index as nat, store@).0;
                    assert(pending[0] == byte);
                    assert(left == pending + more);
                    assert(left.len() > 0);
                    assert(left[0] == byte);
                    assert(before.len() < start.0.len());
                    assert(start.0[before.len() as int] == byte);
                    assert((pending + more).skip(1) =~= pending.skip(1) + more);
                    assert(self.pending@.skip(self.position as int).skip(1) =~= self.pending@.skip(
                        self.position + 1,
                    ));
                }
                out.push(byte);
                self.position = self.position + 1;
                proof {
                    assert(start.0.take(out@.len() as int) =~= start.0.take(
                        before.len() as int,
                    ).push(byte));
                    assert(out@ =~= start.0.take(out@.len() as int));
                    assert(self@.remaining(store@).0 =~= left.skip(1));
                    assert(left.skip(1) =~= start.0.skip(out@.len() as int));
                }
            } else if self.index == self.instructions.len() {
                proof {
                    assert(self.pending@.skip(self.position as int).len() == 0);
                    assert(left.len() == 0);
                }
                return Ok(out);
            } else {
                let mut fresh: Vec<u8> = Vec::new();
                proof {
                    assert(all[self.index as int] == self.instructions@[self.index as int]@);
                    assert(self.pending@.skip(self.position as int) =~= Seq::<u8>::empty());
                }
                match follow_instruction(&self.instructions[self.index], store, &mut fresh) {
                    Ok(_) => {
                        let ghost rest = readable(all, (self.index + 1) as nat, store@).0;
                        proof {
                            assert(fresh@ =~= emitted(all[self.index as int], store@)->Ok_0);
                            assert(Seq::<u8>::empty() + (fresh@ + rest) =~= fresh@.skip(0) + rest);
                        }
                        self.pending = fresh;
                        self.position = 0;
                        self.index = self.index + 1;
                        proof {
                            assert(self@.remaining(store@).0 =~= left);
                        }
                    },
                    Err(e) => {
                        proof {
                            assert(left.len() == 0);
                            assert(start.0.skip(0) =~= start.0);
                        }
                        if out.len() == 0 {
                            return Err(e);
                        }
                        return Ok(out);
                    },
                }
            }
        }
        Ok(out)
    }
}

/// What is readable from a run of instructions with one more at its end.
pub proof fn lemma_readable_push(
    instructions: Seq<InstructionSpec>,
    last: InstructionSpec,
    index: nat,
    store: Map<ChunkId, Seq<u8>>,
)
    requires
        index <= instructions.len(),
    ensures
        readable(instructions.push(last), index, store) == match readable(
            instructions,
            index,
            store,
        ) {
            (bytes, Some(f)) => (bytes, Some(f)),
            (bytes, None) => match emitted(last, store) {
                Ok(more) => (bytes + more, None),
                Err(f) => (bytes, Some(f)),
            },
        },
    decreases instructions.len() - index,
{
    let longer = instructions.push(last);
    if index < instructions.len() {
        assert(longer[index as int] == instructions[index as int]);
        lemma_readable_push(instructions, last, index + 1, store);
        if let Ok(bytes) = emitted(instructions[index as int], store) {
            let (rest, failure) = readable(instructions, index + 1, store);
            if failure.is_none() {
                if let Ok(more) = emitted(last, store) {
                    assert(bytes + (rest + more) =~= (bytes + rest) + more);
                }
            }
        }
    } else {
        assert(longer[index as int] == last);
        assert(readable(longer, index + 1, store) == (Seq::<u8>::empty(), None::<FollowError>));
        if let Ok(more) = emitted(last, store) {
            assert(more + Seq::<u8>::empty() =~= Seq::<u8>::empty() + more);
        }
    }
}

/// Reading piece by piece comes to the same as following the instructions
/// in one go: the same bytes where all can be followed, the same failure
/// where one cannot.
pub proof fn lemma_readable_is_follow(
    instructions: Seq<InstructionSpec>,
    store: Map<ChunkId, Seq<u8>>,
)
    ensures
        match crate::backup::follow_all(instructions, store) {
            Ok(bytes) => readable(instructions, 0, store) == (bytes, None::<FollowError>),
            Err(f) => readable(instructions, 0, store).1 == Some(f),
        },
    decreases instructions.len(),
{
    if instructions.len() > 0 {
        let front = instructions.drop_last();
        lemma_readable_is_follow(front, store);
        lemma_readable_push(front, instructions.last(), 0, store);
        assert(front.push(instructions.last()) =~= instructions);
    }
}

/// Reads a backup to its end through a cursor, `buffer_size` bytes at a
/// time.
///
/// Comes to the same as following the last instruction stream in one go.
pub fn read_to_end(input: &[u8], store: &ChunkStore, buffer_size: usize) -> (target: Result<
    Vec<u8>,
    Error,
>)
    requires
        buffer_size > 0,
    ensures
        crate::backup::computes(target, crate::backup::follow(input@, store@)),
{
    let mut cursor = match RandomAccess::new(input) {
        Ok(cursor) => cursor,
        Err(e) => {
            return Err(e);
        },
    };
    let ghost all = cursor@.instructions;
    let ghost whole = readable(all, 0, store@);
    let mut out: Vec<u8> = Vec::new();
    proof {
        lemma_readable_is_follow(all, store@);
        assert(cursor@.remaining(store@).0 =~= whole.0);
        assert(whole.0.skip(0) =~= whole.0);
        assert(whole.0.take(0) =~= out@);
    }
    loop
        invariant
            buffer_size > 0,
            cursor.wf(),
            cursor@.instructions == all,
            instructions_decode(input@) == Some(all),
            whole == readable(all, 0, store@),
            out@.len() <= whole.0.len(),
            out@ == whole.0.take(out@.len() as int),
            cursor@.remaining(store@) == (whole.0.skip(out@.len() as int), whole.1),
            match crate::backup::follow_all(all, store@) {
                Ok(bytes) => whole == (bytes, None::<FollowError>),
                Err(f) => whole.1 == Some(f),
            },
        decreases whole.0.len() - out@.len(),
    {
        let ghost before = out@;
        match cursor.read(store, buffer_size) {
            Ok(piece) => {
                if piece.len() == 0 {
                    proof {
                        assert(whole.0.take(whole.0.len() as int) =~= whole.0);
                    }
                    return Ok(out);
                }
                let mut piece = piece;
                let ghost added = piece@;
                out.append(&mut piece);
                proof {
                    let left = whole.0.skip(before.len() as int);
                    assert(added == left.take(added.len() as int));
                    assert(out@ =~= whole.0.take(out@.len() as int));
                    assert(left.skip(added.len() as int) =~= whole.0.skip(out@.len() as int));
                }
            },
            Err(e) => {
                return Err(e);
            },
        }
    }
}

} // verus!

//! The restore pipeline: which instruction is read, which waits for a slot,
//! and which is written, so that the next bundle can be fetched while the
//! current chunk is written and the output still comes in strict
//! instruction order.
//!
//! Instructions are known by their ordinal in the stream.  One instruction
//! at a time waits for a slot with the scheduler; those that have a slot
//! wait in line for their bytes; the first in line is the one whose bytes
//! are written next.
//!
//! The pipeline only decides.  The caller reads the instructions, asks the
//! scheduler, waits, and writes.

use vstd::prelude::*;

verus! {

/// What the caller is to do next.
#[derive(Clone, Copy, Debug, PartialEq, Eq, Structural)]
pub enum PipelineAction {
    /// Read the next instruction and ask for its chunk, then report with
    /// `instruction_read`; report the end of the stream the same way.
    ReadInstruction,
    /// Wait for whichever comes first: the bytes of the instruction
    /// `current`, to be written and reported with `bytes_written`; or the
    /// slot for the instruction `future`, to be reported with
    /// `slot_granted`.
    Wait { current: Option<u64>, future: Option<u64> },
    /// Every instruction has been written.
    Finished,
}

/// The state of the pipeline.
pub struct PipelineSpec {
    /// How many instructions have been read.
    pub read: nat,
    /// How many instructions have been written.
    pub written: nat,
    /// Whether the first instruction in line has been taken up to be
    /// written.
    pub current: bool,
    /// Whether the instruction read last still waits for its slot.
    pub future: bool,
    /// Whether the end of the stream has been seen.
    pub eof: bool,
}

impl PipelineSpec {
    /// How many instructions have been read and not yet written.
    pub open spec fn in_flight(self) -> int {
        self.read - self.written
    }

    /// How many instructions have their slot and wait in line behind the
    /// one taken up.
    pub open spec fn in_line(self) -> int {
        self.in_flight() - if self.current {
            1int
        } else {
            0int
        } - if self.future {
            1int
        } else {
            0int
        }
    }

    /// What holds of every state that the pipeline reaches.
    pub open spec fn wf(self) -> bool {
        &&& self.written <= self.read
        &&& self.in_line() >= 0
    }

    /// The state before anything has been read.
    pub open spec fn start() -> PipelineSpec {
        PipelineSpec { read: 0, written: 0, current: false, future: false, eof: false }
    }

    /// What the caller is to do next, and the state in which it does it.
    pub open spec fn poll(self) -> (PipelineSpec, PipelineAction) {
        if !self.future && !self.eof {
            (self, PipelineAction::ReadInstruction)
        } else {
            let taken = PipelineSpec { current: self.current || self.in_line() > 0, ..self };
            if !taken.current && !taken.future {
                (taken, PipelineAction::Finished)
            } else {
                (
                    taken,
                    PipelineAction::Wait {
                        current: if taken.current {
                            Some(taken.written as u64)
                        } else {
                            None
                        },
                        future: if taken.future {
                            Some((taken.read - 1) as u64)
                        } else {
                            None
                        },
                    },
                )
            }
        }
    }

    /// The state after an instruction has been read, or the end of the
    /// stream been seen.
    pub open spec fn instruction_read(self, present: bool) -> PipelineSpec {
        if present {
            PipelineSpec { read: self.read + 1, future: true, ..self }
        } else {
            PipelineSpec { eof: true, ..self }
        }
    }

    /// The state after the instruction read last has got its slot: it joins
    /// the line.
    pub open spec fn slot_granted(self) -> PipelineSpec {
        PipelineSpec { future: false, ..self }
    }

    /// The state after the bytes of the instruction taken up have been
    /// written.
    pub open spec fn bytes_written(self) -> PipelineSpec {
        PipelineSpec { current: false, written: self.written + 1, ..self }
    }
}

/// The pipeline keeps to strict instruction order: the instruction whose
/// bytes the caller is told to wait for is always the one after those
/// written; the instruction whose slot it is told to wait for is the one
/// read last; and the pipeline is finished only when the end of the stream
/// has been seen and every instruction read has been written.
pub proof fn lemma_poll_in_order(s: PipelineSpec)
    requires
        s.wf(),
        s.read <= u64::MAX,
    ensures
        s.poll().0.wf(),
        s.poll().0.read == s.read && s.poll().0.written == s.written,
        s.poll().1 matches PipelineAction::Wait { current, future } ==> (current matches Some(c)
            ==> c == s.written && s.written < s.read) && (future matches Some(f) ==> f + 1
            == s.read) && (current is Some || future is Some),
        s.poll().1 == PipelineAction::Finished ==> s.eof && s.written == s.read,
        s.poll().1 == PipelineAction::ReadInstruction ==> !s.eof && !s.future,
{
}

/// Every step leaves the pipeline in a state that it may be in.
pub proof fn lemma_steps_preserve_wf(s: PipelineSpec)
    requires
        s.wf(),
    ensures
        s.instruction_read(false).wf(),
        !s.future ==> s.instruction_read(true).wf(),
        s.future ==> s.slot_granted().wf(),
        s.current ==> s.bytes_written().wf(),
{
}

/// The pipeline of one restore.
pub struct Pipeline {
    read: u64,
    written: u64,
    current: bool,
    future: bool,
    eof: bool,
}

impl View for Pipeline {
    type V = PipelineSpec;

    closed spec fn view(&self) -> PipelineSpec {
        PipelineSpec {
            read: self.read as nat,
            written: self.written as nat,
            current: self.current,
            future: self.future,
            eof: self.eof,
        }
    }
}

impl Pipeline {
    /// A pipeline that has read nothing.
    pub fn new() -> (pipeline: Pipeline)
        ensures
            pipeline@ == PipelineSpec::start(),
            pipeline@.wf(),
    {
        Pipeline { read: 0, written: 0, current: false, future: false, eof: false }
    }

    /// What the caller is to do next.
    pub fn poll(&mut self) -> (action: PipelineAction)
        requires
            old(self)@.wf(),
        ensures
            (final(self)@, action) == old(self)@.poll(),
            final(self)@.wf(),
    {
        if !self.future && !self.eof {
            return PipelineAction::ReadInstruction;
        }
        if !self.current {
            let waiting = self.read - self.written - if self.future {
                1
            } else {
                0
            };
            if waiting > 0 {
                self.current = true;
            }
        }
        if !self.current && !self.future {
            PipelineAction::Finished
        } else {
            PipelineAction::Wait {
                current: if self.current {
                    Some(self.written)
                } else {
                    None
                },
                future: if self.future {
                    Some(self.read - 1)
                } else {
                    None
                },
            }
        }
    }

    /// Takes note that an instruction has been read and its chunk asked
    /// for, or, with `present` false, that the stream has ended.  Gives the
    /// ordinal of the instruction.
    pub fn instruction_read(&mut self, present: bool) -> (ordinal: Option<u64>)
        requires
            old(self)@.wf(),
            !old(self)@.future,
            old(self)@.read < u64::MAX,
        ensures
            final(self)@ == old(self)@.instruction_read(present),
            final(self)@.wf(),
            ordinal == if present {
                Some(old(self)@.read as u64)
            } else {
                None
            },
    {
        if present {
            let ordinal = self.read;
            self.read = self.read + 1;
            self.future = true;
            Some(ordinal)
        } else {
            self.eof = true;
            None
        }
    }

    /// Takes note that the instruction read last has got its slot.
    pub fn slot_granted(&mut self)
        requires
            old(self)@.wf(),
            old(self)@.future,
        ensures
            final(self)@ == old(self)@.slot_granted(),
            final(self)@.wf(),
    {
        self.future = false;
    }

    /// Takes note that the bytes of the instruction taken up have been
    /// written.  Gives how many instructions had been written before it.
    pub fn bytes_written(&mut self) -> (count: u64)
        requires
            old(self)@.wf(),
            old(self)@.current,
        ensures
            final(self)@ == old(self)@.bytes_written(),
            final(self)@.wf(),
            count == old(self)@.written,
    {
        let count = self.written;
        self.current = false;
        self.written = self.written + 1;
        count
    }

    /// Whether the instruction read last still waits for its slot.
    pub fn waits_for_slot(&self) -> (waits: bool)
        ensures
            waits == self@.future,
    {
        self.future
    }

    /// Whether an instruction has been taken up to be written.
    pub fn has_current(&self) -> (has: bool)
        ensures
            has == self@.current,
    {
        self.current
    }
}

} // verus!

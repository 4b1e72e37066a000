//! The decoder adapter for compressed payloads: what a read from the
//! adapter returns, by what the decoder said.
//!
//! The adapter feeds buffered input to a streaming decoder and collects its
//! output in a buffer of the caller's size.  It is running until the
//! decoder reports the end of the stream, or fails.  The decoder itself is
//! the caller's; here is the bookkeeping around each of its calls.

use crate::error::{Error, ErrorKind};
use crate::text::{append_decimal, decimal_text};
use vstd::prelude::*;

verus! {

/// The decoder's return value for "went on".
pub const LZMA_OK: i32 = 0;

/// The decoder's return value for "the stream has ended".
pub const LZMA_STREAM_END: i32 = 1;

/// The decoder's action value for "go on".
pub const LZMA_RUN: i32 = 0;

/// The state of the adapter.
#[derive(Clone, Copy, Debug, PartialEq, Eq, Structural)]
pub struct LzmaReader {
    /// The decoder has failed, or its input has run out: no more reads.
    pub error: bool,
    /// The decoder has reported the end of the stream: every further read
    /// returns nothing.
    pub eof: bool,
}

/// What follows a call of the decoder.
#[derive(Clone, Copy, Debug, PartialEq, Eq, Structural)]
pub enum ReadStep {
    /// The read returns so many bytes.
    Return(usize),
    /// The read fails: the stream is corrupt.
    Fail,
    /// The output buffer has room and the stream has not ended: fill the
    /// input again and call the decoder again.
    Again,
}

impl LzmaReader {
    /// An adapter that is running.
    pub fn new() -> (reader: LzmaReader)
        ensures
            reader == (LzmaReader { error: false, eof: false }),
    {
        LzmaReader { error: false, eof: false }
    }

    /// At the start of a read: `Some(0)` where the stream has ended, and
    /// the read returns at once; `None` where the decoder is to be called.
    pub fn begin_read(&self) -> (done: Option<usize>)
        requires
            !self.error,
        ensures
            done == if self.eof {
                Some(0usize)
            } else {
                None
            },
    {
        if self.eof {
            Some(0)
        } else {
            None
        }
    }

    /// After the input buffer has been filled: with nothing in it the
    /// stream is cut short, the adapter has failed, and the read fails with
    /// `CorruptFile`.
    pub fn input_filled(&mut self, available: usize) -> (outcome: Result<(), Error>)
        requires
            !old(self).error,
            !old(self).eof,
        ensures
            match outcome {
                Ok(_) => available > 0 && *final(self) == *old(self),
                Err(e) => available == 0 && e.kind == ErrorKind::CorruptFile && e.message@
                    == "LZMA stream truncated"@ && *final(self) == (LzmaReader {
                    error: true,
                    eof: false,
                }),
            },
    {
        if available == 0 {
            self.error = true;
            Err(Error::new(ErrorKind::CorruptFile, "LZMA stream truncated"))
        } else {
            Ok(())
        }
    }

    /// After a call of the decoder that returned `decode_result` and left
    /// `avail_out` of the `output_len` bytes of the output buffer unused.
    ///
    /// At the end of the stream the read returns what was decoded, and the
    /// adapter is at its end.  On any other result but "went on" the
    /// adapter has failed.  With the output buffer full the read returns
    /// it.  Otherwise the decoder is called again.
    pub fn decoded(&mut self, decode_result: i32, output_len: usize, avail_out: usize) -> (step:
        ReadStep)
        requires
            !old(self).error,
            !old(self).eof,
            avail_out <= output_len,
        ensures
            step == if decode_result == 1 {
                ReadStep::Return((output_len - avail_out) as usize)
            } else if decode_result != 0 {
                ReadStep::Fail
            } else if avail_out == 0 {
                ReadStep::Return(output_len)
            } else {
                ReadStep::Again
            },
            final(self).eof == (decode_result == 1),
            final(self).error == (decode_result != 1 && decode_result != 0),
    {
        if decode_result == LZMA_STREAM_END {
            self.eof = true;
            return ReadStep::Return(output_len - avail_out);
        }
        if decode_result != LZMA_OK {
            self.error = true;
            return ReadStep::Fail;
        }
        if avail_out == 0 {
            return ReadStep::Return(output_len);
        }
        ReadStep::Again
    }
}

/// A decoder's return value in decimal digits, with its sign.
pub open spec fn code_text(code: i32) -> Seq<char> {
    if code < 0 {
        "-"@ + decimal_text((-(code as int)) as nat)
    } else {
        decimal_text(code as nat)
    }
}

fn append_code(text: &mut String, code: i32)
    ensures
        final(text)@ == old(text)@ + code_text(code),
{
    if code < 0 {
        text.append("-");
        append_decimal(text, (-(code as i64)) as u64);
        proof {
            assert(text@ =~= old(text)@ + code_text(code));
        }
    } else {
        append_decimal(text, code as u64);
    }
}

/// The failure of the decoder to start, with the value it returned.
pub fn lzma_init_error(init_result: i32) -> (e: Error)
    ensures
        e.kind == ErrorKind::CorruptFile,
        e.message@ == "Error initialising lzma decoder: "@ + code_text(init_result),
{
    let mut message = String::from_str("Error initialising lzma decoder: ");
    append_code(&mut message, init_result);
    Error { kind: ErrorKind::CorruptFile, message }
}

/// The failure of the decoder on the stream, with the value it returned.
pub fn lzma_decode_error(decode_result: i32) -> (e: Error)
    ensures
        e.kind == ErrorKind::CorruptFile,
        e.message@ == "LZMA error: "@ + code_text(decode_result),
{
    let mut message = String::from_str("LZMA error: ");
    append_code(&mut message, decode_result);
    Error { kind: ErrorKind::CorruptFile, message }
}

} // verus!

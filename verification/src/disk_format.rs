//! How records are laid end to end in a file, and the checksum that closes
//! it.
//!
//! A file is, once decrypted, an optional initialisation vector, a run of
//! records each preceded by its length, and the Adler-32 of everything
//! before it in four little-endian bytes.

use crate::data::IV_SIZE;
use crate::random::random_bytes;
use crate::wire::{
    lemma_u64_below_pow128, lemma_varint_decode_bounds, lemma_varint_round_trip, read_varint,
    varint_decode, varint_encoding, write_varint,
};
use adler32::RollingAdler32;
use byteorder::{ByteOrder, LittleEndian};
use vstd::prelude::*;
use vstd::slice::slice_subrange;

verus! {

/// A record with its length in front.
pub open spec fn frame(record: Seq<u8>) -> Seq<u8> {
    varint_encoding(record.len()) + record
}

/// Reads a length and that many bytes from the front of `bytes`; gives the
/// record and the number of bytes taken.  A record that is cut short is
/// refused.
pub open spec fn frame_decode(bytes: Seq<u8>) -> Option<(Seq<u8>, nat)> {
    match varint_decode(bytes) {
        Some((len, k)) => if bytes.len() - k >= len {
            Some((bytes.subrange(k as int, k + len), (k + len) as nat))
        } else {
            None
        },
        None => None,
    }
}

/// A frame takes at least one byte and never more than there are.
pub proof fn lemma_frame_decode_bounds(bytes: Seq<u8>)
    ensures
        frame_decode(bytes) matches Some((record, taken)) ==> 1 <= taken <= bytes.len()
            && record.len() < taken,
{
    lemma_varint_decode_bounds(bytes, 0);
}

/// Reading a written frame gives the record back, whatever follows it.
pub proof fn lemma_frame_round_trip(record: Seq<u8>, rest: Seq<u8>)
    requires
        record.len() <= u64::MAX,
    ensures
        frame_decode(frame(record) + rest) == Some((record, frame(record).len())),
{
    lemma_u64_below_pow128();
    let prefix = varint_encoding(record.len());
    assert(frame(record) + rest =~= prefix + (record + rest));
    lemma_varint_round_trip(record.len(), record + rest, 0);
    assert((frame(record) + rest).subrange(
        prefix.len() as int,
        (prefix.len() + record.len()) as int,
    ) =~= record);
}

/// Reads a frame at `pos`; gives the positions where the record starts and
/// where it ends, which is where the next frame starts.
pub fn read_frame(data: &[u8], pos: usize) -> (found: Option<(usize, usize)>)
    requires
        pos <= data@.len(),
    ensures
        match found {
            Some((start, end)) => pos < start <= end <= data@.len() && frame_decode(
                data@.skip(pos as int),
            ) == Some((data@.subrange(start as int, end as int), (end - pos) as nat)),
            None => frame_decode(data@.skip(pos as int)).is_none(),
        },
{
    match read_varint(data, pos) {
        Some((len, start)) => {
            if len <= (data.len() - start) as u64 {
                let end = start + len as usize;
                proof {
                    assert(data@.skip(pos as int).subrange(start - pos, start - pos + len)
                        =~= data@.subrange(start as int, end as int));
                }
                Some((start, end))
            } else {
                None
            }
        },
        None => None,
    }
}

/// Appends `record` with its length in front.
pub fn write_frame(out: &mut Vec<u8>, record: &[u8])
    ensures
        final(out)@ == old(out)@ + frame(record@),
{
    write_varint(out, record.len() as u64);
    let ghost mid = out@;
    let mut i: usize = 0;
    while i < record.len()
        invariant
            i <= record@.len(),
            out@ == mid + record@.take(i as int),
        decreases record@.len() - i,
    {
        out.push(record[i]);
        proof {
            assert(out@ =~= mid + record@.take(i + 1));
        }
        i = i + 1;
    }
    proof {
        assert(record@.take(record@.len() as int) =~= record@);
        assert(out@ =~= old(out)@ + frame(record@));
    }
}

/// The low half of the Adler-32 of `bytes`: one plus the sum of the bytes,
/// modulo 65521.
pub open spec fn adler_low(bytes: Seq<u8>) -> nat
    decreases bytes.len(),
{
    if bytes.len() == 0 {
        1
    } else {
        ((adler_low(bytes.drop_last()) + bytes.last()) % 65521) as nat
    }
}

/// The high half of the Adler-32 of `bytes`: the sum of the low halves of
/// all its non-empty prefixes, modulo 65521.
pub open spec fn adler_high(bytes: Seq<u8>) -> nat
    decreases bytes.len(),
{
    if bytes.len() == 0 {
        0
    } else {
        ((adler_high(bytes.drop_last()) + adler_low(bytes)) % 65521) as nat
    }
}

/// The Adler-32 checksum of `bytes`.
pub open spec fn adler32_of(bytes: Seq<u8>) -> u32 {
    (adler_high(bytes) * 65536 + adler_low(bytes)) as u32
}

/// The four bytes of `n`, least significant first.
pub open spec fn u32_le(n: u32) -> Seq<u8> {
    seq![
        (n % 256) as u8,
        (n / 256 % 256) as u8,
        (n / 256 / 256 % 256) as u8,
        (n / 256 / 256 / 256) as u8,
    ]
}

/// The number whose four bytes, least significant first, are `bytes`.
pub open spec fn u32_from_le(bytes: Seq<u8>) -> u32 {
    (bytes[0] + 256 * bytes[1] + 65536 * bytes[2] + 16777216 * bytes[3]) as u32
}

/// The four bytes of a number read back as that number.
pub proof fn lemma_u32_le_round_trip(n: u32)
    ensures
        u32_le(n).len() == 4,
        u32_from_le(u32_le(n)) == n,
{
    let q1 = n as int / 256;
    let q2 = q1 / 256;
    let q3 = q2 / 256;
    assert(n == n as int % 256 + 256 * q1);
    assert(q1 == q1 % 256 + 256 * q2);
    assert(q2 == q2 % 256 + 256 * q3);
    assert(q3 < 256);
}

/// Four bytes read as a number are the four bytes of that number.
pub proof fn lemma_u32_from_le_round_trip(bytes: Seq<u8>)
    requires
        bytes.len() == 4,
    ensures
        u32_le(u32_from_le(bytes)) == bytes,
{
    let b0 = bytes[0] as int;
    let b1 = bytes[1] as int;
    let b2 = bytes[2] as int;
    let b3 = bytes[3] as int;
    let n3 = b3;
    let n2 = b2 + 256 * n3;
    let n1 = b1 + 256 * n2;
    let n0 = b0 + 256 * n1;
    assert(n0 == b0 + 256 * b1 + 65536 * b2 + 16777216 * b3);
    assert(n0 % 256 == b0 && n0 / 256 == n1);
    assert(n1 % 256 == b1 && n1 / 256 == n2);
    assert(n2 % 256 == b2 && n2 / 256 == n3);
    assert(n0 / 256 / 256 == n2);
    assert(n0 / 256 / 256 / 256 == n3);
    assert(u32_le(u32_from_le(bytes)) =~= bytes);
}

/// `RollingAdler32::from_buffer(data).hash()` of the adler32 crate: a
/// context that starts at 1 is fed all of `data`, and the two running sums,
/// each kept modulo 65521, are packed high half over low half.
#[verifier::external_body]
pub(crate) fn adler32_hash(data: &[u8]) -> (hash: u32)
    ensures
        hash == adler32_of(data@),
{
    RollingAdler32::from_buffer(data).hash()
}

/// `LittleEndian::write_u32` of the byteorder crate, on a buffer of four
/// bytes: the bytes of `n`, least significant first.
#[verifier::external_body]
pub(crate) fn u32_to_le_bytes(n: u32) -> (bytes: Vec<u8>)
    ensures
        bytes@ == u32_le(n),
{
    let mut bytes = vec![0u8; 4];
    LittleEndian::write_u32(&mut bytes, n);
    bytes
}

/// `LittleEndian::read_u32` of the byteorder crate: the number whose bytes,
/// least significant first, are the first four of `bytes`.
#[verifier::external_body]
pub(crate) fn u32_of_le_bytes(bytes: &[u8]) -> (n: u32)
    requires
        bytes@.len() >= 4,
    ensures
        n == u32_from_le(bytes@.take(4)),
{
    LittleEndian::read_u32(bytes)
}

/// A file's bytes before encryption: `body` followed by its checksum.
pub open spec fn sealed(body: Seq<u8>) -> Seq<u8> {
    body + u32_le(adler32_of(body))
}

/// Whether `stream` ends in the checksum of what comes before.
pub open spec fn is_sealed(stream: Seq<u8>) -> bool {
    stream.len() >= 4 && stream == sealed(stream.take(stream.len() - 4))
}

/// What `sealed` builds is sealed, and opens to the body.
pub proof fn lemma_sealed_is_sealed(body: Seq<u8>)
    ensures
        is_sealed(sealed(body)),
        sealed(body).take(sealed(body).len() - 4) == body,
{
    assert(sealed(body).take(sealed(body).len() - 4) =~= body);
}

/// Closes `body` with its checksum.
pub fn seal(body: &mut Vec<u8>)
    ensures
        final(body)@ == sealed(old(body)@),
{
    let hash = adler32_hash(body.as_slice());
    let mut trailer = u32_to_le_bytes(hash);
    body.append(&mut trailer);
}

/// Checks the checksum that closes `stream`; gives the length of the body
/// before it.
pub fn unseal(stream: &[u8]) -> (body_len: Option<usize>)
    ensures
        match body_len {
            Some(n) => is_sealed(stream@) && n == stream@.len() - 4,
            None => !is_sealed(stream@),
        },
{
    if stream.len() < 4 {
        return None;
    }
    let n = stream.len() - 4;
    let body = slice_subrange(stream, 0, n);
    let trailer = slice_subrange(stream, n, stream.len());
    let expected = adler32_hash(body);
    let recorded = u32_of_le_bytes(trailer);
    proof {
        assert(body@ =~= stream@.take(n as int));
        let t = trailer@.take(4);
        assert(t =~= stream@.subrange(n as int, stream@.len() as int));
        lemma_u32_le_round_trip(expected);
        lemma_u32_from_le_round_trip(t);
        assert(stream@ =~= body@ + t);
    }
    if recorded == expected {
        Some(n)
    } else {
        None
    }
}

/// Where the records start in a file's bytes before encryption: after the
/// initialisation vector where the repository is encrypted, at the front
/// where it is not.
pub open spec fn payload_start(encrypted: bool) -> nat {
    if encrypted {
        16
    } else {
        0
    }
}

/// Checks a whole file's bytes, as they are after decryption, and gives the
/// range of its records: after the initialisation vector, if there is one,
/// and before the checksum.
pub fn open_envelope(stream: &[u8], encrypted: bool) -> (range: Option<(usize, usize)>)
    ensures
        match range {
            Some((start, end)) => is_sealed(stream@) && start == payload_start(encrypted) && end
                == stream@.len() - 4 && start <= end,
            None => !is_sealed(stream@) || stream@.len() - 4 < payload_start(encrypted),
        },
{
    match unseal(stream) {
        Some(end) => {
            let start: usize = if encrypted {
                IV_SIZE
            } else {
                0
            };
            if start <= end {
                Some((start, end))
            } else {
                None
            }
        },
        None => None,
    }
}

/// Collects what is written to a file, and closes it with the checksum.
pub struct AdlerWrite {
    target: Vec<u8>,
}

impl View for AdlerWrite {
    type V = Seq<u8>;

    /// The bytes written so far.
    closed spec fn view(&self) -> Seq<u8> {
        self.target@
    }
}

impl AdlerWrite {
    /// A writer that starts with `prefix` already written.
    pub fn new(prefix: Vec<u8>) -> (writer: AdlerWrite)
        ensures
            writer@ == prefix@,
    {
        AdlerWrite { target: prefix }
    }

    /// How many bytes were written.
    pub fn byte_count(&self) -> (count: usize)
        ensures
            count == self@.len(),
    {
        self.target.len()
    }

    /// The checksum of what was written.
    pub fn hash(&self) -> (hash: u32)
        ensures
            hash == adler32_of(self@),
    {
        adler32_hash(self.target.as_slice())
    }

    /// Writes `buffer`.
    pub fn write(&mut self, buffer: &[u8])
        ensures
            final(self)@ == old(self)@ + buffer@,
    {
        let ghost before = self.target@;
        let mut i: usize = 0;
        while i < buffer.len()
            invariant
                i <= buffer@.len(),
                self.target@ == before + buffer@.take(i as int),
            decreases buffer@.len() - i,
        {
            self.target.push(buffer[i]);
            proof {
                assert(self.target@ =~= before + buffer@.take(i + 1));
            }
            i = i + 1;
        }
        proof {
            assert(buffer@.take(buffer@.len() as int) =~= buffer@);
        }
    }

    /// Writes one record with its length in front.
    pub fn write_record(&mut self, record: &[u8])
        ensures
            final(self)@ == old(self)@ + frame(record@),
    {
        write_frame(&mut self.target, record);
    }

    /// Appends the checksum and hands out the finished bytes.
    pub fn close(self) -> (stream: Vec<u8>)
        ensures
            stream@ == sealed(self@),
    {
        let mut stream = self.target;
        seal(&mut stream);
        stream
    }
}

/// Starts a file: where the repository is encrypted, a fresh initialisation
/// vector is written first, and is covered by the checksum like all that
/// follows.
pub fn wrap_writer(encrypted: bool) -> (writer: AdlerWrite)
    ensures
        writer@.len() == payload_start(encrypted),
{
    if encrypted {
        AdlerWrite::new(random_bytes(IV_SIZE))
    } else {
        AdlerWrite::new(Vec::new())
    }
}

} // verus!

//! Index files: which chunks each bundle holds.
//!
//! An index file is the file header, then for each bundle a header with the
//! bundle's identifier and the bundle's record, then a header without an
//! identifier.

use crate::data::BundleId;
use crate::disk_format::{
    frame, frame_decode, lemma_frame_decode_bounds, lemma_frame_round_trip, open_envelope,
    payload_start, read_frame, sealed, wrap_writer, AdlerWrite, is_sealed,
    lemma_sealed_is_sealed,
};
use crate::error::{Error, ErrorKind};
use crate::records::{
    bundle_info_decode, bundle_info_encoding, file_header_decode, file_header_encoding,
    index_bundle_header_decode, index_bundle_header_encoding, lemma_bundle_info_round_trip,
    lemma_file_header_round_trip, lemma_index_bundle_header_round_trip, write_chunk_records,
    BundleInfo, ChunkRecord, FileHeader, IndexBundleHeader, FORMAT_VERSION,
};
use vstd::prelude::*;
use vstd::slice::slice_subrange;

verus! {

/// One entry of an index file: a bundle and the chunks it holds.
#[derive(Clone, Debug, PartialEq, Eq)]
pub struct RawIndexEntry {
    pub bundle_id: BundleId,
    pub chunks: Vec<ChunkRecord>,
}

/// What a `RawIndexEntry` stands for.
pub struct IndexEntrySpec {
    pub bundle_id: BundleId,
    pub chunks: Seq<ChunkRecord>,
}

impl View for RawIndexEntry {
    type V = IndexEntrySpec;

    open spec fn view(&self) -> IndexEntrySpec {
        IndexEntrySpec { bundle_id: self.bundle_id, chunks: self.chunks@ }
    }
}

/// The entries that a vector of `RawIndexEntry` stands for.
pub open spec fn entries_view(entries: Seq<RawIndexEntry>) -> Seq<IndexEntrySpec> {
    entries.map_values(|e: RawIndexEntry| e@)
}

/// The bytes of one entry: the framed header, then the framed bundle record.
pub open spec fn entry_encoding(entry: IndexEntrySpec) -> Seq<u8> {
    frame(index_bundle_header_encoding(IndexBundleHeader { bundle_id: Some(entry.bundle_id) }))
        + frame(bundle_info_encoding(entry.chunks))
}

/// The bytes of a run of entries.
pub open spec fn entries_encoding(entries: Seq<IndexEntrySpec>) -> Seq<u8>
    decreases entries.len(),
{
    if entries.len() == 0 {
        Seq::empty()
    } else {
        entry_encoding(entries[0]) + entries_encoding(entries.skip(1))
    }
}

/// The framed header without an identifier that ends an index file.
pub open spec fn terminator() -> Seq<u8> {
    frame(index_bundle_header_encoding(IndexBundleHeader { bundle_id: None }))
}

/// The framed file header.
pub open spec fn framed_file_header() -> Seq<u8> {
    frame(file_header_encoding(FileHeader { version: 1 }))
}

/// The records of an index file.
pub open spec fn index_body(entries: Seq<IndexEntrySpec>) -> Seq<u8> {
    framed_file_header() + entries_encoding(entries) + terminator()
}

/// Reads one framed header and, where it has an identifier, the framed
/// bundle record after it; gives the entry, or `None` for the header without
/// an identifier, and the number of bytes taken.
pub open spec fn entry_decode(bytes: Seq<u8>) -> Option<(Option<IndexEntrySpec>, nat)> {
    match frame_decode(bytes) {
        None => None,
        Some((head, k)) => if !(1 <= k <= bytes.len()) {
            None
        } else {
            match index_bundle_header_decode(head) {
                None => None,
                Some(header) => match header.bundle_id {
                    None => Some((None, k)),
                    Some(bundle_id) => match frame_decode(bytes.skip(k as int)) {
                        None => None,
                        Some((info, j)) => if !(1 <= j <= bytes.len() - k) {
                            None
                        } else {
                            match bundle_info_decode(info) {
                                None => None,
                                Some(chunks) => Some(
                                    (Some(IndexEntrySpec { bundle_id, chunks }), k + j),
                                ),
                            }
                        },
                    },
                },
            }
        },
    }
}

/// Reads entries up to and including the header without an identifier,
/// which must be the last thing in `bytes`.
#[verifier::opaque]
pub open spec fn entries_decode(bytes: Seq<u8>) -> Option<Seq<IndexEntrySpec>>
    decreases bytes.len(),
{
    match entry_decode(bytes) {
        None => None,
        Some((None, k)) => if k == bytes.len() {
            Some(Seq::empty())
        } else {
            None
        },
        Some((Some(entry), k)) => if !(1 <= k <= bytes.len()) {
            None
        } else {
            match entries_decode(bytes.skip(k as int)) {
                None => None,
                Some(rest) => Some(seq![entry] + rest),
            }
        },
    }
}

/// Reads the framed file header from the front of `bytes`; gives the number
/// of bytes it takes.  Only version 1 is accepted.
pub open spec fn file_header_taken(bytes: Seq<u8>) -> Option<nat> {
    match frame_decode(bytes) {
        None => None,
        Some((head, k)) => match file_header_decode(head) {
            Some(header) => if header.version == 1 && k <= bytes.len() {
                Some(k)
            } else {
                None
            },
            None => None,
        },
    }
}

/// The entries that the records of an index file hold.
pub open spec fn index_decode(body: Seq<u8>) -> Option<Seq<IndexEntrySpec>> {
    match file_header_taken(body) {
        Some(k) => entries_decode(body.skip(k as int)),
        None => None,
    }
}

/// Whether every record of `entries` is short enough for its length to be
/// written in front of it.
pub open spec fn entries_fit(entries: Seq<IndexEntrySpec>) -> bool {
    forall|i: int|
        0 <= i < entries.len() ==> bundle_info_encoding((#[trigger] entries[i]).chunks).len()
            <= u64::MAX
}

/// The framed file header reads back, whatever follows it.
pub proof fn lemma_file_header_taken(rest: Seq<u8>)
    ensures
        file_header_taken(framed_file_header() + rest) == Some(framed_file_header().len()),
{
    let header = FileHeader { version: 1 };
    lemma_header_lengths();
    lemma_frame_round_trip(file_header_encoding(header), rest);
    lemma_file_header_round_trip(header);
}

/// Headers are a few bytes long.
pub proof fn lemma_header_lengths()
    ensures
        file_header_encoding(FileHeader { version: 1 }).len() <= 100,
        forall|header: IndexBundleHeader|
            (#[trigger] index_bundle_header_encoding(header)).len() <= 100,
{
    let h = FileHeader { version: 1 };
    let fields = crate::records::file_header_fields(h);
    crate::wire::lemma_fields_encoding_push(Seq::empty(), fields[0]);
    crate::records::lemma_varint_encoding_len(fields[0].tag());
    crate::records::lemma_varint_encoding_len(1);
    assert forall|header: IndexBundleHeader|
        (#[trigger] index_bundle_header_encoding(header)).len() <= 100 by {
        let fields = crate::records::index_bundle_header_fields(header);
        match header.bundle_id {
            Some(id) => {
                crate::wire::lemma_fields_encoding_push(Seq::empty(), fields[0]);
                crate::records::lemma_varint_encoding_len(fields[0].tag());
                crate::records::lemma_varint_encoding_len(24);
                crate::data::lemma_id_bytes(id, id);
            },
            None => {},
        }
    }
}

/// Written entries followed by the terminator read back.
pub proof fn lemma_entries_round_trip(entries: Seq<IndexEntrySpec>)
    requires
        entries_fit(entries),
    ensures
        entries_decode(entries_encoding(entries) + terminator()) == Some(entries),
    decreases entries.len(),
{
    reveal(entries_decode);
    lemma_header_lengths();
    let all = entries_encoding(entries) + terminator();
    if entries.len() == 0 {
        let header = IndexBundleHeader { bundle_id: None };
        assert(all =~= terminator() + Seq::<u8>::empty());
        lemma_frame_round_trip(index_bundle_header_encoding(header), Seq::empty());
        lemma_index_bundle_header_round_trip(header);
        lemma_frame_decode_bounds(all);
    } else {
        let first = entries[0];
        let tail = entries.skip(1);
        let header = IndexBundleHeader { bundle_id: Some(first.bundle_id) };
        let head = frame(index_bundle_header_encoding(header));
        let info = frame(bundle_info_encoding(first.chunks));
        let rest = entries_encoding(tail) + terminator();
        assert(all =~= head + (info + rest));
        lemma_frame_round_trip(index_bundle_header_encoding(header), info + rest);
        lemma_index_bundle_header_round_trip(header);
        assert(all.skip(head.len() as int) =~= info + rest);
        lemma_frame_round_trip(bundle_info_encoding(first.chunks), rest);
        lemma_bundle_info_round_trip(first.chunks);
        assert(all.skip((head.len() + info.len()) as int) =~= rest);
        assert forall|i: int| 0 <= i < tail.len() implies bundle_info_encoding(
            (#[trigger] tail[i]).chunks,
        ).len() <= u64::MAX by {
            assert(tail[i] == entries[i + 1]);
        }
        lemma_entries_round_trip(tail);
        assert(seq![first] + tail =~= entries);
    }
}

/// The records of an index file read back as the entries they were written
/// from.
pub proof fn lemma_index_round_trip(entries: Seq<IndexEntrySpec>)
    requires
        entries_fit(entries),
    ensures
        index_decode(index_body(entries)) == Some(entries),
{
    let rest = entries_encoding(entries) + terminator();
    assert(index_body(entries) =~= framed_file_header() + rest);
    lemma_file_header_taken(rest);
    assert(index_body(entries).skip(framed_file_header().len() as int) =~= rest);
    lemma_entries_round_trip(entries);
}

/// The encoding of entries put end to end is the encodings put end to end.
pub proof fn lemma_entries_encoding_push(entries: Seq<IndexEntrySpec>, last: IndexEntrySpec)
    ensures
        entries_encoding(entries.push(last)) == entries_encoding(entries) + entry_encoding(last),
    decreases entries.len(),
{
    if entries.len() == 0 {
        assert(entries.push(last).skip(1) =~= Seq::<IndexEntrySpec>::empty());
        assert(entries.push(last)[0] == last);
        assert(entries_encoding(Seq::<IndexEntrySpec>::empty()) =~= Seq::<u8>::empty());
        assert(entries_encoding(entries.push(last)) =~= entry_encoding(last));
        assert(entries_encoding(entries) + entry_encoding(last) =~= entry_encoding(last));
    } else {
        assert(entries.push(last).skip(1) =~= entries.skip(1).push(last));
        lemma_entries_encoding_push(entries.skip(1), last);
        assert(entries.push(last)[0] == entries[0]);
        assert(entry_encoding(entries[0]) + (entries_encoding(entries.skip(1)) + entry_encoding(
            last,
        )) =~= (entry_encoding(entries[0]) + entries_encoding(entries.skip(1))) + entry_encoding(
            last,
        ));
    }
}

/// How reading the entries goes on after one entry has been read.
pub proof fn lemma_entries_decode_step(bytes: Seq<u8>)
    ensures
        entries_decode(bytes) == match entry_decode(bytes) {
            None => None,
            Some((None, k)) => if k == bytes.len() {
                Some(Seq::empty())
            } else {
                None
            },
            Some((Some(entry), k)) => if !(1 <= k <= bytes.len()) {
                None
            } else {
                prepend_entries(seq![entry], entries_decode(bytes.skip(k as int)))
            },
        },
{
    reveal(entries_decode);
}

/// What a run of entries decodes to when `done` has been read and `rest` is
/// what the remaining bytes decode to.
pub open spec fn prepend_entries(done: Seq<IndexEntrySpec>, rest: Option<Seq<IndexEntrySpec>>)
    -> Option<Seq<IndexEntrySpec>> {
    match rest {
        Some(tail) => Some(done + tail),
        None => None,
    }
}

fn corrupt(message: &str) -> (e: Error)
    ensures
        e.kind == ErrorKind::CorruptFile,
        e.message@ == message@,
{
    Error::new(ErrorKind::CorruptFile, message)
}

/// Reads the framed file header at the front of `body`; gives the position
/// after it.
pub fn read_file_header(body: &[u8]) -> (next: Option<usize>)
    ensures
        match next {
            Some(k) => k <= body@.len() && file_header_taken(body@) == Some(k as nat),
            None => file_header_taken(body@).is_none(),
        },
{
    proof {
        assert(body@.skip(0) =~= body@);
    }
    match read_frame(body, 0) {
        Some((start, end)) => match FileHeader::parse(slice_subrange(body, start, end)) {
            Some(header) => if header.version == FORMAT_VERSION {
                Some(end)
            } else {
                None
            },
            None => None,
        },
        None => None,
    }
}

/// Reads one entry at `pos`; gives the entry, or `None` for the header
/// without an identifier, and the position after it.
pub fn read_entry(body: &[u8], pos: usize) -> (found: Result<(Option<RawIndexEntry>, usize), Error>)
    requires
        pos <= body@.len(),
    ensures
        match found {
            Ok((Some(entry), next)) => pos < next <= body@.len() && entry_decode(
                body@.skip(pos as int),
            ) == Some((Some(entry@), (next - pos) as nat)),
            Ok((None, next)) => pos < next <= body@.len() && entry_decode(body@.skip(pos as int))
                == Some((None::<IndexEntrySpec>, (next - pos) as nat)),
            Err(e) => entry_decode(body@.skip(pos as int)).is_none() && e.kind
                == ErrorKind::CorruptFile,
        },
{
    let ghost here = body@.skip(pos as int);
    let (start, end) = match read_frame(body, pos) {
        Some(range) => range,
        None => {
            return Err(corrupt("Error reading index bundle header"));
        },
    };
    let header = match IndexBundleHeader::parse(slice_subrange(body, start, end)) {
        Some(header) => header,
        None => {
            return Err(corrupt("Error reading index bundle header"));
        },
    };
    let bundle_id = match header.bundle_id {
        Some(bundle_id) => bundle_id,
        None => {
            return Ok((None, end));
        },
    };
    proof {
        assert(here.skip(end - pos) =~= body@.skip(end as int));
    }
    let (info_start, info_end) = match read_frame(body, end) {
        Some(range) => range,
        None => {
            return Err(corrupt("Error reading index bundle info"));
        },
    };
    match BundleInfo::parse(slice_subrange(body, info_start, info_end)) {
        Some(info) => Ok((Some(RawIndexEntry { bundle_id, chunks: info.chunks }), info_end)),
        None => Err(corrupt("Error reading index bundle info")),
    }
}

/// Reads the records of an index file.
///
/// Fails with `CorruptFile` exactly where the bytes are not a file header
/// of version 1, well-formed entries and a closing header without an
/// identifier with nothing after it.
pub fn parse_index(body: &[u8]) -> (found: Result<Vec<RawIndexEntry>, Error>)
    ensures
        match found {
            Ok(entries) => index_decode(body@) == Some(entries_view(entries@)),
            Err(e) => index_decode(body@).is_none() && e.kind == ErrorKind::CorruptFile,
        },
{
    let first = match read_file_header(body) {
        Some(first) => first,
        None => {
            return Err(corrupt("Error reading file header"));
        },
    };
    let mut entries: Vec<RawIndexEntry> = Vec::new();
    let mut pos: usize = first;
    let ghost target = entries_decode(body@.skip(first as int));
    proof {
        assert(entries_view(entries@) =~= Seq::<IndexEntrySpec>::empty());
        if let Some(tail) = target {
            assert(Seq::<IndexEntrySpec>::empty() + tail =~= tail);
        }
    }
    loop
        invariant
            pos <= body@.len(),
            index_decode(body@) == target,
            target == prepend_entries(
                entries_view(entries@),
                entries_decode(body@.skip(pos as int)),
            ),
        decreases body@.len() - pos,
    {
        let ghost here = body@.skip(pos as int);
        let ghost done = entries_view(entries@);
        proof {
            lemma_entries_decode_step(here);
        }
        match read_entry(body, pos) {
            Err(e) => {
                return Err(e);
            },
            Ok((None, next)) => {
                if next == body.len() {
                    proof {
                        assert(done + Seq::<IndexEntrySpec>::empty() =~= done);
                    }
                    return Ok(entries);
                } else {
                    return Err(corrupt("Data after the end of the index"));
                }
            },
            Ok((Some(entry), next)) => {
                let ghost shown = entry@;
                entries.push(entry);
                proof {
                    assert(here.skip(next - pos) =~= body@.skip(next as int));
                    assert(entries_view(entries@) =~= done.push(shown));
                    if let Some(tail) = entries_decode(body@.skip(next as int)) {
                        assert(done + (seq![shown] + tail) =~= done.push(shown) + tail);
                    }
                }
                pos = next;
            },
        }
    }
}

/// Reads an index file from its bytes as they are after decryption.
///
/// Succeeds exactly where the bytes end in the checksum of what precedes
/// it, and what lies between the initialisation vector, if there is one,
/// and the checksum are the records of an index file.
pub fn read_index(stream: &[u8], encrypted: bool) -> (found: Result<Vec<RawIndexEntry>, Error>)
    ensures
        match found {
            Ok(entries) => is_sealed(stream@) && payload_start(encrypted) <= stream@.len() - 4
                && index_decode(
                stream@.subrange(payload_start(encrypted) as int, stream@.len() - 4),
            ) == Some(entries_view(entries@)),
            Err(e) => e.kind == ErrorKind::CorruptFile && (!is_sealed(stream@) || stream@.len() - 4
                < payload_start(encrypted) || index_decode(
                stream@.subrange(payload_start(encrypted) as int, stream@.len() - 4),
            ).is_none()),
        },
{
    match open_envelope(stream, encrypted) {
        Some((start, end)) => parse_index(slice_subrange(stream, start, end)),
        None => Err(corrupt("Adler32 hash mismatch")),
    }
}

/// Writes the records of an index file after what `writer` already holds,
/// and closes the file.
pub fn write_index_to(writer: AdlerWrite, index_entries: &Vec<RawIndexEntry>) -> (stream: Vec<u8>)
    ensures
        stream@ == sealed(writer@ + index_body(entries_view(index_entries@))),
{
    let mut writer = writer;
    let ghost prefix = writer@;
    let ghost all = entries_view(index_entries@);
    let mut header_bytes: Vec<u8> = Vec::new();
    (FileHeader { version: FORMAT_VERSION }).write(&mut header_bytes);
    writer.write_record(header_bytes.as_slice());
    let mut i: usize = 0;
    proof {
        assert(header_bytes@ =~= file_header_encoding(FileHeader { version: 1 }));
        assert(entries_encoding(all.take(0)) =~= Seq::<u8>::empty());
        assert(writer@ =~= prefix + framed_file_header() + entries_encoding(all.take(0)));
    }
    while i < index_entries.len()
        invariant
            i <= index_entries@.len(),
            all == entries_view(index_entries@),
            writer@ == prefix + framed_file_header() + entries_encoding(all.take(i as int)),
        decreases index_entries@.len() - i,
    {
        let entry = &index_entries[i];
        let mut head: Vec<u8> = Vec::new();
        (IndexBundleHeader { bundle_id: Some(entry.bundle_id) }).write(&mut head);
        let mut info: Vec<u8> = Vec::new();
        write_chunk_records(&entry.chunks, &mut info);
        writer.write_record(head.as_slice());
        writer.write_record(info.as_slice());
        proof {
            assert(all[i as int] == index_entries@[i as int]@);
            assert(head@ =~= index_bundle_header_encoding(
                IndexBundleHeader { bundle_id: Some(entry.bundle_id) },
            ));
            assert(info@ =~= bundle_info_encoding(entry.chunks@));
            assert(all.take(i + 1) =~= all.take(i as int).push(all[i as int]));
            lemma_entries_encoding_push(all.take(i as int), all[i as int]);
            assert(writer@ =~= prefix + framed_file_header() + entries_encoding(all.take(i + 1)));
        }
        i = i + 1;
    }
    let mut last: Vec<u8> = Vec::new();
    (IndexBundleHeader { bundle_id: None }).write(&mut last);
    writer.write_record(last.as_slice());
    proof {
        assert(all.take(i as int) =~= all);
        assert(last@ =~= index_bundle_header_encoding(IndexBundleHeader { bundle_id: None }));
        assert(writer@ =~= prefix + index_body(all));
    }
    writer.close()
}

/// Writes an index file; gives its bytes as they are before encryption.
///
/// Where the repository is encrypted the file starts with a fresh
/// initialisation vector.  The records follow, and the checksum of
/// everything closes the file.
pub fn write_index(encrypted: bool, index_entries: &Vec<RawIndexEntry>) -> (stream: Vec<u8>)
    ensures
        is_sealed(stream@),
        payload_start(encrypted) <= stream@.len() - 4,
        stream@.subrange(payload_start(encrypted) as int, stream@.len() - 4) == index_body(
            entries_view(index_entries@),
        ),
{
    let writer = wrap_writer(encrypted);
    let ghost prefix = writer@;
    let stream = write_index_to(writer, index_entries);
    proof {
        let body = prefix + index_body(entries_view(index_entries@));
        lemma_sealed_is_sealed(body);
        assert(stream@.subrange(payload_start(encrypted) as int, stream@.len() - 4)
            =~= index_body(entries_view(index_entries@)));
    }
    stream
}

} // verus!

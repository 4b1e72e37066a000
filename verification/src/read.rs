//! Reading backup files, the `info` file and bundle files from their bytes.

use crate::disk_format::{
    frame, frame_decode, is_sealed, open_envelope, payload_start, read_frame, AdlerWrite,
    wrap_writer,
};
use crate::error::{Error, ErrorKind};
use crate::gc_bundles::{chunk_views, Chunk, ChunkSpec};
use crate::index_file::{file_header_taken, framed_file_header, read_file_header};
use crate::records::{
    backup_info_decode, bundle_info_decode, bundle_info_encoding, file_header_encoding,
    storage_info_decode, write_chunk_records, BackupInfo, BackupInfoSpec, BundleInfo, ChunkRecord,
    FileHeader, StorageInfo, FORMAT_VERSION,
};
use vstd::prelude::*;
use vstd::slice::slice_subrange;

verus! {

/// The one record of a file that holds the file header and one record and
/// nothing else.
pub open spec fn single_record(body: Seq<u8>) -> Option<Seq<u8>> {
    match file_header_taken(body) {
        None => None,
        Some(k) => match frame_decode(body.skip(k as int)) {
            Some((record, j)) => if k + j == body.len() {
                Some(record)
            } else {
                None
            },
            None => None,
        },
    }
}

/// Finds the one record of a file that holds the file header and one
/// record; gives the positions where it starts and ends.
pub fn read_single_record(body: &[u8]) -> (range: Option<(usize, usize)>)
    ensures
        match range {
            Some((start, end)) => start <= end <= body@.len() && single_record(body@) == Some(
                body@.subrange(start as int, end as int),
            ),
            None => single_record(body@).is_none(),
        },
{
    let first = match read_file_header(body) {
        Some(first) => first,
        None => {
            return None;
        },
    };
    match read_frame(body, first) {
        Some((start, end)) => if end == body.len() {
            Some((start, end))
        } else {
            None
        },
        None => None,
    }
}

/// The records between the initialisation vector, if there is one, and the
/// checksum of a file's bytes as they are after decryption.  `None` where
/// the checksum is wrong or the bytes are too few.
pub open spec fn envelope_body(stream: Seq<u8>, encrypted: bool) -> Option<Seq<u8>> {
    if is_sealed(stream) && payload_start(encrypted) <= stream.len() - 4 {
        Some(stream.subrange(payload_start(encrypted) as int, stream.len() - 4))
    } else {
        None
    }
}

/// The backup record that a backup file holds.
pub open spec fn backup_file_decode(stream: Seq<u8>, encrypted: bool) -> Option<BackupInfoSpec> {
    match envelope_body(stream, encrypted) {
        None => None,
        Some(body) => match single_record(body) {
            None => None,
            Some(record) => backup_info_decode(record),
        },
    }
}

fn corrupt(message: &str) -> (e: Error)
    ensures
        e.kind == ErrorKind::CorruptFile,
        e.message@ == message@,
{
    Error::new(ErrorKind::CorruptFile, message)
}

/// Reads a backup file from its bytes as they are after decryption.  Fails
/// with `CorruptFile` exactly where the checksum is wrong or the records
/// are not a file header and one backup record.
pub fn read_backup_file(stream: &[u8], encrypted: bool) -> (found: Result<BackupInfo, Error>)
    ensures
        match found {
            Ok(info) => backup_file_decode(stream@, encrypted) == Some(info@),
            Err(e) => backup_file_decode(stream@, encrypted).is_none() && e.kind
                == ErrorKind::CorruptFile,
        },
{
    let (from, to) = match open_envelope(stream, encrypted) {
        Some(range) => range,
        None => {
            return Err(corrupt("Adler32 hash mismatch"));
        },
    };
    let body = slice_subrange(stream, from, to);
    let (start, end) = match read_single_record(body) {
        Some(range) => range,
        None => {
            return Err(corrupt("Error reading backup file"));
        },
    };
    match BackupInfo::parse(slice_subrange(body, start, end)) {
        Some(info) => Ok(info),
        None => Err(corrupt("Error reading backup info")),
    }
}

/// The wrapped key that an `info` file holds: `Some(None)` where the
/// repository declares none.
pub open spec fn storage_info_file_decode(stream: Seq<u8>) -> Option<Option<Seq<u8>>> {
    match envelope_body(stream, false) {
        None => None,
        Some(body) => match single_record(body) {
            None => None,
            Some(record) => storage_info_decode(record),
        },
    }
}

/// Reads the `info` file, which is never encrypted.  Fails with
/// `CorruptFile` exactly where the checksum is wrong or the records are not
/// a file header and one `info` record.
pub fn read_storage_info(stream: &[u8]) -> (found: Result<StorageInfo, Error>)
    ensures
        match found {
            Ok(info) => storage_info_file_decode(stream@) == Some(
                match info.encryption_key {
                    Some(key) => Some(key@),
                    None => None,
                },
            ),
            Err(e) => storage_info_file_decode(stream@).is_none() && e.kind
                == ErrorKind::CorruptFile,
        },
{
    let (from, to) = match open_envelope(stream, false) {
        Some(range) => range,
        None => {
            return Err(corrupt("Adler32 hash mismatch"));
        },
    };
    let body = slice_subrange(stream, from, to);
    let (start, end) = match read_single_record(body) {
        Some(range) => range,
        None => {
            return Err(corrupt("Error reading info file"));
        },
    };
    match StorageInfo::parse(slice_subrange(body, start, end)) {
        Some(info) => Ok(info),
        None => Err(corrupt("Error reading storage info")),
    }
}

/// The head of a bundle file: its chunk records, and where among the
/// records the compressed payload starts.
pub open spec fn bundle_head_decode(body: Seq<u8>) -> Option<(Seq<ChunkRecord>, nat)> {
    match file_header_taken(body) {
        None => None,
        Some(k) => match frame_decode(body.skip(k as int)) {
            Some((record, j)) => match bundle_info_decode(record) {
                Some(chunks) => Some((chunks, k + j)),
                None => None,
            },
            None => None,
        },
    }
}

/// Reads the head of a bundle file from its records: the chunk records, and
/// the position where the compressed payload starts.  The payload is not
/// looked at.
pub fn read_bundle_head(body: &[u8]) -> (found: Result<(BundleInfo, usize), Error>)
    ensures
        match found {
            Ok((info, at)) => at <= body@.len() && bundle_head_decode(body@) == Some(
                (info@, at as nat),
            ),
            Err(e) => bundle_head_decode(body@).is_none() && e.kind == ErrorKind::CorruptFile,
        },
{
    let first = match read_file_header(body) {
        Some(first) => first,
        None => {
            return Err(corrupt("Error reading file header"));
        },
    };
    let (start, end) = match read_frame(body, first) {
        Some(range) => range,
        None => {
            return Err(corrupt("Error reading bundle info"));
        },
    };
    match BundleInfo::parse(slice_subrange(body, start, end)) {
        Some(info) => Ok((info, end)),
        None => Err(corrupt("Error reading bundle info")),
    }
}

/// Reads the record of a bundle from the bundle file's bytes as they are
/// after decryption, without its payload.  The checksum, which covers the
/// payload, is not held against anything.
pub fn read_bundle_info(stream: &[u8], encrypted: bool) -> (found: Result<BundleInfo, Error>)
    ensures
        match found {
            Ok(info) => {
                &&& payload_start(encrypted) <= stream@.len()
                &&& bundle_head_decode(stream@.skip(payload_start(encrypted) as int)) matches Some(
                    (chunks, _),
                ) && chunks == info@
            },
            Err(e) => e.kind == ErrorKind::CorruptFile && (payload_start(encrypted) > stream@.len()
                || bundle_head_decode(stream@.skip(payload_start(encrypted) as int)).is_none()),
        },
{
    let from: usize = if encrypted {
        16
    } else {
        0
    };
    if from > stream.len() {
        return Err(corrupt("Error reading bundle file"));
    }
    let body = slice_subrange(stream, from, stream.len());
    proof {
        assert(body@ =~= stream@.skip(from as int));
    }
    match read_bundle_head(body) {
        Ok((info, _)) => Ok(info),
        Err(e) => Err(e),
    }
}

/// The sizes of the chunks added up.
pub open spec fn total_size(chunks: Seq<ChunkRecord>) -> nat
    decreases chunks.len(),
{
    if chunks.len() == 0 {
        0
    } else {
        total_size(chunks.drop_last()) + chunks.last().size as nat
    }
}

/// The chunks of a bundle with their bytes: the decompressed payload cut at
/// the sizes that the records give, in the order of the records.  `None`
/// where the sizes do not add up to the length of the payload.
pub open spec fn chunk_slices(chunks: Seq<ChunkRecord>, payload: Seq<u8>) -> Option<Seq<ChunkSpec>> {
    if total_size(chunks) != payload.len() {
        None
    } else {
        Some(
            Seq::new(
                chunks.len(),
                |i: int|
                    ChunkSpec {
                        chunk_id: chunks[i].chunk_id,
                        data: payload.subrange(
                            total_size(chunks.take(i)) as int,
                            total_size(chunks.take(i + 1)) as int,
                        ),
                    },
            ),
        )
    }
}

/// The sizes of a front part add up to no more than those of the whole.
pub proof fn lemma_total_size_take(chunks: Seq<ChunkRecord>, i: int)
    requires
        0 <= i <= chunks.len(),
    ensures
        total_size(chunks.take(i)) <= total_size(chunks),
        i < chunks.len() ==> total_size(chunks.take(i + 1)) == total_size(chunks.take(i))
            + chunks[i].size,
    decreases chunks.len() - i,
{
    if i < chunks.len() {
        assert(chunks.take(i + 1).drop_last() =~= chunks.take(i));
        assert(chunks.take(i + 1).last() == chunks[i]);
        lemma_total_size_take(chunks, i + 1);
    } else {
        assert(chunks.take(i) =~= chunks);
    }
}

/// Cuts the decompressed payload of a bundle into its chunks.  Fails with
/// `CorruptFile` exactly where the sizes in the bundle's record do not add
/// up to the length of the payload.
pub fn read_bundle(info: &BundleInfo, payload: &[u8]) -> (found: Result<Vec<Chunk>, Error>)
    ensures
        match found {
            Ok(chunks) => chunk_slices(info@, payload@) == Some(chunk_views(chunks@)),
            Err(e) => chunk_slices(info@, payload@).is_none() && e.kind == ErrorKind::CorruptFile,
        },
{
    let mut chunks: Vec<Chunk> = Vec::new();
    let mut offset: usize = 0;
    let mut i: usize = 0;
    proof {
        assert(info@.take(0) =~= Seq::<ChunkRecord>::empty());
    }
    while i < info.chunks.len()
        invariant
            i <= info@.len(),
            offset <= payload@.len(),
            offset == total_size(info@.take(i as int)),
            chunks@.len() == i,
            forall|k: int|
                0 <= k < i ==> (#[trigger] chunks@[k])@ == (ChunkSpec {
                    chunk_id: info@[k].chunk_id,
                    data: payload@.subrange(
                        total_size(info@.take(k)) as int,
                        total_size(info@.take(k + 1)) as int,
                    ),
                }),
        decreases info@.len() - i,
    {
        let record = info.chunks[i];
        proof {
            lemma_total_size_take(info@, i as int);
        }
        if record.size as usize > payload.len() - offset {
            proof {
                lemma_total_size_take(info@, i + 1);
            }
            return Err(corrupt("Bundle payload is shorter than its chunks"));
        }
        let end = offset + record.size as usize;
        let mut data: Vec<u8> = Vec::new();
        let mut at: usize = offset;
        while at < end
            invariant
                offset <= at <= end <= payload@.len(),
                data@ == payload@.subrange(offset as int, at as int),
            decreases end - at,
        {
            data.push(payload[at]);
            proof {
                assert(data@ =~= payload@.subrange(offset as int, at + 1));
            }
            at = at + 1;
        }
        chunks.push(Chunk { chunk_id: record.chunk_id, data });
        offset = end;
        i = i + 1;
    }
    proof {
        assert(info@.take(i as int) =~= info@);
    }
    if offset != payload.len() {
        return Err(corrupt("Bundle payload is longer than its chunks"));
    }
    proof {
        assert(chunk_views(chunks@) =~= chunk_slices(info@, payload@)->0);
    }
    Ok(chunks)
}

/// The records of a bundle's chunks, where each size fits the record.
pub open spec fn chunk_records(chunks: Seq<ChunkSpec>) -> Seq<ChunkRecord> {
    chunks.map_values(
        |chunk: ChunkSpec| ChunkRecord { chunk_id: chunk.chunk_id, size: chunk.data.len() as u32 },
    )
}

/// The bytes of the chunks one after another: what is compressed into a
/// bundle's payload.
pub open spec fn joined_data(chunks: Seq<ChunkSpec>) -> Seq<u8>
    decreases chunks.len(),
{
    if chunks.len() == 0 {
        Seq::empty()
    } else {
        joined_data(chunks.drop_last()) + chunks.last().data
    }
}

/// The head of a bundle file that holds `chunks`.
pub open spec fn bundle_head(chunks: Seq<ChunkSpec>) -> Seq<u8> {
    framed_file_header() + frame(bundle_info_encoding(chunk_records(chunks)))
}

/// A bundle that is being written: the file up to where the compressed
/// payload goes, and the payload before compression.
pub struct BundleDraft {
    pub writer: AdlerWrite,
    pub payload: Vec<u8>,
}

/// Starts a bundle file that holds `chunks`: writes its head, and joins the
/// chunks' bytes for the caller to compress and write after it.  `None`
/// where a chunk is too long for its size to be recorded.
pub fn bundle_write_direct(encrypted: bool, chunks: &Vec<Chunk>) -> (draft: Option<BundleDraft>)
    ensures
        match draft {
            Some(d) => d.writer@.len() >= payload_start(encrypted) && d.writer@.skip(
                payload_start(encrypted) as int,
            ) == bundle_head(chunk_views(chunks@)) && d.payload@ == joined_data(
                chunk_views(chunks@),
            ) && forall|i: int| 0 <= i < chunks@.len() ==> chunks@[i].data@.len() <= u32::MAX,
            None => exists|i: int| 0 <= i < chunks@.len() && chunks@[i].data@.len() > u32::MAX,
        },
{
    let ghost all = chunk_views(chunks@);
    let mut records: Vec<ChunkRecord> = Vec::new();
    let mut payload: Vec<u8> = Vec::new();
    let mut i: usize = 0;
    proof {
        assert(all.take(0) =~= Seq::<ChunkSpec>::empty());
        assert(records@ =~= chunk_records(all.take(0)));
    }
    while i < chunks.len()
        invariant
            i <= chunks@.len(),
            all == chunk_views(chunks@),
            records@ == chunk_records(all.take(i as int)),
            payload@ == joined_data(all.take(i as int)),
            forall|k: int| 0 <= k < i ==> chunks@[k].data@.len() <= u32::MAX,
        decreases chunks@.len() - i,
    {
        let chunk = &chunks[i];
        if chunk.data.len() > u32::MAX as usize {
            return None;
        }
        records.push(ChunkRecord { chunk_id: chunk.chunk_id, size: chunk.data.len() as u32 });
        let mut k: usize = 0;
        let ghost before = payload@;
        while k < chunk.data.len()
            invariant
                k <= chunk.data@.len(),
                payload@ == before + chunk.data@.take(k as int),
            decreases chunk.data@.len() - k,
        {
            payload.push(chunk.data[k]);
            proof {
                assert(payload@ =~= before + chunk.data@.take(k + 1));
            }
            k = k + 1;
        }
        proof {
            assert(chunk.data@.take(k as int) =~= chunk.data@);
            assert(all.take(i + 1).drop_last() =~= all.take(i as int));
            assert(all.take(i + 1).last() == chunk@);
            assert(records@ =~= chunk_records(all.take(i + 1)));
        }
        i = i + 1;
    }
    proof {
        assert(all.take(i as int) =~= all);
    }
    let mut writer = wrap_writer(encrypted);
    let ghost prefix = writer@;
    let mut header_bytes: Vec<u8> = Vec::new();
    (FileHeader { version: FORMAT_VERSION }).write(&mut header_bytes);
    writer.write_record(header_bytes.as_slice());
    let mut info: Vec<u8> = Vec::new();
    write_chunk_records(&records, &mut info);
    writer.write_record(info.as_slice());
    proof {
        assert(header_bytes@ =~= file_header_encoding(FileHeader { version: 1 }));
        assert(info@ =~= bundle_info_encoding(chunk_records(all)));
        assert(writer@ =~= prefix + bundle_head(all));
        assert(writer@.skip(payload_start(encrypted) as int) =~= bundle_head(all));
    }
    Some(BundleDraft { writer, payload })
}

/// The sizes of the chunks add up to the length of their bytes put end to
/// end.
pub proof fn lemma_joined_data_len(chunks: Seq<ChunkSpec>)
    requires
        forall|i: int| 0 <= i < chunks.len() ==> (#[trigger] chunks[i]).data.len() <= u32::MAX,
    ensures
        total_size(chunk_records(chunks)) == joined_data(chunks).len(),
    decreases chunks.len(),
{
    if chunks.len() > 0 {
        let front = chunks.drop_last();
        assert forall|i: int| 0 <= i < front.len() implies (#[trigger] front[i]).data.len()
            <= u32::MAX by {
            assert(front[i] == chunks[i]);
        }
        lemma_joined_data_len(front);
        assert(chunk_records(chunks).drop_last() =~= chunk_records(front));
        assert(chunks[chunks.len() - 1].data.len() <= u32::MAX);
    }
}

/// The bytes of the first chunks are the front of the bytes of all.
pub proof fn lemma_joined_data_take(chunks: Seq<ChunkSpec>, i: int)
    requires
        0 <= i <= chunks.len(),
    ensures
        joined_data(chunks.take(i)).len() <= joined_data(chunks).len(),
        joined_data(chunks).take(joined_data(chunks.take(i)).len() as int) == joined_data(
            chunks.take(i),
        ),
        i < chunks.len() ==> joined_data(chunks.take(i + 1)) == joined_data(chunks.take(i))
            + chunks[i].data,
    decreases chunks.len() - i,
{
    if i < chunks.len() {
        assert(chunks.take(i + 1).drop_last() =~= chunks.take(i));
        assert(chunks.take(i + 1).last() == chunks[i]);
        lemma_joined_data_take(chunks, i + 1);
        let whole = joined_data(chunks);
        let longer = joined_data(chunks.take(i + 1));
        let shorter = joined_data(chunks.take(i));
        assert(whole.take(longer.len() as int).take(shorter.len() as int) =~= whole.take(
            shorter.len() as int,
        ));
        assert(longer.take(shorter.len() as int) =~= shorter);
    } else {
        assert(chunks.take(i) =~= chunks);
        assert(joined_data(chunks).take(joined_data(chunks).len() as int) =~= joined_data(
            chunks,
        ));
    }
}

/// Cutting the joined bytes of chunks at the sizes of their records gives
/// the chunks back.
pub proof fn lemma_chunk_slices_round_trip(chunks: Seq<ChunkSpec>)
    requires
        forall|i: int| 0 <= i < chunks.len() ==> (#[trigger] chunks[i]).data.len() <= u32::MAX,
    ensures
        chunk_slices(chunk_records(chunks), joined_data(chunks)) == Some(chunks),
{
    let records = chunk_records(chunks);
    let payload = joined_data(chunks);
    lemma_joined_data_len(chunks);
    let cut = chunk_slices(records, payload)->0;
    assert forall|i: int| 0 <= i < chunks.len() implies cut[i] == chunks[i] by {
        let front = chunks.take(i);
        let longer = chunks.take(i + 1);
        assert forall|k: int| 0 <= k < front.len() implies (#[trigger] front[k]).data.len()
            <= u32::MAX by {
            assert(front[k] == chunks[k]);
        }
        assert forall|k: int| 0 <= k < longer.len() implies (#[trigger] longer[k]).data.len()
            <= u32::MAX by {
            assert(longer[k] == chunks[k]);
        }
        lemma_joined_data_len(front);
        lemma_joined_data_len(longer);
        assert(records.take(i) =~= chunk_records(front));
        assert(records.take(i + 1) =~= chunk_records(longer));
        lemma_joined_data_take(chunks, i);
        lemma_joined_data_take(chunks, i + 1);
        let a = joined_data(front).len() as int;
        let b = joined_data(longer).len() as int;
        assert(payload.subrange(a, b) =~= payload.take(b).skip(a));
        assert(joined_data(longer).skip(a) =~= chunks[i].data);
        assert(payload.subrange(a, b) == chunks[i].data);
    }
    assert(cut =~= chunks);
}

/// The head of a bundle file reads back as the records of its chunks,
/// whatever payload follows it.
pub proof fn lemma_bundle_head_round_trip(chunks: Seq<ChunkSpec>, payload: Seq<u8>)
    requires
        bundle_info_encoding(chunk_records(chunks)).len() <= u64::MAX,
    ensures
        bundle_head_decode(bundle_head(chunks) + payload) == Some(
            (chunk_records(chunks), bundle_head(chunks).len()),
        ),
{
    let info = frame(bundle_info_encoding(chunk_records(chunks)));
    let all = bundle_head(chunks) + payload;
    assert(all =~= framed_file_header() + (info + payload));
    crate::index_file::lemma_file_header_taken(info + payload);
    assert(all.skip(framed_file_header().len() as int) =~= info + payload);
    crate::disk_format::lemma_frame_round_trip(
        bundle_info_encoding(chunk_records(chunks)),
        payload,
    );
    crate::records::lemma_bundle_info_round_trip(chunk_records(chunks));
}

} // verus!

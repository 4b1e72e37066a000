//! The records of the repository's files, and how each is laid out in
//! fields.

use crate::data::{id_of_bytes, lemma_id_bytes, lemma_id_of_bytes, BundleId, ChunkId, Id};
use crate::wire::{
    fields_decode, fields_encoding, fields_view, lemma_fields_encoding_push,
    lemma_fields_round_trip, read_fields,
    write_bytes_field, write_varint_field, Field, FieldSpec, WireSpec, WireValue,
};
use vstd::prelude::*;

verus! {

/// The payload of the last field numbered `number`, if there is one.  Where
/// a number occurs more than once in a record, the last occurrence counts.
pub open spec fn last_value(fields: Seq<FieldSpec>, number: u64) -> Option<WireSpec>
    decreases fields.len(),
{
    if fields.len() == 0 {
        None
    } else if fields.last().number == number {
        Some(fields.last().value)
    } else {
        last_value(fields.drop_last(), number)
    }
}

/// Whether every field numbered `number` has the wire kind `kind`.
pub open spec fn kinds_ok(fields: Seq<FieldSpec>, number: u64, kind: nat) -> bool {
    forall|i: int|
        0 <= i < fields.len() && (#[trigger] fields[i]).number == number ==> fields[i].value.kind()
            == kind
}

/// The last value is the payload of some field with that number.
pub proof fn lemma_last_value_is_field(fields: Seq<FieldSpec>, number: u64)
    ensures
        last_value(fields, number) matches Some(v) ==> exists|i: int|
            0 <= i < fields.len() && (#[trigger] fields[i]).number == number && fields[i].value
                == v,
        last_value(fields, number).is_none() ==> forall|i: int|
            0 <= i < fields.len() ==> (#[trigger] fields[i]).number != number,
    decreases fields.len(),
{
    if fields.len() > 0 {
        if fields.last().number == number {
            assert(fields[fields.len() - 1].number == number);
        } else {
            let front = fields.drop_last();
            lemma_last_value_is_field(front, number);
            if let Some(v) = last_value(front, number) {
                let i = choose|i: int|
                    0 <= i < front.len() && (#[trigger] front[i]).number == number
                        && front[i].value == v;
                assert(fields[i] == front[i]);
            } else {
                assert forall|i: int| 0 <= i < fields.len() implies (#[trigger] fields[i]).number
                    != number by {
                    if i < front.len() {
                        assert(fields[i] == front[i]);
                    }
                }
            }
        }
    }
}

/// Index of the last field numbered `number`; `Err` where some field with
/// that number has another wire kind than `kind`.
fn find_last(fields: &Vec<Field>, number: u64, kind: u8) -> (found: Result<Option<usize>, ()>)
    ensures
        match found {
            Ok(Some(at)) => at < fields@.len() && kinds_ok(fields_view(fields@), number, kind as nat)
                && fields@[at as int].number == number && last_value(
                fields_view(fields@),
                number,
            ) == Some(fields@[at as int].value@),
            Ok(None) => kinds_ok(fields_view(fields@), number, kind as nat) && last_value(
                fields_view(fields@),
                number,
            ).is_none(),
            Err(_) => !kinds_ok(fields_view(fields@), number, kind as nat),
        },
{
    let ghost all = fields_view(fields@);
    let mut found: Option<usize> = None;
    let mut i: usize = 0;
    while i < fields.len()
        invariant
            i <= fields@.len(),
            all == fields_view(fields@),
            kinds_ok(all.take(i as int), number, kind as nat),
            match found {
                Some(at) => at < i && fields@[at as int].number == number && last_value(
                    all.take(i as int),
                    number,
                ) == Some(all[at as int].value),
                None => last_value(all.take(i as int), number).is_none(),
            },
        decreases fields@.len() - i,
    {
        proof {
            assert(all.take(i + 1).drop_last() =~= all.take(i as int));
            assert(all.take(i + 1).last() == all[i as int]);
        }
        if fields[i].number == number {
            let same = match &fields[i].value {
                WireValue::Varint(_) => kind == 0,
                WireValue::Fixed64(_) => kind == 1,
                WireValue::Bytes(_) => kind == 2,
                WireValue::Fixed32(_) => kind == 5,
            };
            if !same {
                proof {
                    assert(all[i as int].number == number);
                    assert(all[i as int].value.kind() != kind as nat);
                }
                return Err(());
            }
            found = Some(i);
        }
        proof {
            assert forall|j: int|
                0 <= j < i + 1 && (#[trigger] all.take(i + 1)[j]).number
                    == number implies all.take(i + 1)[j].value.kind() == kind as nat by {
                if j < i {
                    assert(all.take(i as int)[j] == all.take(i + 1)[j]);
                }
            }
        }
        i = i + 1;
    }
    proof {
        assert(all.take(i as int) =~= all);
    }
    Ok(found)
}

/// The byte string of the last field numbered `number`.
pub fn last_bytes<'a>(fields: &'a Vec<Field>, number: u64) -> (found: Result<
    Option<&'a Vec<u8>>,
    (),
>)
    ensures
        match found {
            Ok(Some(bytes)) => kinds_ok(fields_view(fields@), number, 2) && last_value(
                fields_view(fields@),
                number,
            ) == Some(WireSpec::Bytes(bytes@)),
            Ok(None) => kinds_ok(fields_view(fields@), number, 2) && last_value(
                fields_view(fields@),
                number,
            ).is_none(),
            Err(_) => !kinds_ok(fields_view(fields@), number, 2),
        },
{
    match find_last(fields, number, 2) {
        Ok(Some(at)) => {
            proof {
                assert(fields_view(fields@)[at as int] == fields@[at as int]@);
            }
            match &fields[at].value {
                WireValue::Bytes(bytes) => Ok(Some(bytes)),
                _ => Err(()),
            }
        },
        Ok(None) => Ok(None),
        Err(_) => Err(()),
    }
}

/// The integer of the last field numbered `number`.
pub fn last_varint(fields: &Vec<Field>, number: u64) -> (found: Result<Option<u64>, ()>)
    ensures
        match found {
            Ok(Some(v)) => kinds_ok(fields_view(fields@), number, 0) && last_value(
                fields_view(fields@),
                number,
            ) == Some(WireSpec::Varint(v)),
            Ok(None) => kinds_ok(fields_view(fields@), number, 0) && last_value(
                fields_view(fields@),
                number,
            ).is_none(),
            Err(_) => !kinds_ok(fields_view(fields@), number, 0),
        },
{
    match find_last(fields, number, 0) {
        Ok(Some(at)) => {
            proof {
                assert(fields_view(fields@)[at as int] == fields@[at as int]@);
            }
            match &fields[at].value {
                WireValue::Varint(v) => Ok(Some(*v)),
                _ => Err(()),
            }
        },
        Ok(None) => Ok(None),
        Err(_) => Err(()),
    }
}

/// Copies a byte string.
pub fn copy_bytes(bytes: &Vec<u8>) -> (copy: Vec<u8>)
    ensures
        copy@ == bytes@,
{
    let mut copy: Vec<u8> = Vec::new();
    let mut i: usize = 0;
    while i < bytes.len()
        invariant
            i <= bytes@.len(),
            copy@ == bytes@.take(i as int),
        decreases bytes@.len() - i,
    {
        copy.push(bytes[i]);
        proof {
            assert(copy@ =~= bytes@.take(i + 1));
        }
        i = i + 1;
    }
    proof {
        assert(bytes@.take(bytes@.len() as int) =~= bytes@);
    }
    copy
}

/// One chunk of a bundle: its identifier and its size once decompressed.
#[derive(Clone, Copy, Debug, PartialEq, Eq, Structural)]
pub struct ChunkRecord {
    pub chunk_id: ChunkId,
    pub size: u32,
}

/// Field number of the identifier in a chunk record, a bundle header and an
/// index bundle header.
pub const FIELD_ID: u64 = 1;

/// Field number of the size in a chunk record.
pub const FIELD_SIZE: u64 = 2;

/// The fields of a chunk record: the identifier, then the size.
pub open spec fn chunk_record_fields(record: ChunkRecord) -> Seq<FieldSpec> {
    seq![
        FieldSpec { number: 1, value: WireSpec::Bytes(record.chunk_id@) },
        FieldSpec { number: 2, value: WireSpec::Varint(record.size as u64) },
    ]
}

/// The chunk record that a run of fields holds: field 1 is the identifier, a
/// byte string of 24 bytes, and field 2 the size, an integer of 32 bits.
/// Both are required.
pub open spec fn chunk_record_of(fields: Seq<FieldSpec>) -> Option<ChunkRecord> {
    if !kinds_ok(fields, 1, 2) || !kinds_ok(fields, 2, 0) {
        None
    } else {
        match (last_value(fields, 1), last_value(fields, 2)) {
            (Some(WireSpec::Bytes(id)), Some(WireSpec::Varint(size))) => if id.len() == 24 && size
                <= u32::MAX {
                Some(ChunkRecord { chunk_id: id_of_bytes(id), size: size as u32 })
            } else {
                None
            },
            _ => None,
        }
    }
}

/// The chunk record that a byte string holds.
pub open spec fn chunk_record_decode(bytes: Seq<u8>) -> Option<ChunkRecord> {
    match fields_decode(bytes) {
        Some(fields) => chunk_record_of(fields),
        None => None,
    }
}

/// The bytes of a chunk record.
pub open spec fn chunk_record_encoding(record: ChunkRecord) -> Seq<u8> {
    fields_encoding(chunk_record_fields(record))
}

/// Reading a written chunk record gives it back.
pub proof fn lemma_chunk_record_round_trip(record: ChunkRecord)
    ensures
        chunk_record_decode(chunk_record_encoding(record)) == Some(record),
{
    let fields = chunk_record_fields(record);
    lemma_id_bytes(record.chunk_id, record.chunk_id);
    lemma_fields_round_trip(fields);
    assert(fields.drop_last() =~= seq![fields[0]]);
    assert(fields.drop_last().drop_last() =~= Seq::<FieldSpec>::empty());
    assert(last_value(fields.drop_last(), 1) == Some(fields[0].value));
    lemma_id_bytes(id_of_bytes(record.chunk_id@), record.chunk_id);
    lemma_id_of_bytes(record.chunk_id@);
}

impl ChunkRecord {
    /// Reads a chunk record.
    pub fn parse(bytes: &[u8]) -> (found: Option<ChunkRecord>)
        ensures
            found == chunk_record_decode(bytes@),
    {
        let fields = match read_fields(bytes) {
            Some(fields) => fields,
            None => {
                return None;
            },
        };
        let id = match last_bytes(&fields, FIELD_ID) {
            Ok(Some(id)) => id,
            _ => {
                return None;
            },
        };
        let size = match last_varint(&fields, FIELD_SIZE) {
            Ok(Some(size)) => size,
            _ => {
                return None;
            },
        };
        if size > u32::MAX as u64 {
            return None;
        }
        match Id::from_bytes(id.as_slice()) {
            Some(chunk_id) => {
                proof {
                    lemma_id_of_bytes(id@);
                    lemma_id_bytes(chunk_id, id_of_bytes(id@));
                }
                Some(ChunkRecord { chunk_id, size: size as u32 })
            },
            None => None,
        }
    }

    /// Appends the bytes of the chunk record.
    pub fn write(&self, out: &mut Vec<u8>)
        ensures
            final(out)@ == old(out)@ + chunk_record_encoding(*self),
    {
        let id = self.chunk_id.to_bytes();
        write_bytes_field(out, FIELD_ID, id.as_slice());
        write_varint_field(out, FIELD_SIZE, self.size as u64);
        proof {
            let fields = chunk_record_fields(*self);
            let none = Seq::<FieldSpec>::empty();
            assert(fields =~= none.push(fields[0]).push(fields[1]));
            lemma_fields_encoding_push(none, fields[0]);
            lemma_fields_encoding_push(none.push(fields[0]), fields[1]);
            assert(out@ =~= old(out)@ + chunk_record_encoding(*self));
        }
    }
}


/// The last value after one more field.
pub proof fn lemma_last_value_push(fields: Seq<FieldSpec>, field: FieldSpec, number: u64)
    ensures
        last_value(fields.push(field), number) == if field.number == number {
            Some(field.value)
        } else {
            last_value(fields, number)
        },
{
    assert(fields.push(field).drop_last() =~= fields);
    assert(fields.push(field).last() == field);
}

/// The base-128 encoding of `n` has at most `n + 1` bytes.
pub proof fn lemma_varint_encoding_len(n: nat)
    ensures
        1 <= crate::wire::varint_encoding(n).len() <= n + 1,
    decreases n,
{
    if n >= 128 {
        lemma_varint_encoding_len(n / 128);
    }
}

/// The header that opens every file of the repository.
#[derive(Clone, Copy, Debug, PartialEq, Eq, Structural)]
pub struct FileHeader {
    pub version: u32,
}

/// The only version of the file format.
pub const FORMAT_VERSION: u32 = 1;

/// The fields of a file header.
pub open spec fn file_header_fields(header: FileHeader) -> Seq<FieldSpec> {
    Seq::<FieldSpec>::empty().push(
        FieldSpec { number: 1, value: WireSpec::Varint(header.version as u64) },
    )
}

/// The file header that a run of fields holds: field 1 is the version, an
/// integer of 32 bits, and is required.
pub open spec fn file_header_of(fields: Seq<FieldSpec>) -> Option<FileHeader> {
    if !kinds_ok(fields, 1, 0) {
        None
    } else {
        match last_value(fields, 1) {
            Some(WireSpec::Varint(v)) => if v <= u32::MAX {
                Some(FileHeader { version: v as u32 })
            } else {
                None
            },
            _ => None,
        }
    }
}

/// The file header that a byte string holds.
pub open spec fn file_header_decode(bytes: Seq<u8>) -> Option<FileHeader> {
    match fields_decode(bytes) {
        Some(fields) => file_header_of(fields),
        None => None,
    }
}

/// The bytes of a file header.
pub open spec fn file_header_encoding(header: FileHeader) -> Seq<u8> {
    fields_encoding(file_header_fields(header))
}

/// Reading a written file header gives it back.
pub proof fn lemma_file_header_round_trip(header: FileHeader)
    ensures
        file_header_decode(file_header_encoding(header)) == Some(header),
{
    let fields = file_header_fields(header);
    lemma_fields_round_trip(fields);
    lemma_last_value_push(Seq::empty(), fields[0], 1);
}

impl FileHeader {
    /// Reads a file header.
    pub fn parse(bytes: &[u8]) -> (found: Option<FileHeader>)
        ensures
            found == file_header_decode(bytes@),
    {
        let fields = match read_fields(bytes) {
            Some(fields) => fields,
            None => {
                return None;
            },
        };
        match last_varint(&fields, 1) {
            Ok(Some(v)) => if v <= u32::MAX as u64 {
                Some(FileHeader { version: v as u32 })
            } else {
                None
            },
            _ => None,
        }
    }

    /// Appends the bytes of the file header.
    pub fn write(&self, out: &mut Vec<u8>)
        ensures
            final(out)@ == old(out)@ + file_header_encoding(*self),
    {
        write_varint_field(out, 1, self.version as u64);
        proof {
            let fields = file_header_fields(*self);
            lemma_fields_encoding_push(Seq::empty(), fields[0]);
            assert(out@ =~= old(out)@ + file_header_encoding(*self));
        }
    }
}

/// The header that precedes each bundle's record in an index file.  The
/// header without an identifier ends the file.
#[derive(Clone, Copy, Debug, PartialEq, Eq, Structural)]
pub struct IndexBundleHeader {
    pub bundle_id: Option<BundleId>,
}

/// The fields of an index bundle header: the identifier, if it has one.
pub open spec fn index_bundle_header_fields(header: IndexBundleHeader) -> Seq<FieldSpec> {
    match header.bundle_id {
        Some(id) => Seq::<FieldSpec>::empty().push(
            FieldSpec { number: 1, value: WireSpec::Bytes(id@) },
        ),
        None => Seq::<FieldSpec>::empty(),
    }
}

/// The index bundle header that a run of fields holds: field 1 is the
/// identifier, a byte string of 24 bytes; where it is absent or empty the
/// header has none.
pub open spec fn index_bundle_header_of(fields: Seq<FieldSpec>) -> Option<IndexBundleHeader> {
    if !kinds_ok(fields, 1, 2) {
        None
    } else {
        match last_value(fields, 1) {
            Some(WireSpec::Bytes(id)) => if id.len() == 24 {
                Some(IndexBundleHeader { bundle_id: Some(id_of_bytes(id)) })
            } else if id.len() == 0 {
                Some(IndexBundleHeader { bundle_id: None })
            } else {
                None
            },
            _ => Some(IndexBundleHeader { bundle_id: None }),
        }
    }
}

/// The index bundle header that a byte string holds.
pub open spec fn index_bundle_header_decode(bytes: Seq<u8>) -> Option<IndexBundleHeader> {
    match fields_decode(bytes) {
        Some(fields) => index_bundle_header_of(fields),
        None => None,
    }
}

/// The bytes of an index bundle header.
pub open spec fn index_bundle_header_encoding(header: IndexBundleHeader) -> Seq<u8> {
    fields_encoding(index_bundle_header_fields(header))
}

/// Reading a written index bundle header gives it back.
pub proof fn lemma_index_bundle_header_round_trip(header: IndexBundleHeader)
    ensures
        index_bundle_header_decode(index_bundle_header_encoding(header)) == Some(header),
{
    let fields = index_bundle_header_fields(header);
    match header.bundle_id {
        Some(id) => {
            lemma_id_bytes(id, id);
            lemma_fields_round_trip(fields);
            lemma_last_value_push(Seq::empty(), fields[0], 1);
            lemma_id_of_bytes(id@);
            lemma_id_bytes(id_of_bytes(id@), id);
        },
        None => {
            lemma_fields_round_trip(fields);
        },
    }
}

impl IndexBundleHeader {
    /// Reads an index bundle header.
    pub fn parse(bytes: &[u8]) -> (found: Option<IndexBundleHeader>)
        ensures
            found == index_bundle_header_decode(bytes@),
    {
        let fields = match read_fields(bytes) {
            Some(fields) => fields,
            None => {
                return None;
            },
        };
        match last_bytes(&fields, 1) {
            Ok(Some(id)) => {
                if id.len() == 0 {
                    Some(IndexBundleHeader { bundle_id: None })
                } else {
                    match Id::from_bytes(id.as_slice()) {
                        Some(bundle_id) => {
                            proof {
                                lemma_id_of_bytes(id@);
                                lemma_id_bytes(bundle_id, id_of_bytes(id@));
                            }
                            Some(IndexBundleHeader { bundle_id: Some(bundle_id) })
                        },
                        None => None,
                    }
                }
            },
            Ok(None) => Some(IndexBundleHeader { bundle_id: None }),
            Err(_) => None,
        }
    }

    /// Appends the bytes of the index bundle header.
    pub fn write(&self, out: &mut Vec<u8>)
        ensures
            final(out)@ == old(out)@ + index_bundle_header_encoding(*self),
    {
        match self.bundle_id {
            Some(id) => {
                let bytes = id.to_bytes();
                write_bytes_field(out, 1, bytes.as_slice());
                proof {
                    let fields = index_bundle_header_fields(*self);
                    lemma_fields_encoding_push(Seq::empty(), fields[0]);
                    assert(out@ =~= old(out)@ + index_bundle_header_encoding(*self));
                }
            },
            None => {
                proof {
                    assert(out@ =~= old(out)@ + index_bundle_header_encoding(*self));
                }
            },
        }
    }
}

/// The record of a bundle: its chunks, in the order in which their bytes
/// follow one another in the bundle's payload.
#[derive(Clone, Debug, PartialEq, Eq)]
pub struct BundleInfo {
    pub chunks: Vec<ChunkRecord>,
}

impl View for BundleInfo {
    type V = Seq<ChunkRecord>;

    open spec fn view(&self) -> Seq<ChunkRecord> {
        self.chunks@
    }
}

/// The field that carries one chunk record inside a bundle record.
pub open spec fn chunk_field(record: ChunkRecord) -> FieldSpec {
    FieldSpec { number: 1, value: WireSpec::Bytes(chunk_record_encoding(record)) }
}

/// The fields of a bundle record: one per chunk, in order.
pub open spec fn bundle_info_fields(chunks: Seq<ChunkRecord>) -> Seq<FieldSpec> {
    chunks.map_values(|record: ChunkRecord| chunk_field(record))
}

/// The chunks that a run of fields holds: every field numbered 1 is a byte
/// string holding a chunk record, and they count in the order they come in.
pub open spec fn bundle_info_of(fields: Seq<FieldSpec>) -> Option<Seq<ChunkRecord>>
    decreases fields.len(),
{
    if fields.len() == 0 {
        Some(Seq::empty())
    } else {
        match bundle_info_of(fields.drop_last()) {
            None => None,
            Some(done) => {
                let field = fields.last();
                if field.number != 1 {
                    Some(done)
                } else {
                    match field.value {
                        WireSpec::Bytes(inner) => match chunk_record_decode(inner) {
                            Some(record) => Some(done.push(record)),
                            None => None,
                        },
                        _ => None,
                    }
                }
            },
        }
    }
}

/// The chunks that a byte string holds as a bundle record.
pub open spec fn bundle_info_decode(bytes: Seq<u8>) -> Option<Seq<ChunkRecord>> {
    match fields_decode(bytes) {
        Some(fields) => bundle_info_of(fields),
        None => None,
    }
}

/// The bytes of a bundle record.
pub open spec fn bundle_info_encoding(chunks: Seq<ChunkRecord>) -> Seq<u8> {
    fields_encoding(bundle_info_fields(chunks))
}

/// A chunk record is written in fewer bytes than a length prefix can count.
pub proof fn lemma_chunk_field_well_formed(record: ChunkRecord)
    ensures
        chunk_field(record).well_formed(),
{
    let fields = chunk_record_fields(record);
    let none = Seq::<FieldSpec>::empty();
    assert(fields =~= none.push(fields[0]).push(fields[1]));
    lemma_fields_encoding_push(none, fields[0]);
    lemma_fields_encoding_push(none.push(fields[0]), fields[1]);
    lemma_id_bytes(record.chunk_id, record.chunk_id);
    lemma_varint_encoding_len(fields[0].tag());
    lemma_varint_encoding_len(24);
    lemma_varint_encoding_len(fields[1].tag());
    lemma_varint_encoding_len(record.size as nat);
}

/// Reading a written bundle record gives its chunks back.
pub proof fn lemma_bundle_info_round_trip(chunks: Seq<ChunkRecord>)
    ensures
        bundle_info_decode(bundle_info_encoding(chunks)) == Some(chunks),
{
    let fields = bundle_info_fields(chunks);
    assert forall|i: int| 0 <= i < fields.len() implies (#[trigger] fields[i]).well_formed() by {
        lemma_chunk_field_well_formed(chunks[i]);
    }
    lemma_fields_round_trip(fields);
    lemma_bundle_info_of_fields(chunks);
}

proof fn lemma_bundle_info_of_fields(chunks: Seq<ChunkRecord>)
    ensures
        bundle_info_of(bundle_info_fields(chunks)) == Some(chunks),
    decreases chunks.len(),
{
    let fields = bundle_info_fields(chunks);
    if chunks.len() == 0 {
        assert(chunks =~= Seq::<ChunkRecord>::empty());
    } else {
        lemma_bundle_info_of_fields(chunks.drop_last());
        assert(fields.drop_last() =~= bundle_info_fields(chunks.drop_last()));
        assert(fields.last() == chunk_field(chunks.last()));
        lemma_chunk_record_round_trip(chunks.last());
        assert(chunks.drop_last().push(chunks.last()) =~= chunks);
    }
}

impl BundleInfo {
    /// Reads a bundle record.
    pub fn parse(bytes: &[u8]) -> (found: Option<BundleInfo>)
        ensures
            match found {
                Some(info) => bundle_info_decode(bytes@) == Some(info@),
                None => bundle_info_decode(bytes@).is_none(),
            },
    {
        let fields = match read_fields(bytes) {
            Some(fields) => fields,
            None => {
                return None;
            },
        };
        let ghost all = fields_view(fields@);
        let mut chunks: Vec<ChunkRecord> = Vec::new();
        let mut i: usize = 0;
        proof {
            assert(all.take(0) =~= Seq::<FieldSpec>::empty());
        }
        while i < fields.len()
            invariant
                i <= fields@.len(),
                all == fields_view(fields@),
                fields_decode(bytes@) == Some(all),
                bundle_info_of(all.take(i as int)) == Some(chunks@),
            decreases fields@.len() - i,
        {
            proof {
                assert(all.take(i + 1).drop_last() =~= all.take(i as int));
                assert(all.take(i + 1).last() == fields@[i as int]@);
            }
            if fields[i].number == 1 {
                match &fields[i].value {
                    WireValue::Bytes(inner) => {
                        match ChunkRecord::parse(inner.as_slice()) {
                            Some(record) => {
                                chunks.push(record);
                            },
                            None => {
                                proof {
                                    assert(bundle_info_of(all.take(i + 1)).is_none());
                                    lemma_bundle_info_of_prefix(all, i + 1);
                                }
                                return None;
                            },
                        }
                    },
                    _ => {
                        proof {
                            assert(bundle_info_of(all.take(i + 1)).is_none());
                            lemma_bundle_info_of_prefix(all, i + 1);
                        }
                        return None;
                    },
                }
            }
            i = i + 1;
        }
        proof {
            assert(all.take(i as int) =~= all);
        }
        Some(BundleInfo { chunks })
    }

    /// Appends the bytes of the bundle record.
    pub fn write(&self, out: &mut Vec<u8>)
        ensures
            final(out)@ == old(out)@ + bundle_info_encoding(self@),
    {
        write_chunk_records(&self.chunks, out);
    }
}

/// A record whose leading fields cannot be read cannot be read.
proof fn lemma_bundle_info_of_prefix(fields: Seq<FieldSpec>, n: int)
    requires
        0 <= n <= fields.len(),
        bundle_info_of(fields.take(n)).is_none(),
    ensures
        bundle_info_of(fields).is_none(),
    decreases fields.len() - n,
{
    if n < fields.len() {
        assert(fields.take(n + 1).drop_last() =~= fields.take(n));
        lemma_bundle_info_of_prefix(fields, n + 1);
    } else {
        assert(fields.take(n) =~= fields);
    }
}

/// Appends the bytes of a bundle record with the given chunks.
pub fn write_chunk_records(chunks: &Vec<ChunkRecord>, out: &mut Vec<u8>)
    ensures
        final(out)@ == old(out)@ + bundle_info_encoding(chunks@),
{
    let mut i: usize = 0;
    proof {
        assert(bundle_info_fields(chunks@.take(0)) =~= Seq::<FieldSpec>::empty());
        assert(out@ =~= old(out)@ + bundle_info_encoding(chunks@.take(0)));
    }
    while i < chunks.len()
        invariant
            i <= chunks@.len(),
            out@ == old(out)@ + bundle_info_encoding(chunks@.take(i as int)),
        decreases chunks@.len() - i,
    {
        let mut inner: Vec<u8> = Vec::new();
        chunks[i].write(&mut inner);
        write_bytes_field(out, 1, inner.as_slice());
        proof {
            let done = bundle_info_fields(chunks@.take(i as int));
            assert(inner@ =~= chunk_record_encoding(chunks@[i as int]));
            assert(bundle_info_fields(chunks@.take(i + 1)) =~= done.push(
                chunk_field(chunks@[i as int]),
            ));
            lemma_fields_encoding_push(done, chunk_field(chunks@[i as int]));
            assert(out@ =~= old(out)@ + bundle_info_encoding(chunks@.take(i + 1)));
        }
        i = i + 1;
    }
    proof {
        assert(chunks@.take(i as int) =~= chunks@);
    }
}

/// One step of a backup's reconstruction: a chunk to emit, then literal
/// bytes to emit; either may be absent.
#[derive(Clone, Debug, PartialEq, Eq)]
pub struct BackupInstruction {
    pub chunk_to_emit: Option<ChunkId>,
    pub bytes_to_emit: Option<Vec<u8>>,
}

/// What a `BackupInstruction` stands for.
pub struct InstructionSpec {
    pub chunk: Option<ChunkId>,
    pub bytes: Option<Seq<u8>>,
}

impl View for BackupInstruction {
    type V = InstructionSpec;

    open spec fn view(&self) -> InstructionSpec {
        InstructionSpec {
            chunk: self.chunk_to_emit,
            bytes: match self.bytes_to_emit {
                Some(b) => Some(b@),
                None => None,
            },
        }
    }
}

/// The fields of an instruction: the chunk, then the literal bytes, each
/// only if present.
pub open spec fn instruction_fields(instruction: InstructionSpec) -> Seq<FieldSpec> {
    let none = Seq::<FieldSpec>::empty();
    let first = match instruction.chunk {
        Some(id) => none.push(FieldSpec { number: 1, value: WireSpec::Bytes(id@) }),
        None => none,
    };
    match instruction.bytes {
        Some(b) => first.push(FieldSpec { number: 2, value: WireSpec::Bytes(b) }),
        None => first,
    }
}

/// The instruction that a run of fields holds: field 1 is the chunk to
/// emit, a byte string of 24 bytes, and field 2 the literal bytes.
pub open spec fn instruction_of(fields: Seq<FieldSpec>) -> Option<InstructionSpec> {
    if !kinds_ok(fields, 1, 2) || !kinds_ok(fields, 2, 2) {
        None
    } else {
        let bytes = match last_value(fields, 2) {
            Some(WireSpec::Bytes(b)) => Some(b),
            _ => None,
        };
        match last_value(fields, 1) {
            Some(WireSpec::Bytes(id)) => if id.len() == 24 {
                Some(InstructionSpec { chunk: Some(id_of_bytes(id)), bytes })
            } else {
                None
            },
            _ => Some(InstructionSpec { chunk: None, bytes }),
        }
    }
}

/// The instruction that a byte string holds.
pub open spec fn instruction_decode(bytes: Seq<u8>) -> Option<InstructionSpec> {
    match fields_decode(bytes) {
        Some(fields) => instruction_of(fields),
        None => None,
    }
}

/// The bytes of an instruction.
pub open spec fn instruction_encoding(instruction: InstructionSpec) -> Seq<u8> {
    fields_encoding(instruction_fields(instruction))
}

/// Reading a written instruction gives it back.
pub proof fn lemma_instruction_round_trip(instruction: InstructionSpec)
    requires
        instruction.bytes matches Some(b) ==> b.len() <= u64::MAX,
    ensures
        instruction_decode(instruction_encoding(instruction)) == Some(instruction),
{
    let fields = instruction_fields(instruction);
    let none = Seq::<FieldSpec>::empty();
    if let Some(id) = instruction.chunk {
        lemma_id_bytes(id, id);
        lemma_id_of_bytes(id@);
        lemma_id_bytes(id_of_bytes(id@), id);
    }
    lemma_fields_round_trip(fields);
    match (instruction.chunk, instruction.bytes) {
        (Some(id), Some(b)) => {
            let f1 = FieldSpec { number: 1, value: WireSpec::Bytes(id@) };
            let f2 = FieldSpec { number: 2, value: WireSpec::Bytes(b) };
            lemma_last_value_push(none, f1, 1);
            lemma_last_value_push(none, f1, 2);
            lemma_last_value_push(none.push(f1), f2, 1);
            lemma_last_value_push(none.push(f1), f2, 2);
        },
        (Some(id), None) => {
            let f1 = FieldSpec { number: 1, value: WireSpec::Bytes(id@) };
            lemma_last_value_push(none, f1, 1);
            lemma_last_value_push(none, f1, 2);
        },
        (None, Some(b)) => {
            let f2 = FieldSpec { number: 2, value: WireSpec::Bytes(b) };
            lemma_last_value_push(none, f2, 1);
            lemma_last_value_push(none, f2, 2);
        },
        (None, None) => {},
    }
}

impl BackupInstruction {
    /// Reads an instruction.
    pub fn parse(bytes: &[u8]) -> (found: Option<BackupInstruction>)
        ensures
            match found {
                Some(instruction) => instruction_decode(bytes@) == Some(instruction@),
                None => instruction_decode(bytes@).is_none(),
            },
    {
        let fields = match read_fields(bytes) {
            Some(fields) => fields,
            None => {
                return None;
            },
        };
        let bytes_to_emit = match last_bytes(&fields, 2) {
            Ok(Some(b)) => Some(copy_bytes(b)),
            Ok(None) => None,
            Err(_) => {
                return None;
            },
        };
        match last_bytes(&fields, 1) {
            Ok(Some(id)) => match Id::from_bytes(id.as_slice()) {
                Some(chunk_id) => {
                    proof {
                        lemma_id_of_bytes(id@);
                        lemma_id_bytes(chunk_id, id_of_bytes(id@));
                    }
                    Some(BackupInstruction { chunk_to_emit: Some(chunk_id), bytes_to_emit })
                },
                None => None,
            },
            Ok(None) => Some(BackupInstruction { chunk_to_emit: None, bytes_to_emit }),
            Err(_) => None,
        }
    }

    /// Appends the bytes of the instruction.
    pub fn write(&self, out: &mut Vec<u8>)
        ensures
            final(out)@ == old(out)@ + instruction_encoding(self@),
    {
        let ghost none = Seq::<FieldSpec>::empty();
        let ghost start = out@;
        match self.chunk_to_emit {
            Some(id) => {
                let bytes = id.to_bytes();
                write_bytes_field(out, 1, bytes.as_slice());
                proof {
                    lemma_fields_encoding_push(
                        none,
                        FieldSpec { number: 1, value: WireSpec::Bytes(id@) },
                    );
                }
            },
            None => {},
        }
        let ghost first = match self.chunk_to_emit {
            Some(id) => none.push(FieldSpec { number: 1, value: WireSpec::Bytes(id@) }),
            None => none,
        };
        proof {
            assert(out@ =~= start + fields_encoding(first));
        }
        match &self.bytes_to_emit {
            Some(b) => {
                write_bytes_field(out, 2, b.as_slice());
                proof {
                    lemma_fields_encoding_push(
                        first,
                        FieldSpec { number: 2, value: WireSpec::Bytes(b@) },
                    );
                    assert(out@ =~= start + instruction_encoding(self@));
                }
            },
            None => {},
        }
    }
}

/// The record of a backup file.
#[derive(Clone, Debug, PartialEq, Eq)]
pub struct BackupInfo {
    /// SHA-256 of the restored bytes.
    pub sha256: Vec<u8>,
    /// How often the expansion is fed back in as instructions.
    pub iterations: u32,
    /// The first instruction stream.
    pub backup_data: Vec<u8>,
}

/// What a `BackupInfo` stands for.
pub struct BackupInfoSpec {
    pub sha256: Seq<u8>,
    pub iterations: u32,
    pub backup_data: Seq<u8>,
}

impl View for BackupInfo {
    type V = BackupInfoSpec;

    open spec fn view(&self) -> BackupInfoSpec {
        BackupInfoSpec {
            sha256: self.sha256@,
            iterations: self.iterations,
            backup_data: self.backup_data@,
        }
    }
}

/// The backup record that a run of fields holds: field 1 is the instruction
/// bytes; field 2 the iteration count, an integer of 32 bits that counts as
/// 0 where it is absent; field 4 the digest, a byte string of 32 bytes.
/// Instruction bytes and digest are required.  Other fields are passed
/// over.
pub open spec fn backup_info_of(fields: Seq<FieldSpec>) -> Option<BackupInfoSpec> {
    if !kinds_ok(fields, 1, 2) || !kinds_ok(fields, 2, 0) || !kinds_ok(fields, 4, 2) {
        None
    } else {
        let iterations = match last_value(fields, 2) {
            Some(WireSpec::Varint(n)) => n,
            _ => 0,
        };
        match (last_value(fields, 4), last_value(fields, 1)) {
            (Some(WireSpec::Bytes(sha256)), Some(WireSpec::Bytes(backup_data))) => if sha256.len()
                == 32 && iterations <= u32::MAX {
                Some(BackupInfoSpec { sha256, iterations: iterations as u32, backup_data })
            } else {
                None
            },
            _ => None,
        }
    }
}

/// The backup record that a byte string holds.
pub open spec fn backup_info_decode(bytes: Seq<u8>) -> Option<BackupInfoSpec> {
    match fields_decode(bytes) {
        Some(fields) => backup_info_of(fields),
        None => None,
    }
}

/// Field number of the instruction bytes in a backup record.
pub const FIELD_BACKUP_DATA: u64 = 1;

/// Field number of the iteration count in a backup record.
pub const FIELD_ITERATIONS: u64 = 2;

/// Field number of the digest in a backup record.
pub const FIELD_SHA256: u64 = 4;

impl BackupInfo {
    /// Reads a backup record.
    pub fn parse(bytes: &[u8]) -> (found: Option<BackupInfo>)
        ensures
            match found {
                Some(info) => backup_info_decode(bytes@) == Some(info@),
                None => backup_info_decode(bytes@).is_none(),
            },
    {
        let fields = match read_fields(bytes) {
            Some(fields) => fields,
            None => {
                return None;
            },
        };
        let sha256 = match last_bytes(&fields, FIELD_SHA256) {
            Ok(found) => found,
            Err(_) => {
                return None;
            },
        };
        let iterations = match last_varint(&fields, FIELD_ITERATIONS) {
            Ok(Some(n)) => n,
            Ok(None) => 0,
            Err(_) => {
                return None;
            },
        };
        let backup_data = match last_bytes(&fields, FIELD_BACKUP_DATA) {
            Ok(found) => found,
            Err(_) => {
                return None;
            },
        };
        match (sha256, backup_data) {
            (Some(sha256), Some(backup_data)) => {
                if sha256.len() == 32 && iterations <= u32::MAX as u64 {
                    Some(
                        BackupInfo {
                            sha256: copy_bytes(sha256),
                            iterations: iterations as u32,
                            backup_data: copy_bytes(backup_data),
                        },
                    )
                } else {
                    None
                }
            },
            _ => None,
        }
    }
}

/// The record of the `info` file that the engine reads: whether the
/// repository is encrypted, and with what wrapped key.
#[derive(Clone, Debug, PartialEq, Eq)]
pub struct StorageInfo {
    /// The wrapped encryption key, as the bytes of its own record.
    pub encryption_key: Option<Vec<u8>>,
}

impl StorageInfo {
    /// Whether the repository declares an encryption key.
    pub open spec fn spec_has_encryption_key(&self) -> bool {
        self.encryption_key is Some
    }

    /// Whether the repository declares an encryption key.
    #[verifier::when_used_as_spec(spec_has_encryption_key)]
    pub fn has_encryption_key(&self) -> (declared: bool)
        ensures
            declared == self.spec_has_encryption_key(),
    {
        self.encryption_key.is_some()
    }
}

/// The wrapped key that a run of fields of an `info` record holds: field 3,
/// a byte string.  `None` where the fields are no `info` record; `Some(None)`
/// where the record declares no key.
pub open spec fn storage_info_of(fields: Seq<FieldSpec>) -> Option<Option<Seq<u8>>> {
    if !kinds_ok(fields, 3, 2) {
        None
    } else {
        match last_value(fields, 3) {
            Some(WireSpec::Bytes(key)) => Some(Some(key)),
            _ => Some(None),
        }
    }
}

/// The wrapped key that a byte string holds as an `info` record.
pub open spec fn storage_info_decode(bytes: Seq<u8>) -> Option<Option<Seq<u8>>> {
    match fields_decode(bytes) {
        Some(fields) => storage_info_of(fields),
        None => None,
    }
}

impl StorageInfo {
    /// Reads an `info` record.
    pub fn parse(bytes: &[u8]) -> (found: Option<StorageInfo>)
        ensures
            match found {
                Some(info) => storage_info_decode(bytes@) == Some(
                    match info.encryption_key {
                        Some(key) => Some(key@),
                        None => None,
                    },
                ),
                None => storage_info_decode(bytes@).is_none(),
            },
    {
        let fields = match read_fields(bytes) {
            Some(fields) => fields,
            None => {
                return None;
            },
        };
        match last_bytes(&fields, 3) {
            Ok(Some(key)) => Some(StorageInfo { encryption_key: Some(copy_bytes(key)) }),
            Ok(None) => Some(StorageInfo { encryption_key: None }),
            Err(_) => None,
        }
    }
}

/// The wrapped repository key, as the `info` record holds it.
#[derive(Clone, Debug, PartialEq, Eq)]
pub struct EncryptionKeyInfo {
    pub salt: Vec<u8>,
    pub rounds: u32,
    pub encrypted_key: Vec<u8>,
    pub key_check_input: Vec<u8>,
    pub key_check_hmac: Vec<u8>,
}

/// What an `EncryptionKeyInfo` stands for.
pub struct EncryptionKeyInfoSpec {
    pub salt: Seq<u8>,
    pub rounds: u32,
    pub encrypted_key: Seq<u8>,
    pub key_check_input: Seq<u8>,
    pub key_check_hmac: Seq<u8>,
}

impl View for EncryptionKeyInfo {
    type V = EncryptionKeyInfoSpec;

    open spec fn view(&self) -> EncryptionKeyInfoSpec {
        EncryptionKeyInfoSpec {
            salt: self.salt@,
            rounds: self.rounds,
            encrypted_key: self.encrypted_key@,
            key_check_input: self.key_check_input@,
            key_check_hmac: self.key_check_hmac@,
        }
    }
}

/// The wrapped key that a run of fields holds: field 1 the salt, field 2 the
/// number of rounds, field 3 the encrypted key, field 4 the key-check input
/// and field 5 its authentication code.  All five are required.
pub open spec fn encryption_key_info_of(fields: Seq<FieldSpec>) -> Option<EncryptionKeyInfoSpec> {
    if !kinds_ok(fields, 1, 2) || !kinds_ok(fields, 2, 0) || !kinds_ok(fields, 3, 2) || !kinds_ok(
        fields,
        4,
        2,
    ) || !kinds_ok(fields, 5, 2) {
        None
    } else {
        match (
            last_value(fields, 1),
            last_value(fields, 2),
            last_value(fields, 3),
            last_value(fields, 4),
            last_value(fields, 5),
        ) {
            (
                Some(WireSpec::Bytes(salt)),
                Some(WireSpec::Varint(rounds)),
                Some(WireSpec::Bytes(encrypted_key)),
                Some(WireSpec::Bytes(key_check_input)),
                Some(WireSpec::Bytes(key_check_hmac)),
            ) => if rounds <= u32::MAX {
                Some(
                    EncryptionKeyInfoSpec {
                        salt,
                        rounds: rounds as u32,
                        encrypted_key,
                        key_check_input,
                        key_check_hmac,
                    },
                )
            } else {
                None
            },
            _ => None,
        }
    }
}

/// The wrapped key that a byte string holds.
pub open spec fn encryption_key_info_decode(bytes: Seq<u8>) -> Option<EncryptionKeyInfoSpec> {
    match fields_decode(bytes) {
        Some(fields) => encryption_key_info_of(fields),
        None => None,
    }
}

impl EncryptionKeyInfo {
    /// Reads a wrapped key.
    pub fn parse(bytes: &[u8]) -> (found: Option<EncryptionKeyInfo>)
        ensures
            match found {
                Some(info) => encryption_key_info_decode(bytes@) == Some(info@),
                None => encryption_key_info_decode(bytes@).is_none(),
            },
    {
        let fields = match read_fields(bytes) {
            Some(fields) => fields,
            None => {
                return None;
            },
        };
        let salt = match last_bytes(&fields, 1) {
            Ok(Some(found)) => found,
            _ => {
                return None;
            },
        };
        let rounds = match last_varint(&fields, 2) {
            Ok(Some(found)) => found,
            _ => {
                return None;
            },
        };
        let encrypted_key = match last_bytes(&fields, 3) {
            Ok(Some(found)) => found,
            _ => {
                return None;
            },
        };
        let key_check_input = match last_bytes(&fields, 4) {
            Ok(Some(found)) => found,
            _ => {
                return None;
            },
        };
        let key_check_hmac = match last_bytes(&fields, 5) {
            Ok(Some(found)) => found,
            _ => {
                return None;
            },
        };
        if rounds > u32::MAX as u64 {
            return None;
        }
        Some(
            EncryptionKeyInfo {
                salt: copy_bytes(salt),
                rounds: rounds as u32,
                encrypted_key: copy_bytes(encrypted_key),
                key_check_input: copy_bytes(key_check_input),
                key_check_hmac: copy_bytes(key_check_hmac),
            },
        )
    }
}

} // verus!

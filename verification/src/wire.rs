//! The wire grammar of the binary record format: base-128 integers and
//! tagged fields.
//!
//! A record is a run of fields.  Each field starts with a base-128 integer
//! holding its number and wire kind, followed by a base-128 integer, a
//! length-prefixed byte string, or four or eight fixed bytes.

use vstd::prelude::*;

verus! {

/// The base-128 encoding of `n`: seven bits per byte, least significant
/// group first, the top bit set on every byte but the last.
pub open spec fn varint_encoding(n: nat) -> Seq<u8>
    decreases n,
{
    if n < 128 {
        seq![n as u8]
    } else {
        seq![(128 + n % 128) as u8] + varint_encoding(n / 128)
    }
}

/// Reads a base-128 integer from the front of `bytes`, where `depth` bytes
/// of it have been read already.  Gives the value and the number of bytes
/// taken.  An integer longer than ten bytes, one that runs off the end, and
/// one whose value does not fit in 64 bits are all refused.
pub open spec fn varint_decode_at(bytes: Seq<u8>, depth: nat) -> Option<(u64, nat)>
    decreases bytes.len(),
{
    if depth >= 10 || bytes.len() == 0 {
        None
    } else if bytes[0] < 128 {
        Some((bytes[0] as u64, 1))
    } else {
        match varint_decode_at(bytes.skip(1), depth + 1) {
            Some((rest, taken)) => if (bytes[0] - 128) + 128 * rest <= u64::MAX {
                Some((((bytes[0] - 128) + 128 * rest) as u64, taken + 1))
            } else {
                None
            },
            None => None,
        }
    }
}

/// Reads a base-128 integer from the front of `bytes`.
pub open spec fn varint_decode(bytes: Seq<u8>) -> Option<(u64, nat)> {
    varint_decode_at(bytes, 0)
}

/// 128 to the power `k`.
pub open spec fn pow128(k: nat) -> nat
    decreases k,
{
    if k == 0 {
        1
    } else {
        128 * pow128((k - 1) as nat)
    }
}

/// What is read never reaches past the end of the input.
pub proof fn lemma_varint_decode_bounds(bytes: Seq<u8>, depth: nat)
    ensures
        varint_decode_at(bytes, depth) matches Some((_, taken)) ==> 1 <= taken <= bytes.len()
            && depth + taken <= 10,
    decreases bytes.len(),
{
    if depth < 10 && bytes.len() > 0 && bytes[0] >= 128 {
        lemma_varint_decode_bounds(bytes.skip(1), depth + 1);
    }
}

/// Decoding undoes encoding, whatever follows the encoded integer.
pub proof fn lemma_varint_round_trip(n: nat, rest: Seq<u8>, depth: nat)
    requires
        n <= u64::MAX,
        depth < 10,
        n < pow128((10 - depth) as nat),
    ensures
        varint_decode_at(varint_encoding(n) + rest, depth) == Some(
            (n as u64, varint_encoding(n).len()),
        ),
    decreases n,
{
    let all = varint_encoding(n) + rest;
    if n < 128 {
        assert(all[0] == n as u8);
    } else {
        let tail = varint_encoding(n / 128);
        assert(all[0] == (128 + n % 128) as u8);
        assert(all.skip(1) =~= tail + rest);
        assert(pow128((10 - depth) as nat) == 128 * pow128((10 - depth - 1) as nat));
        if depth == 9 {
            assert(pow128(1) == 128 * pow128(0));
            assert(false);
        }
        lemma_varint_round_trip(n / 128, rest, depth + 1);
        assert(varint_encoding(n).len() == tail.len() + 1);
    }
}

/// Every 64-bit value is below 128 to the tenth.
pub proof fn lemma_u64_below_pow128()
    ensures
        u64::MAX < pow128(10),
{
    reveal_with_fuel(pow128, 11);
}

/// Appends the base-128 encoding of `n`.
pub fn write_varint(out: &mut Vec<u8>, n: u64)
    ensures
        final(out)@ == old(out)@ + varint_encoding(n as nat),
{
    let mut left: u64 = n;
    while left >= 128
        invariant
            old(out)@ + varint_encoding(n as nat) == out@ + varint_encoding(left as nat),
        decreases left,
    {
        let ghost before = out@;
        out.push((128 + left % 128) as u8);
        proof {
            assert(before + varint_encoding(left as nat) =~= out@ + varint_encoding(
                (left / 128) as nat,
            ));
        }
        left = left / 128;
    }
    let ghost before = out@;
    out.push(left as u8);
    proof {
        assert(before + varint_encoding(left as nat) =~= out@);
    }
}

fn read_varint_at(data: &[u8], pos: usize, depth: u8) -> (found: Option<(u64, usize)>)
    requires
        pos <= data@.len(),
        depth <= 10,
    ensures
        match found {
            Some((value, next)) => pos < next <= data@.len() && varint_decode_at(
                data@.skip(pos as int),
                depth as nat,
            ) == Some((value, (next - pos) as nat)),
            None => varint_decode_at(data@.skip(pos as int), depth as nat).is_none(),
        },
    decreases 10 - depth,
{
    if depth >= 10 || pos >= data.len() {
        return None;
    }
    let first = data[pos];
    proof {
        assert(data@.skip(pos as int)[0] == first);
        assert(data@.skip(pos as int).skip(1) =~= data@.skip(pos + 1));
        lemma_varint_decode_bounds(data@.skip(pos + 1), (depth + 1) as nat);
    }
    if first < 128 {
        return Some((first as u64, pos + 1));
    }
    match read_varint_at(data, pos + 1, depth + 1) {
        Some((rest, next)) => {
            let low: u64 = (first - 128) as u64;
            if rest > (u64::MAX - low) / 128 {
                None
            } else {
                Some((low + 128 * rest, next))
            }
        },
        None => None,
    }
}

/// Reads a base-128 integer at `pos`; gives its value and the position
/// after it.
pub fn read_varint(data: &[u8], pos: usize) -> (found: Option<(u64, usize)>)
    requires
        pos <= data@.len(),
    ensures
        match found {
            Some((value, next)) => pos < next <= data@.len() && varint_decode(
                data@.skip(pos as int),
            ) == Some((value, (next - pos) as nat)),
            None => varint_decode(data@.skip(pos as int)).is_none(),
        },
{
    read_varint_at(data, pos, 0)
}

/// The payload of a field, by wire kind.
#[derive(Clone, Debug, PartialEq, Eq)]
pub enum WireValue {
    /// Wire kind 0: a base-128 integer.
    Varint(u64),
    /// Wire kind 1: eight bytes.
    Fixed64(Vec<u8>),
    /// Wire kind 2: a length-prefixed byte string.
    Bytes(Vec<u8>),
    /// Wire kind 5: four bytes.
    Fixed32(Vec<u8>),
}

/// One field of a record.
#[derive(Clone, Debug, PartialEq, Eq)]
pub struct Field {
    pub number: u64,
    pub value: WireValue,
}

/// What a `WireValue` stands for.
pub enum WireSpec {
    Varint(u64),
    Fixed64(Seq<u8>),
    Bytes(Seq<u8>),
    Fixed32(Seq<u8>),
}

/// What a `Field` stands for.
pub struct FieldSpec {
    pub number: u64,
    pub value: WireSpec,
}

impl View for WireValue {
    type V = WireSpec;

    open spec fn view(&self) -> WireSpec {
        match self {
            WireValue::Varint(v) => WireSpec::Varint(*v),
            WireValue::Fixed64(b) => WireSpec::Fixed64(b@),
            WireValue::Bytes(b) => WireSpec::Bytes(b@),
            WireValue::Fixed32(b) => WireSpec::Fixed32(b@),
        }
    }
}

impl View for Field {
    type V = FieldSpec;

    open spec fn view(&self) -> FieldSpec {
        FieldSpec { number: self.number, value: self.value@ }
    }
}

/// The fields that a vector of `Field` stands for.
pub open spec fn fields_view(fields: Seq<Field>) -> Seq<FieldSpec> {
    fields.map_values(|f: Field| f@)
}

impl WireSpec {
    /// The number of the wire kind.
    pub open spec fn kind(self) -> nat {
        match self {
            WireSpec::Varint(_) => 0,
            WireSpec::Fixed64(_) => 1,
            WireSpec::Bytes(_) => 2,
            WireSpec::Fixed32(_) => 5,
        }
    }

    /// The bytes that follow the tag.
    pub open spec fn encoding(self) -> Seq<u8> {
        match self {
            WireSpec::Varint(v) => varint_encoding(v as nat),
            WireSpec::Fixed64(b) => b,
            WireSpec::Bytes(b) => varint_encoding(b.len()) + b,
            WireSpec::Fixed32(b) => b,
        }
    }

    /// Fixed payloads have their fixed length, and a byte string has a
    /// length that fits its prefix.
    pub open spec fn well_formed(self) -> bool {
        match self {
            WireSpec::Varint(_) => true,
            WireSpec::Fixed64(b) => b.len() == 8,
            WireSpec::Bytes(b) => b.len() <= u64::MAX,
            WireSpec::Fixed32(b) => b.len() == 4,
        }
    }
}

impl FieldSpec {
    /// A field that can be written: a number from 1 up to what fits in the
    /// tag beside the wire kind, and a well-formed payload.
    pub open spec fn well_formed(self) -> bool {
        1 <= self.number < 0x2000_0000_0000_0000 && self.value.well_formed()
    }

    /// The tag: the field number shifted left by three bits, plus the wire
    /// kind.
    pub open spec fn tag(self) -> nat {
        (self.number * 8 + self.value.kind()) as nat
    }

    /// The bytes of the field.
    pub open spec fn encoding(self) -> Seq<u8> {
        varint_encoding(self.tag()) + self.value.encoding()
    }
}

/// Reads one field from the front of `bytes`; gives the field and the number
/// of bytes taken.  Field number 0 and the wire kinds 3, 4, 6 and 7 are
/// refused.
pub open spec fn field_decode(bytes: Seq<u8>) -> Option<(FieldSpec, nat)> {
    match varint_decode(bytes) {
        None => None,
        Some((tag, k)) => {
            let number = tag / 8;
            let kind = tag % 8;
            let rest = bytes.skip(k as int);
            if number == 0 {
                None
            } else if kind == 0 {
                match varint_decode(rest) {
                    Some((v, j)) => Some(
                        (FieldSpec { number, value: WireSpec::Varint(v) }, k + j),
                    ),
                    None => None,
                }
            } else if kind == 1 {
                if rest.len() >= 8 {
                    Some((FieldSpec { number, value: WireSpec::Fixed64(rest.take(8)) }, k + 8))
                } else {
                    None
                }
            } else if kind == 2 {
                match varint_decode(rest) {
                    Some((len, j)) => if rest.len() - j >= len {
                        Some(
                            (
                                FieldSpec {
                                    number,
                                    value: WireSpec::Bytes(rest.subrange(j as int, j + len)),
                                },
                                k + j + len as nat,
                            ),
                        )
                    } else {
                        None
                    },
                    None => None,
                }
            } else if kind == 5 {
                if rest.len() >= 4 {
                    Some((FieldSpec { number, value: WireSpec::Fixed32(rest.take(4)) }, k + 4))
                } else {
                    None
                }
            } else {
                None
            }
        },
    }
}

/// A field always takes at least one byte and never more than there are.
pub proof fn lemma_field_decode_bounds(bytes: Seq<u8>)
    ensures
        field_decode(bytes) matches Some((_, taken)) ==> 1 <= taken <= bytes.len(),
{
    lemma_varint_decode_bounds(bytes, 0);
    if let Some((tag, k)) = varint_decode(bytes) {
        lemma_varint_decode_bounds(bytes.skip(k as int), 0);
    }
}

/// Reads a whole record: fields one after another until the bytes run out.
pub open spec fn fields_decode(bytes: Seq<u8>) -> Option<Seq<FieldSpec>>
    decreases bytes.len(),
{
    if bytes.len() == 0 {
        Some(Seq::empty())
    } else {
        match field_decode(bytes) {
            Some((field, taken)) => if 1 <= taken <= bytes.len() {
                match fields_decode(bytes.skip(taken as int)) {
                    Some(rest) => Some(seq![field] + rest),
                    None => None,
                }
            } else {
                None
            },
            None => None,
        }
    }
}

/// The bytes of a record: its fields one after another.
pub open spec fn fields_encoding(fields: Seq<FieldSpec>) -> Seq<u8>
    decreases fields.len(),
{
    if fields.len() == 0 {
        Seq::empty()
    } else {
        fields[0].encoding() + fields_encoding(fields.skip(1))
    }
}

/// Reading a written field gives it back, whatever follows it.
pub proof fn lemma_field_round_trip(field: FieldSpec, rest: Seq<u8>)
    requires
        field.well_formed(),
    ensures
        field_decode(field.encoding() + rest) == Some((field, field.encoding().len())),
{
    lemma_u64_below_pow128();
    let tag = field.tag();
    let tag_bytes = varint_encoding(tag);
    let body = field.value.encoding();
    let all = field.encoding() + rest;
    assert(all =~= tag_bytes + (body + rest));
    lemma_varint_round_trip(tag, body + rest, 0);
    assert(all.skip(tag_bytes.len() as int) =~= body + rest);
    assert(tag / 8 == field.number);
    assert(tag % 8 == field.value.kind());
    match field.value {
        WireSpec::Varint(v) => {
            lemma_varint_round_trip(v as nat, rest, 0);
        },
        WireSpec::Fixed64(b) => {
            assert((body + rest).take(8) =~= b);
        },
        WireSpec::Bytes(b) => {
            let len_bytes = varint_encoding(b.len());
            assert(body + rest =~= len_bytes + (b + rest));
            lemma_varint_round_trip(b.len(), b + rest, 0);
            assert((body + rest).subrange(
                len_bytes.len() as int,
                (len_bytes.len() + b.len()) as int,
            ) =~= b);
        },
        WireSpec::Fixed32(b) => {
            assert((body + rest).take(4) =~= b);
        },
    }
}

/// Reading a written record gives its fields back.
pub proof fn lemma_fields_round_trip(fields: Seq<FieldSpec>)
    requires
        forall|i: int| 0 <= i < fields.len() ==> (#[trigger] fields[i]).well_formed(),
    ensures
        fields_decode(fields_encoding(fields)) == Some(fields),
    decreases fields.len(),
{
    if fields.len() > 0 {
        let first = fields[0];
        let tail = fields.skip(1);
        let rest = fields_encoding(tail);
        lemma_field_round_trip(first, rest);
        lemma_field_decode_bounds(first.encoding() + rest);
        assert forall|i: int| 0 <= i < tail.len() implies (#[trigger] tail[i]).well_formed() by {
            assert(tail[i] == fields[i + 1]);
        }
        lemma_fields_round_trip(tail);
        assert((first.encoding() + rest).skip(first.encoding().len() as int) =~= rest);
        assert(seq![first] + tail =~= fields);
    }
}

/// The encoding of fields put end to end is the encodings put end to end.
pub proof fn lemma_fields_encoding_push(fields: Seq<FieldSpec>, last: FieldSpec)
    ensures
        fields_encoding(fields.push(last)) == fields_encoding(fields) + last.encoding(),
    decreases fields.len(),
{
    if fields.len() == 0 {
        assert(fields.push(last).skip(1) =~= Seq::<FieldSpec>::empty());
        assert(fields.push(last)[0] == last);
        assert(fields_encoding(Seq::<FieldSpec>::empty()) =~= Seq::<u8>::empty());
        assert(fields_encoding(fields.push(last)) =~= last.encoding());
        assert(fields_encoding(fields) + last.encoding() =~= last.encoding());
    } else {
        assert(fields.push(last).skip(1) =~= fields.skip(1).push(last));
        lemma_fields_encoding_push(fields.skip(1), last);
        assert(fields.push(last)[0] == fields[0]);
        assert(fields[0].encoding() + (fields_encoding(fields.skip(1)) + last.encoding())
            =~= (fields[0].encoding() + fields_encoding(fields.skip(1))) + last.encoding());
    }
}

fn copy_range(data: &[u8], from: usize, to: usize) -> (out: Vec<u8>)
    requires
        from <= to <= data@.len(),
    ensures
        out@ == data@.subrange(from as int, to as int),
{
    let mut out: Vec<u8> = Vec::new();
    let mut i: usize = from;
    while i < to
        invariant
            from <= i <= to <= data@.len(),
            out@ == data@.subrange(from as int, i as int),
        decreases to - i,
    {
        out.push(data[i]);
        proof {
            assert(out@ =~= data@.subrange(from as int, i + 1));
        }
        i = i + 1;
    }
    out
}

/// Reads one field at `pos`; gives the field and the position after it.
pub fn read_field(data: &[u8], pos: usize) -> (found: Option<(Field, usize)>)
    requires
        pos <= data@.len(),
    ensures
        match found {
            Some((field, next)) => pos < next <= data@.len() && field_decode(
                data@.skip(pos as int),
            ) == Some((field@, (next - pos) as nat)),
            None => field_decode(data@.skip(pos as int)).is_none(),
        },
{
    let ghost bytes = data@.skip(pos as int);
    let (tag, after_tag) = match read_varint(data, pos) {
        Some(found) => found,
        None => {
            return None;
        },
    };
    let number = tag / 8;
    let kind = tag % 8;
    let ghost rest = bytes.skip(after_tag - pos);
    proof {
        assert(rest =~= data@.skip(after_tag as int));
    }
    if number == 0 {
        return None;
    }
    let left = data.len() - after_tag;
    if kind == 0 {
        match read_varint(data, after_tag) {
            Some((v, next)) => Some((Field { number, value: WireValue::Varint(v) }, next)),
            None => None,
        }
    } else if kind == 1 {
        if left >= 8 {
            let payload = copy_range(data, after_tag, after_tag + 8);
            proof {
                assert(payload@ =~= rest.take(8));
            }
            Some((Field { number, value: WireValue::Fixed64(payload) }, after_tag + 8))
        } else {
            None
        }
    } else if kind == 2 {
        match read_varint(data, after_tag) {
            Some((len, after_len)) => {
                if len <= (data.len() - after_len) as u64 {
                    let end = after_len + len as usize;
                    let payload = copy_range(data, after_len, end);
                    proof {
                        assert(payload@ =~= rest.subrange(
                            after_len - after_tag,
                            after_len - after_tag + len,
                        ));
                    }
                    Some((Field { number, value: WireValue::Bytes(payload) }, end))
                } else {
                    None
                }
            },
            None => None,
        }
    } else if kind == 5 {
        if left >= 4 {
            let payload = copy_range(data, after_tag, after_tag + 4);
            proof {
                assert(payload@ =~= rest.take(4));
            }
            Some((Field { number, value: WireValue::Fixed32(payload) }, after_tag + 4))
        } else {
            None
        }
    } else {
        None
    }
}

/// Reads a whole record into its fields.
pub fn read_fields(data: &[u8]) -> (found: Option<Vec<Field>>)
    ensures
        match found {
            Some(fields) => fields_decode(data@) == Some(fields_view(fields@)),
            None => fields_decode(data@).is_none(),
        },
{
    let mut fields: Vec<Field> = Vec::new();
    let mut pos: usize = 0;
    proof {
        assert(data@.skip(0) =~= data@);
        assert(fields_view(fields@) =~= Seq::<FieldSpec>::empty());
        lemma_prepend_decoded(Seq::empty(), fields_decode(data@));
    }
    while pos < data.len()
        invariant
            pos <= data@.len(),
            fields_decode(data@) == prepend_decoded(
                fields_view(fields@),
                fields_decode(data@.skip(pos as int)),
            ),
        decreases data@.len() - pos,
    {
        let ghost here = data@.skip(pos as int);
        match read_field(data, pos) {
            Some((field, next)) => {
                let ghost before = fields_view(fields@);
                let ghost shown = field@;
                fields.push(field);
                proof {
                    assert(here.skip(next - pos) =~= data@.skip(next as int));
                    assert(fields_view(fields@) =~= before.push(shown));
                    match fields_decode(data@.skip(next as int)) {
                        Some(tail) => {
                            assert(before + (seq![shown] + tail) =~= before.push(shown) + tail);
                        },
                        None => {},
                    }
                }
                pos = next;
            },
            None => {
                return None;
            },
        }
    }
    proof {
        assert(fields_view(fields@) + Seq::<FieldSpec>::empty() =~= fields_view(fields@));
    }
    Some(fields)
}

/// What a record decodes to when `done` has been read and `rest` is what
/// the remaining bytes decode to.
pub open spec fn prepend_decoded(done: Seq<FieldSpec>, rest: Option<Seq<FieldSpec>>) -> Option<
    Seq<FieldSpec>,
> {
    match rest {
        Some(tail) => Some(done + tail),
        None => None,
    }
}

proof fn lemma_prepend_decoded(done: Seq<FieldSpec>, rest: Option<Seq<FieldSpec>>)
    requires
        done.len() == 0,
    ensures
        prepend_decoded(done, rest) == rest,
{
    if let Some(tail) = rest {
        assert(done + tail =~= tail);
    }
}

/// Appends the bytes of a field holding a base-128 integer.
pub fn write_varint_field(out: &mut Vec<u8>, number: u64, value: u64)
    requires
        1 <= number < 0x2000_0000_0000_0000,
    ensures
        final(out)@ == old(out)@ + (FieldSpec { number, value: WireSpec::Varint(value) }).encoding(),
{
    let ghost field = FieldSpec { number, value: WireSpec::Varint(value) };
    write_varint(out, number * 8);
    write_varint(out, value);
    proof {
        assert(out@ =~= old(out)@ + field.encoding());
    }
}

/// Appends the bytes of a field holding a byte string.
pub fn write_bytes_field(out: &mut Vec<u8>, number: u64, payload: &[u8])
    requires
        1 <= number < 0x2000_0000_0000_0000,
    ensures
        final(out)@ == old(out)@ + (FieldSpec { number, value: WireSpec::Bytes(payload@) }).encoding(),
{
    let ghost field = FieldSpec { number, value: WireSpec::Bytes(payload@) };
    write_varint(out, number * 8 + 2);
    write_varint(out, payload.len() as u64);
    let ghost mid = out@;
    let mut i: usize = 0;
    while i < payload.len()
        invariant
            i <= payload@.len(),
            out@ == mid + payload@.take(i as int),
        decreases payload@.len() - i,
    {
        out.push(payload[i]);
        proof {
            assert(out@ =~= mid + payload@.take(i + 1));
        }
        i = i + 1;
    }
    proof {
        assert(payload@.take(payload@.len() as int) =~= payload@);
        assert(out@ =~= old(out)@ + field.encoding());
    }
}

} // verus!

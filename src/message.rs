use vstd::prelude::*;
use crate::bits::{BitReader, DecodeError, field_value, bits_value, lemma_bits_value_bound};
use vstd::arithmetic::power2::lemma2_to64;
use crate::descriptor::{DescKey, Tables, bytes_desc};
use crate::decoder::{Observation, EngineState, decode_descriptors, is_run, step_err, MAX_STREAM};
use crate::operators::is_reset;

verus! {

/// The `n`-byte big-endian field that starts `off` bytes after bit `pos`.
pub open spec fn byte_field(bits: Seq<bool>, pos: int, off: int, n: int) -> u32 {
    field_value(bits, pos + 8 * off, 8 * n) as u32
}

/// The four bytes `BUFR` read as one integer.
pub const BUFR_MAGIC: u32 = 0x4255_4652;

proof fn lemma_byte_bound(bits: Seq<bool>, pos: int, off: int)
    requires
        0 <= pos + 8 * off,
        pos + 8 * off + 8 <= bits.len(),
    ensures
        byte_field(bits, pos, off, 1) < 256,
{
    let w = bits.subrange(pos + 8 * off, pos + 8 * off + 8);
    lemma_bits_value_bound(w);
    lemma2_to64();
}

/// Reads an `n`-byte big-endian field.
fn read_bytes(reader: &mut BitReader, n: u32) -> (r: Result<u32, DecodeError>)
    requires
        old(reader).wf(),
        n <= 4,
    ensures
        final(reader).wf(),
        final(reader).bytes() == old(reader).bytes(),
        final(reader).position() >= old(reader).position(),
        old(reader).position() + 8 * n <= old(reader).bits().len() ==> {
            &&& final(reader).position() == old(reader).position() + 8 * n
            &&& r == Ok::<u32, DecodeError>(byte_field(old(reader).bits(), old(reader).position() as int, 0, n as int))
        },
        old(reader).position() + 8 * n > old(reader).bits().len() ==> r == Err::<u32, DecodeError>(DecodeError::UnexpectedEof),
{
    reader.read_bits(8 * n)
}

/// Section 0: the magic `BUFR`, the total length and the edition.
pub struct Section0 {
    pub total_length: u32,
    pub edition: u32,
}

/// Reads section 0.
pub fn section0(reader: &mut BitReader) -> (r: Result<Section0, DecodeError>)
    requires
        old(reader).wf(),
    ensures
        final(reader).wf(),
        final(reader).bytes() == old(reader).bytes(),
        final(reader).position() >= old(reader).position(),
        ({
            let bits = old(reader).bits();
            let pos = old(reader).position() as int;
            let magic = byte_field(bits, pos, 0, 4);
            &&& pos + 32 > bits.len() ==> r == Err::<Section0, DecodeError>(DecodeError::UnexpectedEof)
            &&& pos + 32 <= bits.len() && magic != BUFR_MAGIC ==> r == Err::<Section0, DecodeError>(DecodeError::NotBufr)
            &&& pos + 32 <= bits.len() < pos + 64 && magic == BUFR_MAGIC ==> r == Err::<Section0, DecodeError>(DecodeError::UnexpectedEof)
            &&& pos + 64 <= bits.len() && magic == BUFR_MAGIC ==> {
                &&& r is Ok
                &&& r.unwrap().total_length == byte_field(bits, pos, 4, 3)
                &&& r.unwrap().edition == byte_field(bits, pos, 7, 1)
                &&& final(reader).position() == pos + 64
            }
        }),
{
    let magic = read_bytes(reader, 4)?;
    if magic != BUFR_MAGIC {
        return Err(DecodeError::NotBufr);
    }
    let total_length = read_bytes(reader, 3)?;
    let edition = read_bytes(reader, 1)?;
    Ok(Section0 { total_length, edition })
}

/// Section 1: identification of the message and of the tables it uses.
/// Fields that an edition lacks are 0 (`local_subcategory`, `second` in
/// edition 2).
pub struct Section1 {
    pub length: u32,
    pub master_table: u32,
    pub centre: u32,
    pub sub_centre: u32,
    pub update_sequence: u32,
    pub flags: u32,
    pub data_category: u32,
    pub data_subcategory: u32,
    pub local_subcategory: u32,
    pub master_version: u32,
    pub local_version: u32,
    pub year: u32,
    pub month: u32,
    pub day: u32,
    pub hour: u32,
    pub minute: u32,
    pub second: u32,
}

/// The fixed part of section 1, in bytes.
pub open spec fn section1_fixed(edition: u32) -> int {
    if edition == 2 { 17 } else { 22 }
}

/// Whether section 2 follows: bit 7 of the flags byte.
pub open spec fn has_section2(s: Section1) -> bool {
    s.flags >= 128
}

/// `s` holds the section 1 fields of the given edition that start at bit `pos`.
pub open spec fn section1_at(s: Section1, edition: u32, bits: Seq<bool>, pos: int) -> bool {
    &&& s.length == byte_field(bits, pos, 0, 3)
    &&& s.master_table == byte_field(bits, pos, 3, 1)
    &&& if edition == 2 {
        &&& s.sub_centre == byte_field(bits, pos, 4, 1)
        &&& s.centre == byte_field(bits, pos, 5, 1)
        &&& s.update_sequence == byte_field(bits, pos, 6, 1)
        &&& s.flags == byte_field(bits, pos, 7, 1)
        &&& s.data_category == byte_field(bits, pos, 8, 1)
        &&& s.data_subcategory == byte_field(bits, pos, 9, 1)
        &&& s.local_subcategory == 0
        &&& s.master_version == byte_field(bits, pos, 10, 1)
        &&& s.local_version == byte_field(bits, pos, 11, 1)
        &&& s.year == byte_field(bits, pos, 12, 1)
        &&& s.month == byte_field(bits, pos, 13, 1)
        &&& s.day == byte_field(bits, pos, 14, 1)
        &&& s.hour == byte_field(bits, pos, 15, 1)
        &&& s.minute == byte_field(bits, pos, 16, 1)
        &&& s.second == 0
    } else {
        &&& s.centre == byte_field(bits, pos, 4, 2)
        &&& s.sub_centre == byte_field(bits, pos, 6, 2)
        &&& s.update_sequence == byte_field(bits, pos, 8, 1)
        &&& s.flags == byte_field(bits, pos, 9, 1)
        &&& s.data_category == byte_field(bits, pos, 10, 1)
        &&& s.data_subcategory == byte_field(bits, pos, 11, 1)
        &&& s.local_subcategory == byte_field(bits, pos, 12, 1)
        &&& s.master_version == byte_field(bits, pos, 13, 1)
        &&& s.local_version == byte_field(bits, pos, 14, 1)
        &&& s.year == byte_field(bits, pos, 15, 2)
        &&& s.month == byte_field(bits, pos, 17, 1)
        &&& s.day == byte_field(bits, pos, 18, 1)
        &&& s.hour == byte_field(bits, pos, 19, 1)
        &&& s.minute == byte_field(bits, pos, 20, 1)
        &&& s.second == byte_field(bits, pos, 21, 1)
    }
}

/// The size in bytes of the section 1 of the given edition at bit `pos`.
pub open spec fn section1_size(bits: Seq<bool>, pos: int, edition: u32) -> int {
    let length = byte_field(bits, pos, 0, 3) as int;
    if length > section1_fixed(edition) { length } else { section1_fixed(edition) }
}

/// Reads section 1 of the given edition, skipping the bytes that its length
/// claims beyond the fixed fields.
pub fn section1(reader: &mut BitReader, edition: u32) -> (r: Result<Section1, DecodeError>)
    requires
        old(reader).wf(),
        edition == 2 || edition == 4,
    ensures
        final(reader).wf(),
        final(reader).bytes() == old(reader).bytes(),
        final(reader).position() >= old(reader).position(),
        ({
            let bits = old(reader).bits();
            let pos = old(reader).position() as int;
            let size = section1_size(bits, pos, edition);
            &&& pos + 8 * size <= bits.len() ==> {
                &&& r is Ok
                &&& section1_at(r.unwrap(), edition, bits, pos)
                &&& final(reader).position() == pos + 8 * size
            }
            &&& pos + 8 * size > bits.len() ==> r == Err::<Section1, DecodeError>(DecodeError::UnexpectedEof)
        }),
{
    let length = read_bytes(reader, 3)?;
    let master_table = read_bytes(reader, 1)?;
    let (centre, sub_centre) = if edition == 2 {
        let sub_centre = read_bytes(reader, 1)?;
        let centre = read_bytes(reader, 1)?;
        (centre, sub_centre)
    } else {
        let centre = read_bytes(reader, 2)?;
        let sub_centre = read_bytes(reader, 2)?;
        (centre, sub_centre)
    };
    let update_sequence = read_bytes(reader, 1)?;
    let flags = read_bytes(reader, 1)?;
    let data_category = read_bytes(reader, 1)?;
    let data_subcategory = read_bytes(reader, 1)?;
    let local_subcategory = if edition == 4 { read_bytes(reader, 1)? } else { 0 };
    let master_version = read_bytes(reader, 1)?;
    let local_version = read_bytes(reader, 1)?;
    let year = if edition == 2 { read_bytes(reader, 1)? } else { read_bytes(reader, 2)? };
    let month = read_bytes(reader, 1)?;
    let day = read_bytes(reader, 1)?;
    let hour = read_bytes(reader, 1)?;
    let minute = read_bytes(reader, 1)?;
    let second = if edition == 4 { read_bytes(reader, 1)? } else { 0 };
    let fixed: u32 = if edition == 2 { 17 } else { 22 };
    if length > fixed {
        reader.skip_bytes(length - fixed)?;
    }
    Ok(Section1 {
        length,
        master_table,
        centre,
        sub_centre,
        update_sequence,
        flags,
        data_category,
        data_subcategory,
        local_subcategory,
        master_version,
        local_version,
        year,
        month,
        day,
        hour,
        minute,
        second,
    })
}

/// Skips the optional section 2: its length, a reserved byte, and
/// `length - 4` bytes of local data.
pub fn section2(reader: &mut BitReader) -> (r: Result<(), DecodeError>)
    requires
        old(reader).wf(),
    ensures
        final(reader).wf(),
        final(reader).bytes() == old(reader).bytes(),
        final(reader).position() >= old(reader).position(),
        ({
            let bits = old(reader).bits();
            let pos = old(reader).position() as int;
            let length = byte_field(bits, pos, 0, 3) as int;
            &&& pos + 32 > bits.len() ==> r == Err::<(), DecodeError>(DecodeError::UnexpectedEof)
            &&& pos + 32 <= bits.len() && length < 4 ==> r == Err::<(), DecodeError>(DecodeError::BadSectionLength)
            &&& pos + 32 <= bits.len() && length >= 4 && pos + 8 * length > bits.len()
                ==> r == Err::<(), DecodeError>(DecodeError::UnexpectedEof)
            &&& length >= 4 && pos + 8 * length <= bits.len() ==> r is Ok && final(reader).position() == pos + 8 * length
        }),
{
    let length = read_bytes(reader, 3)?;
    read_bytes(reader, 1)?;
    if length < 4 {
        return Err(DecodeError::BadSectionLength);
    }
    reader.skip_bytes(length - 4)
}

/// The descriptor written in the two bytes at byte offset `off` after bit `pos`.
pub open spec fn key_at(bits: Seq<bool>, pos: int, off: int) -> DescKey {
    let b0 = byte_field(bits, pos, off, 1);
    DescKey { f: (b0 / 64) as u8, x: (b0 % 64) as u8, y: byte_field(bits, pos, off + 1, 1) as u8 }
}

/// Section 3: the number of subsets, the flags and the descriptor list.
pub struct Section3 {
    pub subsets: u32,
    pub flags: u32,
    pub descriptors: Vec<DescKey>,
}

/// `s` holds the section 3 that starts at bit `pos`.
pub open spec fn section3_at(s: Section3, bits: Seq<bool>, pos: int) -> bool {
    let length = byte_field(bits, pos, 0, 3) as int;
    &&& s.subsets == byte_field(bits, pos, 4, 2)
    &&& s.flags == byte_field(bits, pos, 6, 1)
    &&& s.descriptors@.len() == (length - 7) / 2
    &&& forall|i: int| 0 <= i < (length - 7) / 2 ==> s.descriptors@[i] == key_at(bits, pos, 7 + 2 * i)
}

/// Reads section 3. Its `length - 7` bytes after the fixed fields are read
/// as descriptor pairs; an odd last byte is read and ignored.
pub fn section3(reader: &mut BitReader) -> (r: Result<Section3, DecodeError>)
    requires
        old(reader).wf(),
    ensures
        final(reader).wf(),
        final(reader).bytes() == old(reader).bytes(),
        final(reader).position() >= old(reader).position(),
        ({
            let bits = old(reader).bits();
            let pos = old(reader).position() as int;
            let length = byte_field(bits, pos, 0, 3) as int;
            &&& pos + 56 > bits.len() ==> r == Err::<Section3, DecodeError>(DecodeError::UnexpectedEof)
            &&& pos + 56 <= bits.len() && length < 7 ==> r == Err::<Section3, DecodeError>(DecodeError::BadSectionLength)
            &&& pos + 56 <= bits.len() && length >= 7 && pos + 8 * length > bits.len()
                ==> r == Err::<Section3, DecodeError>(DecodeError::UnexpectedEof)
            &&& length >= 7 && pos + 8 * length <= bits.len() ==> {
                &&& r is Ok
                &&& final(reader).position() == pos + 8 * length
                &&& section3_at(r.unwrap(), bits, pos)
            }
        }),
{
    let ghost bits = reader.bits();
    let ghost pos = reader.position() as int;
    let length = read_bytes(reader, 3)?;
    read_bytes(reader, 1)?;
    let subsets = read_bytes(reader, 2)?;
    let flags = read_bytes(reader, 1)?;
    if length < 7 {
        return Err(DecodeError::BadSectionLength);
    }
    if (reader.remaining_bits() as u64) < 8 * (length as u64 - 7) {
        return Err(DecodeError::UnexpectedEof);
    }
    let pairs = (length - 7) / 2;
    let mut descriptors: Vec<DescKey> = Vec::new();
    let mut i: u32 = 0;
    while i < pairs
        invariant
            reader.wf(),
            reader.bytes() == old(reader).bytes(),
            bits == reader.bits(),
            pos == old(reader).position(),
            length == byte_field(bits, pos, 0, 3),
            pairs == (length - 7) / 2,
            i <= pairs,
            pos + 8 * length <= bits.len(),
            reader.position() == pos + 56 + 16 * i,
            descriptors@.len() == i,
            forall|j: int| 0 <= j < i ==> descriptors@[j] == key_at(bits, pos, 7 + 2 * j),
        decreases pairs - i,
    {
        let b0 = read_bytes(reader, 1)?;
        let b1 = read_bytes(reader, 1)?;
        proof {
            lemma_byte_bound(bits, pos, 7 + 2 * i);
            lemma_byte_bound(bits, pos, 8 + 2 * i);
        }
        descriptors.push(bytes_desc(b0 as u8, b1 as u8));
        i = i + 1;
    }
    if (length - 7) % 2 == 1 {
        read_bytes(reader, 1)?;
    }
    Ok(Section3 { subsets, flags, descriptors })
}

/// Where section 2 (or section 3, when there is no section 2) of the message
/// at bit `pos` starts.
pub open spec fn section2_pos(bits: Seq<bool>, pos: int) -> int {
    let edition = byte_field(bits, pos, 7, 1);
    pos + 64 + 8 * section1_size(bits, pos + 64, edition)
}

/// Whether section 1 of the message at bit `pos` flags a section 2.
pub open spec fn section2_flagged(bits: Seq<bool>, pos: int) -> bool {
    let edition = byte_field(bits, pos, 7, 1);
    byte_field(bits, pos + 64, if edition == 2 { 7 } else { 9 }, 1) >= 128
}

/// Where section 3 of the message at bit `pos` starts.
pub open spec fn section3_pos(bits: Seq<bool>, pos: int) -> int {
    let sec2_pos = section2_pos(bits, pos);
    if section2_flagged(bits, pos) { sec2_pos + 8 * byte_field(bits, sec2_pos, 0, 3) } else { sec2_pos }
}

/// Sections 0 to 3 of the message at bit `pos` are well formed and lie
/// within `bits`.
pub open spec fn header_fits(bits: Seq<bool>, pos: int) -> bool {
    let edition = byte_field(bits, pos, 7, 1);
    let sec2_pos = section2_pos(bits, pos);
    let length2 = byte_field(bits, sec2_pos, 0, 3) as int;
    let sec3_pos = section3_pos(bits, pos);
    let length3 = byte_field(bits, sec3_pos, 0, 3) as int;
    &&& pos + 64 <= bits.len()
    &&& byte_field(bits, pos, 0, 4) == BUFR_MAGIC
    &&& edition == 2 || edition == 4
    &&& sec2_pos <= bits.len()
    &&& section2_flagged(bits, pos) ==> sec2_pos + 32 <= bits.len() && length2 >= 4 && sec2_pos + 8 * length2 <= bits.len()
    &&& sec3_pos + 56 <= bits.len()
    &&& length3 >= 7
    &&& sec3_pos + 8 * length3 <= bits.len()
}

/// Sections 0 to 3 of a message.
pub struct MessageHeader {
    pub section0: Section0,
    pub section1: Section1,
    pub section3: Section3,
}

/// Reads sections 0 to 3 of the message that starts at the current position.
/// An edition other than 2 or 4 is skipped whole (its total length from the
/// start of the message) and reported as `UnsupportedEdition`.
pub fn parse_header(reader: &mut BitReader) -> (r: Result<MessageHeader, DecodeError>)
    requires
        old(reader).wf(),
    ensures
        final(reader).wf(),
        final(reader).bytes() == old(reader).bytes(),
        final(reader).position() >= old(reader).position(),
        ({
            let bits = old(reader).bits();
            let pos = old(reader).position() as int;
            let magic = byte_field(bits, pos, 0, 4);
            let total = byte_field(bits, pos, 4, 3) as int;
            let edition = byte_field(bits, pos, 7, 1);
            let readable = pos + 64 <= bits.len() && magic == BUFR_MAGIC;
            &&& pos + 32 <= bits.len() && magic != BUFR_MAGIC ==> r == Err::<MessageHeader, DecodeError>(DecodeError::NotBufr)
            &&& !readable && !(pos + 32 <= bits.len() && magic != BUFR_MAGIC)
                ==> r == Err::<MessageHeader, DecodeError>(DecodeError::UnexpectedEof)
            &&& readable && edition != 2 && edition != 4 && pos + 8 * total <= bits.len() ==> {
                &&& r == Err::<MessageHeader, DecodeError>(DecodeError::UnsupportedEdition)
                &&& final(reader).position() == if total > 8 { pos + 8 * total } else { pos + 64 }
            }
            &&& r is Ok ==> {
                let h = r.unwrap();
                &&& readable
                &&& edition == 2 || edition == 4
                &&& h.section0.total_length == total
                &&& h.section0.edition == edition
                &&& section1_at(h.section1, edition, bits, pos + 64)
                &&& section3_at(h.section3, bits, section3_pos(bits, pos))
                &&& final(reader).position() == section3_pos(bits, pos) + 8 * byte_field(bits, section3_pos(bits, pos), 0, 3)
            }
            &&& header_fits(bits, pos) ==> r is Ok
        }),
{
    let s0 = section0(reader)?;
    if s0.edition != 2 && s0.edition != 4 {
        if s0.total_length > 8 {
            reader.skip_bytes(s0.total_length - 8)?;
        }
        return Err(DecodeError::UnsupportedEdition);
    }
    let s1 = section1(reader, s0.edition)?;
    if s1.flags >= 128 {
        section2(reader)?;
    }
    let s3 = section3(reader)?;
    Ok(MessageHeader { section0: s0, section1: s1, section3: s3 })
}

/// `trace` starts the interpreter on `keys` at bit `pos`, with no operator
/// in force and no observation.
pub open spec fn starts_run(trace: Seq<EngineState>, keys: Seq<DescKey>, pos: int) -> bool {
    &&& trace[0].keys == keys
    &&& trace[0].index == 0
    &&& is_reset(trace[0].ops)
    &&& trace[0].pos == pos
    &&& trace[0].out.len() == 0
}

/// Reads section 4 and decodes its data with `descriptors` (see
/// `decode_descriptors`), then passes the rest of section 4 and the four
/// bytes of section 5.
pub fn decode_data(reader: &mut BitReader, tables: &Tables, descriptors: Vec<DescKey>) -> (r: Result<Vec<Observation>, DecodeError>)
    requires
        old(reader).wf(),
    ensures
        final(reader).wf(),
        final(reader).bytes() == old(reader).bytes(),
        final(reader).position() >= old(reader).position(),
        ({
            let bits = old(reader).bits();
            let pos = old(reader).position() as int;
            let length = byte_field(bits, pos, 0, 3) as int;
            &&& descriptors@.len() > MAX_STREAM ==> r == Err::<Vec<Observation>, DecodeError>(DecodeError::StreamTooLong)
            &&& descriptors@.len() <= MAX_STREAM && pos + 32 > bits.len()
                ==> r == Err::<Vec<Observation>, DecodeError>(DecodeError::UnexpectedEof)
            &&& descriptors@.len() <= MAX_STREAM && pos + 32 <= bits.len() && length < 4
                ==> r == Err::<Vec<Observation>, DecodeError>(DecodeError::BadSectionLength)
            &&& r is Ok ==> length >= 4 && final(reader).position() >= pos + 8 * length + 32
            &&& r is Ok ==> exists|trace: Seq<EngineState>| {
                &&& #[trigger] is_run(*tables, bits, trace)
                &&& starts_run(trace, descriptors@, pos + 32)
                &&& trace.last().index == trace.last().keys.len()
                &&& trace.last().out == r.unwrap()@
                &&& final(reader).position() == 32 + if trace.last().pos < pos + 8 * length {
                    pos + 8 * length
                } else {
                    trace.last().pos
                }
            }
            &&& r matches Err(err) ==> {
                ||| descriptors@.len() > MAX_STREAM && err == DecodeError::StreamTooLong
                ||| pos + 32 > bits.len() && err == DecodeError::UnexpectedEof
                ||| pos + 32 <= bits.len() && length < 4 && err == DecodeError::BadSectionLength
                ||| length >= 4 && exists|trace: Seq<EngineState>| {
                    &&& #[trigger] is_run(*tables, bits, trace)
                    &&& starts_run(trace, descriptors@, pos + 32)
                    &&& step_err(*tables, bits, trace.last(), err)
                }
                ||| length >= 4 && err == DecodeError::UnexpectedEof && exists|trace: Seq<EngineState>| {
                    &&& #[trigger] is_run(*tables, bits, trace)
                    &&& starts_run(trace, descriptors@, pos + 32)
                    &&& trace.last().index == trace.last().keys.len()
                    &&& 32 + (if trace.last().pos < pos + 8 * length { pos + 8 * length } else { trace.last().pos }) > bits.len()
                }
            }
            &&& descriptors@.len() == 0 && length >= 4 ==> {
                &&& pos + 8 * length + 32 <= bits.len() ==> {
                    &&& r is Ok
                    &&& r.unwrap()@.len() == 0
                    &&& final(reader).position() == pos + 8 * length + 32
                }
                &&& pos + 8 * length + 32 > bits.len() ==> r == Err::<Vec<Observation>, DecodeError>(DecodeError::UnexpectedEof)
            }
        }),
{
    if descriptors.len() > MAX_STREAM {
        return Err(DecodeError::StreamTooLong);
    }
    let start = reader.position_now();
    let length = read_bytes(reader, 3)?;
    read_bytes(reader, 1)?;
    if length < 4 {
        return Err(DecodeError::BadSectionLength);
    }
    let ghost keys = descriptors@;
    let ghost bits = reader.bits();
    let ghost data_pos = reader.position() as int;
    let observations = decode_descriptors(reader, tables, descriptors)?;
    let ghost trace = choose|trace: Seq<EngineState>| {
        &&& #[trigger] is_run(*tables, bits, trace)
        &&& trace[0].keys == keys
        &&& trace[0].index == 0
        &&& is_reset(trace[0].ops)
        &&& trace[0].pos == data_pos
        &&& trace[0].out.len() == 0
        &&& trace.last().index == trace.last().keys.len()
        &&& trace.last().pos == reader.position()
        &&& trace.last().out == observations@
    };
    proof {
        reader.lemma_wf();
        assert(reader.bits().len() < 0xffff_ffff_ffff_ffffu64);
        assert(starts_run(trace, keys, data_pos));
    }
    reader.advance_to((start as u64).saturating_add(8 * length as u64))?;
    read_bytes(reader, 4)?;
    Ok(observations)
}

} // verus!

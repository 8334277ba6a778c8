use vstd::prelude::*;
use vstd::string::*;
use vstd::utf8::{valid_utf8, decode_utf8};
use crate::bits::{BitReader, DecodeError, field_value, field_bytes};
use crate::descriptor::{DescKey, ElementDescriptor, Tables, element_of, sequence_of};
use crate::operators::{
    OperatorState, effective_width, effective_scale, effective_reference, reference_run,
    first_terminator, element_count, run_entries, increment_of, is_reset, ref_correction,
};
use crate::stream::{DescriptorStream, spliced};

verus! {

/// What one element descriptor yields.
pub enum ObservedValue {
    /// The physical value `numerator / 10^scale`.
    Number { numerator: i128, scale: i128 },
    /// A CCITT IA5 field as text; `None` when its bytes are not valid text.
    Text(Option<String>),
}

/// One decoded element: its description (the output key), unit and value.
pub struct Observation {
    pub description: String,
    pub unit: String,
    pub value: ObservedValue,
}

/// The unit that marks a character field.
pub open spec fn is_text_unit(unit: Seq<char>) -> bool {
    unit == "CCITT IA5"@
}

/// `s` without its leading zero bytes.
pub open spec fn strip_leading_zeros(s: Seq<u8>) -> Seq<u8>
    decreases s.len(),
{
    if s.len() > 0 && s[0] == 0 {
        strip_leading_zeros(s.drop_first())
    } else {
        s
    }
}

/// The characters of a CCITT IA5 field: the bytes of the field without its
/// leading zero bytes.
pub open spec fn text_bytes(field: Seq<u8>) -> Seq<u8> {
    strip_leading_zeros(field)
}

/// `o` is what element `e` yields under `ops` from its `w`-bit field at bit
/// `pos` of `bits`.
pub open spec fn observation_of(o: Observation, e: ElementDescriptor, ops: OperatorState, bits: Seq<bool>, pos: int, w: int) -> bool {
    &&& o.description@ == e.description@
    &&& o.unit@ == e.unit@
    &&& if is_text_unit(e.unit@) {
        let text = text_bytes(field_bytes(bits, pos, w));
        &&& o.value matches ObservedValue::Text(t)
        &&& (t is Some <==> valid_utf8(text))
        &&& (t matches Some(s) ==> s@ == decode_utf8(text))
    } else {
        &&& o.value matches ObservedValue::Number { numerator, scale }
        &&& numerator == field_value(bits, pos, w) + effective_reference(ops, e)
        &&& scale == effective_scale(ops, e)
    }
}

/// Relies on `String::from_utf8`: it accepts exactly the valid UTF-8 byte
/// sequences and decodes them.
#[verifier::external_body]
fn utf8_text(bytes: Vec<u8>) -> (r: Option<String>)
    ensures
        r is Some <==> valid_utf8(bytes@),
        r matches Some(s) ==> s@ == decode_utf8(bytes@),
{
    String::from_utf8(bytes).ok()
}

/// The text of a CCITT IA5 field given as its big-endian bytes: the bytes
/// without the leading zero bytes, decoded.
pub fn bits_to_bytes(field: &Vec<u8>) -> (r: Option<String>)
    ensures
        r is Some <==> valid_utf8(text_bytes(field@)),
        r matches Some(s) ==> s@ == decode_utf8(text_bytes(field@)),
{
    let n = field.len();
    let mut i: usize = 0;
    assert(field@.subrange(0, n as int) =~= field@);
    while i < n && field[i] == 0
        invariant
            i <= n == field@.len(),
            strip_leading_zeros(field@.subrange(i as int, n as int)) == text_bytes(field@),
        decreases n - i,
    {
        assert(field@.subrange(i as int, n as int).drop_first() =~= field@.subrange(i + 1, n as int));
        i = i + 1;
    }
    let mut out: Vec<u8> = Vec::new();
    let mut j: usize = i;
    while j < n
        invariant
            i <= j <= n == field@.len(),
            out@ =~= field@.subrange(i as int, j as int),
        decreases n - j,
    {
        out.push(field[j]);
        j = j + 1;
    }
    assert(out@ == text_bytes(field@));
    utf8_text(out)
}

/// Decodes one element: reads its effective width in bits and turns the
/// payload into a value (or text) with the effective scale and reference.
pub fn decode_element(reader: &mut BitReader, e: &ElementDescriptor, ops: &OperatorState) -> (r: Result<Observation, DecodeError>)
    requires
        old(reader).wf(),
    ensures
        final(reader).wf(),
        final(reader).bytes() == old(reader).bytes(),
        final(reader).position() >= old(reader).position(),
        ({
            let w = effective_width(*ops, *e);
            let pos = old(reader).position();
            &&& w < 0 ==> r == Err::<Observation, DecodeError>(DecodeError::NegativeWidth) && final(reader).position() == pos
            &&& w >= 0 && pos + w <= old(reader).bits().len() ==> {
                &&& final(reader).position() == pos + w
                &&& r is Ok
                &&& observation_of(r.unwrap(), *e, *ops, old(reader).bits(), pos as int, w)
            }
            &&& w >= 0 && pos + w > old(reader).bits().len() ==> r == Err::<Observation, DecodeError>(DecodeError::UnexpectedEof)
        }),
{
    let base: i64 = if ops.new_width != 0 { ops.new_width as i64 } else { e.width as i64 };
    let w: i64 = base + ops.width_plus as i64;
    if w < 0 {
        return Err(DecodeError::NegativeWidth);
    }
    let description = e.description.clone();
    let unit = e.unit.clone();
    let ia5 = String::from_str("CCITT IA5");
    proof {
        reveal_strlit("CCITT IA5");
    }
    if unit == ia5 {
        if w as u64 > reader.remaining_bits() as u64 {
            return Err(DecodeError::UnexpectedEof);
        }
        let field = reader.read_field_bytes(w as u64);
        let text = bits_to_bytes(&field);
        Ok(Observation { description, unit, value: ObservedValue::Text(text) })
    } else {
        let raw = reader.read_field(w as u64)?;
        let corr = ops.correction(e.key);
        let numerator: i128 = raw as i128 + e.reference as i128 + corr as i128;
        let scale: i128 = e.scale as i128 + ops.scale_plus as i128;
        Ok(Observation { description, unit, value: ObservedValue::Number { numerator, scale } })
    }
}

/// The longest descriptor stream that Table D expansion may build.
pub const MAX_STREAM: usize = 65_536;

/// `after` is `before` with one more observation at its end.
pub open spec fn pushed(before: Seq<Observation>, after: Seq<Observation>) -> bool {
    &&& after.len() == before.len() + 1
    &&& after.subrange(0, before.len() as int) == before
}

/// The state of the interpreter between two descriptors.
pub struct EngineState {
    pub keys: Seq<DescKey>,
    pub index: int,
    pub ops: OperatorState,
    pub pos: int,
    pub out: Seq<Observation>,
}

/// One successful transition of the interpreter from `a` to `b` over the
/// input bits `bits`, for the descriptor at position `a.index`.
pub open spec fn step_rel(t: Tables, bits: Seq<bool>, a: EngineState, b: EngineState) -> bool {
    let k = a.keys[a.index];
    let passed = {
        &&& b.keys == a.keys
        &&& b.index == a.index + 1
        &&& b.pos == a.pos
        &&& b.out == a.out
    };
    &&& 0 <= a.index < a.keys.len()
    &&& k.f == 0 ==> b.ops == a.ops && match element_of(t, k) {
        None => passed,
        Some(e) => {
            let w = effective_width(a.ops, e);
            &&& w >= 0
            &&& a.pos + w <= bits.len()
            &&& b.keys == a.keys
            &&& b.index == a.index + 1
            &&& b.pos == a.pos + w
            &&& pushed(a.out, b.out)
            &&& observation_of(b.out.last(), e, a.ops, bits, a.pos, w)
        },
    }
    &&& (k.f == 1 || k.f > 3) ==> passed && b.ops == a.ops
    &&& k.f == 2 && k.x == 3 && k.y != 0 ==> {
        let end = first_terminator(a.keys, a.index + 1);
        let inner = a.keys.subrange(a.index + 1, end);
        let need = k.y * element_count(inner);
        &&& k.y <= 32
        &&& a.pos + need <= bits.len()
        &&& b.keys == a.keys
        &&& b.out == a.out
        &&& b.pos == a.pos + need
        &&& b.index == (if end < a.keys.len() { end + 1 } else { end })
        &&& b.ops.ref_changed
        &&& b.ops.new_ref@ == a.ops.new_ref@ + run_entries(inner, bits, a.pos, k.y as int)
        &&& b.ops.width_plus == a.ops.width_plus
        &&& b.ops.scale_plus == a.ops.scale_plus
        &&& b.ops.new_width == a.ops.new_width
    }
    &&& k.f == 2 && !(k.x == 3 && k.y != 0) ==> {
        &&& passed
        &&& b.ops.width_plus == (if k.x == 1 { increment_of(k.y) } else { a.ops.width_plus as int })
        &&& b.ops.scale_plus == (if k.x == 2 { increment_of(k.y) } else { a.ops.scale_plus as int })
        &&& b.ops.new_width == (if k.x == 8 { if k.y == 0 { 0 } else { 8 * k.y } } else { a.ops.new_width as int })
        &&& (k.x == 3 ==> !b.ops.ref_changed && b.ops.new_ref@.len() == 0)
        &&& (k.x != 3 ==> b.ops.ref_changed == a.ops.ref_changed && b.ops.new_ref@ == a.ops.new_ref@)
    }
    &&& k.f == 3 ==> {
        &&& b.ops == a.ops
        &&& b.index == a.index + 1
        &&& b.pos == a.pos
        &&& b.out == a.out
        &&& match sequence_of(t, k) {
            None => b.keys == a.keys,
            Some(c) => a.keys.len() + c.len() <= MAX_STREAM && b.keys == spliced(a.keys, a.index, c),
        }
    }
}

/// An element decoded under any operator state consumes its nominal width,
/// or the override width when one is in force, plus the width increment.
pub proof fn lemma_width_modulation(t: Tables, bits: Seq<bool>, a: EngineState, b: EngineState, e: ElementDescriptor)
    requires
        step_rel(t, bits, a, b),
        a.keys[a.index].f == 0,
        element_of(t, a.keys[a.index]) == Some(e),
    ensures
        b.pos - a.pos == (if a.ops.new_width == 0 { e.width as int } else { a.ops.new_width as int }) + a.ops.width_plus,
{
}

/// A numeric element with payload `b`, effective scale `s` and effective
/// reference `r` yields the value `(b + r) / 10^s`, kept as the exact pair
/// `(b + r, s)`.
pub proof fn lemma_scale_reference(t: Tables, bits: Seq<bool>, a: EngineState, b: EngineState, e: ElementDescriptor)
    requires
        step_rel(t, bits, a, b),
        a.keys[a.index].f == 0,
        element_of(t, a.keys[a.index]) == Some(e),
        !is_text_unit(e.unit@),
    ensures
        ({
            let w = effective_width(a.ops, e);
            let raw = field_value(bits, a.pos, w);
            b.out.last().value == ObservedValue::Number {
                numerator: (raw + e.reference + ref_correction(a.ops, e.key)) as i128,
                scale: (e.scale + a.ops.scale_plus) as i128,
            }
        }),
{
}

/// The transition of the interpreter from `a` fails with `err`.
pub open spec fn step_err(t: Tables, bits: Seq<bool>, a: EngineState, err: DecodeError) -> bool {
    let k = a.keys[a.index];
    &&& 0 <= a.index < a.keys.len()
    &&& k.f == 0 && element_of(t, k) is Some && ({
        let w = effective_width(a.ops, element_of(t, k).unwrap());
        ||| w < 0 && err == DecodeError::NegativeWidth
        ||| w >= 0 && a.pos + w > bits.len() && err == DecodeError::UnexpectedEof
    })
    || k.f == 2 && k.x == 3 && k.y != 0 && ({
        let inner = a.keys.subrange(a.index + 1, first_terminator(a.keys, a.index + 1));
        ||| k.y > 32 && err == DecodeError::ReferenceFieldTooWide
        ||| k.y <= 32 && a.pos + k.y * element_count(inner) > bits.len() && err == DecodeError::UnexpectedEof
    })
    || k.f == 3 && sequence_of(t, k) is Some && a.keys.len() + sequence_of(t, k).unwrap().len() > MAX_STREAM
        && err == DecodeError::StreamTooLong
}

/// `trace` is a run of successful transitions.
pub open spec fn is_run(t: Tables, bits: Seq<bool>, trace: Seq<EngineState>) -> bool {
    &&& trace.len() >= 1
    &&& forall|i: int| 0 <= i < trace.len() - 1 ==> step_rel(t, bits, #[trigger] trace[i], trace[i + 1])
}

/// Executes the descriptor at the current position of `stream`: an element is
/// decoded into `out`, an operator changes `ops` (a reference-value change
/// consumes its whole run), a sequence is expanded in place; replication and
/// unknown descriptors are passed over without reading any bit.
pub fn step(
    reader: &mut BitReader,
    tables: &Tables,
    stream: &mut DescriptorStream,
    ops: &mut OperatorState,
    out: &mut Vec<Observation>,
) -> (r: Result<(), DecodeError>)
    requires
        old(reader).wf(),
        old(stream).index < old(stream).keys@.len() <= MAX_STREAM,
        old(ops).new_ref@.len() <= old(stream).index,
    ensures
        final(reader).wf(),
        final(reader).bytes() == old(reader).bytes(),
        final(reader).position() >= old(reader).position(),
        r matches Err(err) ==> step_err(
            *tables,
            old(reader).bits(),
            EngineState {
                keys: old(stream).keys@,
                index: old(stream).index as int,
                ops: *old(ops),
                pos: old(reader).position() as int,
                out: old(out)@,
            },
            err,
        ),
        r is Ok ==> step_rel(
            *tables,
            old(reader).bits(),
            EngineState {
                keys: old(stream).keys@,
                index: old(stream).index as int,
                ops: *old(ops),
                pos: old(reader).position() as int,
                out: old(out)@,
            },
            EngineState {
                keys: final(stream).keys@,
                index: final(stream).index as int,
                ops: *final(ops),
                pos: final(reader).position() as int,
                out: final(out)@,
            },
        ),
        r is Ok ==> {
            &&& final(stream).index <= final(stream).keys@.len() <= MAX_STREAM
            &&& final(ops).new_ref@.len() <= final(stream).index
            &&& final(stream).keys@.len() > old(stream).keys@.len()
                || (final(stream).keys@.len() == old(stream).keys@.len() && final(stream).index > old(stream).index)
        },
        ({
            let i = old(stream).index as int;
            let keys = old(stream).keys@;
            let k = keys[i];
            let pos = old(reader).position();
            let bits = old(reader).bits();
            &&& k.f == 0 ==> match element_of(*tables, k) {
                None => {
                    &&& r is Ok
                    &&& final(reader).position() == pos
                    &&& final(out)@ == old(out)@
                    &&& final(stream).keys@ == keys
                    &&& final(stream).index == i + 1
                },
                Some(e) => {
                    let w = effective_width(*old(ops), e);
                    &&& final(stream).keys@ == keys
                    &&& w < 0 ==> r == Err::<(), DecodeError>(DecodeError::NegativeWidth)
                    &&& w >= 0 && pos + w > bits.len() ==> r == Err::<(), DecodeError>(DecodeError::UnexpectedEof)
                    &&& w >= 0 && pos + w <= bits.len() ==> {
                        &&& r is Ok
                        &&& final(reader).position() == pos + w
                        &&& final(stream).index == i + 1
                        &&& pushed(old(out)@, final(out)@)
                        &&& observation_of(final(out)@.last(), e, *old(ops), bits, pos as int, w)
                    }
                },
            }
            &&& (k.f == 1 || k.f > 3) ==> {
                &&& r is Ok
                &&& final(reader).position() == pos
                &&& final(out)@ == old(out)@
                &&& final(stream).keys@ == keys
                &&& final(stream).index == i + 1
            }
            &&& k.f == 2 && k.x == 3 && k.y != 0 ==> {
                let end = first_terminator(keys, i + 1);
                let inner = keys.subrange(i + 1, end);
                let need = k.y * element_count(inner);
                &&& final(stream).keys@ == keys
                &&& final(out)@ == old(out)@
                &&& k.y > 32 ==> r == Err::<(), DecodeError>(DecodeError::ReferenceFieldTooWide)
                &&& k.y <= 32 && pos + need > bits.len() ==> r == Err::<(), DecodeError>(DecodeError::UnexpectedEof)
                &&& k.y <= 32 && pos + need <= bits.len() ==> {
                    &&& r is Ok
                    &&& final(reader).position() == pos + need
                    &&& final(stream).index == (if end < keys.len() { end + 1 } else { end })
                    &&& final(ops).ref_changed
                    &&& final(ops).new_ref@ == old(ops).new_ref@ + run_entries(inner, bits, pos as int, k.y as int)
                    &&& final(ops).width_plus == old(ops).width_plus
                    &&& final(ops).scale_plus == old(ops).scale_plus
                    &&& final(ops).new_width == old(ops).new_width
                }
            }
            &&& k.f == 2 && !(k.x == 3 && k.y != 0) ==> {
                &&& r is Ok
                &&& final(reader).position() == pos
                &&& final(out)@ == old(out)@
                &&& final(stream).keys@ == keys
                &&& final(stream).index == i + 1
                &&& (k.x == 1 ==> final(ops).width_plus == increment_of(k.y))
                &&& (k.x != 1 ==> final(ops).width_plus == old(ops).width_plus)
                &&& (k.x == 2 ==> final(ops).scale_plus == increment_of(k.y))
                &&& (k.x != 2 ==> final(ops).scale_plus == old(ops).scale_plus)
                &&& (k.x == 8 ==> final(ops).new_width == (if k.y == 0 { 0 } else { 8 * k.y }))
                &&& (k.x != 8 ==> final(ops).new_width == old(ops).new_width)
                &&& (k.x == 3 ==> !final(ops).ref_changed && final(ops).new_ref@.len() == 0)
                &&& (k.x != 3 ==> final(ops).ref_changed == old(ops).ref_changed && final(ops).new_ref@ == old(ops).new_ref@)
            }
            &&& k.f == 3 ==> {
                &&& final(reader).position() == pos
                &&& final(out)@ == old(out)@
                &&& final(stream).index == i + 1
                &&& match sequence_of(*tables, k) {
                    None => r is Ok && final(stream).keys@ == keys,
                    Some(c) => {
                        &&& keys.len() + c.len() > MAX_STREAM ==> r == Err::<(), DecodeError>(DecodeError::StreamTooLong)
                        &&& keys.len() + c.len() <= MAX_STREAM ==> r is Ok && final(stream).keys@ == spliced(keys, i, c)
                    },
                }
            }
            &&& k.f != 2 ==> *final(ops) == *old(ops)
        }),
{
    let k = stream.current();
    if k.f == 0 {
        match tables.lookup_element(k) {
            None => {
                stream.advance();
                Ok(())
            },
            Some(e) => {
                let o = decode_element(reader, e, ops)?;
                let ghost before = out@;
                out.push(o);
                assert(out@.subrange(0, before.len() as int) =~= before);
                stream.advance();
                Ok(())
            },
        }
    } else if k.f == 2 {
        if k.x == 3 && k.y != 0 {
            if k.y > 32 {
                return Err(DecodeError::ReferenceFieldTooWide);
            }
            let next = reference_run(reader, &stream.keys, stream.index, k.y, ops)?;
            stream.index = next;
            Ok(())
        } else {
            ops.apply(k);
            stream.advance();
            Ok(())
        }
    } else if k.f == 3 {
        match tables.lookup_sequence(k) {
            None => {
                stream.advance();
                Ok(())
            },
            Some(children) => {
                if children.len() > MAX_STREAM - stream.keys.len() {
                    stream.advance();
                    return Err(DecodeError::StreamTooLong);
                }
                stream.expand(children);
                stream.advance();
                Ok(())
            },
        }
    } else {
        stream.advance();
        Ok(())
    }
}

/// The state of the interpreter in which `reader`, `stream`, `ops` and `out` are.
pub open spec fn engine_state(
    reader: BitReader,
    stream: DescriptorStream,
    ops: OperatorState,
    out: Seq<Observation>,
) -> EngineState {
    EngineState { keys: stream.keys@, index: stream.index as int, ops, pos: reader.position() as int, out }
}

/// Runs the descriptor list `keys` over the data bits, starting from the
/// operator state of a fresh message, and returns the observations in the
/// order of the expanded stream: on success, a run of interpreter steps
/// leads from `keys` at the current bit with no operator in force and no
/// observation to a state whose stream is exhausted.
pub fn decode_descriptors(reader: &mut BitReader, tables: &Tables, keys: Vec<DescKey>) -> (r: Result<Vec<Observation>, DecodeError>)
    requires
        old(reader).wf(),
        keys@.len() <= MAX_STREAM,
    ensures
        final(reader).wf(),
        final(reader).bytes() == old(reader).bytes(),
        final(reader).position() >= old(reader).position(),
        r is Ok ==> exists|trace: Seq<EngineState>| {
            &&& #[trigger] is_run(*tables, old(reader).bits(), trace)
            &&& trace[0].keys == keys@
            &&& trace[0].index == 0
            &&& is_reset(trace[0].ops)
            &&& trace[0].pos == old(reader).position()
            &&& trace[0].out.len() == 0
            &&& trace.last().index == trace.last().keys.len()
            &&& trace.last().pos == final(reader).position()
            &&& trace.last().out == r.unwrap()@
        },
        r matches Err(err) ==> exists|trace: Seq<EngineState>| {
            &&& #[trigger] is_run(*tables, old(reader).bits(), trace)
            &&& trace[0].keys == keys@
            &&& trace[0].index == 0
            &&& is_reset(trace[0].ops)
            &&& trace[0].pos == old(reader).position()
            &&& trace[0].out.len() == 0
            &&& step_err(*tables, old(reader).bits(), trace.last(), err)
        },
        keys@.len() == 0 ==> r is Ok && r.unwrap()@.len() == 0 && final(reader).position() == old(reader).position(),
{
    let mut stream = DescriptorStream::new(keys);
    let mut ops = OperatorState::new();
    let mut out: Vec<Observation> = Vec::new();
    let ghost empty = keys@.len() == 0;
    let ghost bits = reader.bits();
    let ghost mut trace: Seq<EngineState> = seq![engine_state(*reader, stream, ops, out@)];
    while stream.remaining()
        invariant
            empty == (keys@.len() == 0),
            empty ==> stream.keys@.len() == 0 && out@.len() == 0 && reader.position() == old(reader).position(),
            reader.wf(),
            reader.bytes() == old(reader).bytes(),
            bits == old(reader).bits(),
            reader.position() >= old(reader).position(),
            stream.index <= stream.keys@.len() <= MAX_STREAM,
            ops.new_ref@.len() <= stream.index,
            is_run(*tables, bits, trace),
            trace[0].keys == keys@,
            trace[0].index == 0,
            is_reset(trace[0].ops),
            trace[0].pos == old(reader).position(),
            trace[0].out.len() == 0,
            trace.last() == engine_state(*reader, stream, ops, out@),
        decreases MAX_STREAM - stream.keys@.len(), stream.keys@.len() - stream.index,
    {
        match step(reader, tables, &mut stream, &mut ops, &mut out) {
            Ok(()) => {},
            Err(err) => {
                assert(is_run(*tables, bits, trace));
                return Err(err);
            },
        }
        proof {
            let ghost prev = trace;
            trace = trace.push(engine_state(*reader, stream, ops, out@));
            assert forall|i: int| 0 <= i < trace.len() - 1 implies step_rel(*tables, bits, #[trigger] trace[i], trace[i + 1]) by {
                if i < prev.len() - 1 {
                    assert(trace[i] == prev[i] && trace[i + 1] == prev[i + 1]);
                }
            }
        }
    }
    assert(is_run(*tables, bits, trace));
    Ok(out)
}

} // verus!

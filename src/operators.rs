use vstd::prelude::*;
use crate::bits::{BitReader, DecodeError, bits_value, lemma_bits_value_bound};
use vstd::arithmetic::power2::{pow2, lemma2_to64, lemma_pow2_strictly_increases, lemma_pow2_unfold};
use crate::descriptor::{DescKey, ElementDescriptor, is_ref_terminator};

verus! {

/// Changes that Table C operators impose on the elements that follow them.
pub struct OperatorState {
    /// Added to every element's bit width.
    pub width_plus: i32,
    /// Added to every element's scale.
    pub scale_plus: i32,
    /// Whether `new_ref` is consulted.
    pub ref_changed: bool,
    /// Reference-value corrections by key; a later entry overrides an earlier one.
    pub new_ref: Vec<(DescKey, i64)>,
    /// When nonzero, replaces every element's nominal width (in bits).
    pub new_width: u32,
}

/// Index of the last entry of `t` with key `k`.
pub open spec fn last_ref_index(t: Seq<(DescKey, i64)>, k: DescKey) -> Option<int>
    decreases t.len(),
{
    if t.len() == 0 {
        None
    } else if t.last().0 == k {
        Some(t.len() - 1)
    } else {
        last_ref_index(t.drop_last(), k)
    }
}

/// The correction added to the reference value of `k`.
pub open spec fn ref_correction(ops: OperatorState, k: DescKey) -> int {
    if ops.ref_changed {
        match last_ref_index(ops.new_ref@, k) {
            Some(i) => ops.new_ref@[i].1 as int,
            None => 0,
        }
    } else {
        0
    }
}

/// The number of bits read for element `e`: the override width if one is
/// active, else the nominal one, plus the width increment.
pub open spec fn effective_width(ops: OperatorState, e: ElementDescriptor) -> int {
    (if ops.new_width != 0 { ops.new_width as int } else { e.width as int }) + ops.width_plus
}

/// The decimal scale applied to element `e`.
pub open spec fn effective_scale(ops: OperatorState, e: ElementDescriptor) -> int {
    e.scale + ops.scale_plus
}

/// The reference value applied to element `e`.
pub open spec fn effective_reference(ops: OperatorState, e: ElementDescriptor) -> int {
    e.reference + ref_correction(ops, e.key)
}

/// The state in which no operator is in force.
pub open spec fn is_reset(ops: OperatorState) -> bool {
    &&& ops.width_plus == 0
    &&& ops.scale_plus == 0
    &&& !ops.ref_changed
    &&& ops.new_ref@.len() == 0
    &&& ops.new_width == 0
}

/// An operator's `Y` read as a signed increment: 0 resets, otherwise `Y - 128`.
pub open spec fn increment_of(y: u8) -> int {
    if y == 0 { 0 } else { y - 128 }
}

/// The `y`-bit field `raw` read in sign-magnitude form: with the top bit set,
/// `-(raw - 2^(y-1))`, else `raw`.
pub open spec fn sign_magnitude(raw: int, half: int) -> int {
    if raw >= half { -(raw - half) } else { raw }
}

impl OperatorState {
    /// The state at the start of every message.
    pub fn new() -> (r: OperatorState)
        ensures
            is_reset(r),
    {
        OperatorState { width_plus: 0, scale_plus: 0, ref_changed: false, new_ref: Vec::new(), new_width: 0 }
    }

    /// The reference-value correction that applies to `k`.
    pub fn correction(&self, k: DescKey) -> (r: i64)
        ensures
            r == ref_correction(*self, k),
    {
        if !self.ref_changed {
            return 0;
        }
        let mut i: usize = self.new_ref.len();
        assert(self.new_ref@.subrange(0, i as int) == self.new_ref@);
        while i > 0
            invariant
                self.ref_changed,
                i <= self.new_ref@.len(),
                last_ref_index(self.new_ref@, k) == last_ref_index(self.new_ref@.subrange(0, i as int), k),
            decreases i,
        {
            let ghost t = self.new_ref@.subrange(0, i as int);
            assert(t.drop_last() == self.new_ref@.subrange(0, i - 1));
            assert(t.last() == self.new_ref@[i - 1]);
            if self.new_ref[i - 1].0 == k {
                assert(last_ref_index(t, k) == Some(i - 1));
                return self.new_ref[i - 1].1;
            }
            i = i - 1;
        }
        0
    }

    /// Applies the operator `2-X-Y` for `X` in 1 (data width), 2 (scale), 8
    /// (character width) and for `2-3-0` (end of reference changes). Any other
    /// operator leaves the state as it is.
    pub fn apply(&mut self, k: DescKey)
        requires
            k.f == 2,
        ensures
            k.x == 1 ==> final(self).width_plus == increment_of(k.y),
            k.x != 1 ==> final(self).width_plus == old(self).width_plus,
            k.x == 2 ==> final(self).scale_plus == increment_of(k.y),
            k.x != 2 ==> final(self).scale_plus == old(self).scale_plus,
            k.x == 8 ==> final(self).new_width == (if k.y == 0 { 0 } else { 8 * k.y }),
            k.x != 8 ==> final(self).new_width == old(self).new_width,
            k.x == 3 && k.y == 0 ==> !final(self).ref_changed && final(self).new_ref@.len() == 0,
            !(k.x == 3 && k.y == 0) ==> {
                &&& final(self).ref_changed == old(self).ref_changed
                &&& final(self).new_ref@ == old(self).new_ref@
            },
    {
        if k.x == 1 {
            self.width_plus = if k.y == 0 { 0 } else { k.y as i32 - 128 };
        } else if k.x == 2 {
            self.scale_plus = if k.y == 0 { 0 } else { k.y as i32 - 128 };
        } else if k.x == 8 {
            self.new_width = if k.y == 0 { 0 } else { 8 * k.y as u32 };
        } else if k.x == 3 && k.y == 0 {
            self.ref_changed = false;
            self.new_ref = Vec::new();
        }
    }
}

/// Position of the first reference-change terminator of `s` at or after `from`,
/// or the length of `s` if there is none.
pub open spec fn first_terminator(s: Seq<DescKey>, from: int) -> int
    decreases s.len() - from,
{
    if from >= s.len() {
        s.len() as int
    } else if is_ref_terminator(s[from]) {
        from
    } else {
        first_terminator(s, from + 1)
    }
}

/// Number of element descriptors (`F = 0`) among `keys`.
pub open spec fn element_count(keys: Seq<DescKey>) -> nat
    decreases keys.len(),
{
    if keys.len() == 0 {
        0
    } else {
        element_count(keys.drop_last()) + if keys.last().f == 0 { 1nat } else { 0nat }
    }
}

/// The corrections that a reference-change run over `keys` records when its
/// `y`-bit fields start at bit `pos` of `bits`: one for each element
/// descriptor, in order, read from consecutive fields.
pub open spec fn run_entries(keys: Seq<DescKey>, bits: Seq<bool>, pos: int, y: int) -> Seq<(DescKey, i64)>
    decreases keys.len(),
{
    if keys.len() == 0 {
        seq![]
    } else {
        let before = run_entries(keys.drop_last(), bits, pos, y);
        if keys.last().f == 0 {
            let start = pos + y * element_count(keys.drop_last());
            let raw = bits_value(bits.subrange(start, start + y));
            before.push((keys.last(), sign_magnitude(raw as int, pow2_of(y)) as i64))
        } else {
            before
        }
    }
}

/// `2` raised to `y - 1`.
pub open spec fn pow2_of(y: int) -> int {
    pow2((y - 1) as nat) as int
}

/// A reference-value change run records exactly one correction for each
/// element descriptor that it passes over.
pub proof fn lemma_run_entries_len(keys: Seq<DescKey>, bits: Seq<bool>, pos: int, y: int)
    ensures
        run_entries(keys, bits, pos, y).len() == element_count(keys),
    decreases keys.len(),
{
    if keys.len() > 0 {
        lemma_run_entries_len(keys.drop_last(), bits, pos, y);
    }
}

/// A reference-value change run that starts before position `from` ends at
/// the first terminator `2-3-255` at or after `from`: no descriptor before it
/// is a terminator, and it is one unless the stream ran out.
pub proof fn lemma_first_terminator_bounds(s: Seq<DescKey>, from: int)
    requires
        0 <= from <= s.len(),
    ensures
        from <= first_terminator(s, from) <= s.len(),
        first_terminator(s, from) < s.len() ==> is_ref_terminator(s[first_terminator(s, from)]),
        forall|m: int| from <= m < first_terminator(s, from) ==> !is_ref_terminator(#[trigger] s[m]),
    decreases s.len() - from,
{
    if from < s.len() && !is_ref_terminator(s[from]) {
        lemma_first_terminator_bounds(s, from + 1);
    }
}

proof fn lemma_first_terminator(s: Seq<DescKey>, from: int, j: int)
    requires
        0 <= from <= j <= s.len(),
        forall|m: int| from <= m < j ==> !is_ref_terminator(s[m]),
    ensures
        first_terminator(s, from) == first_terminator(s, j),
    decreases j - from,
{
    if from < j {
        lemma_first_terminator(s, from + 1, j);
    }
}

proof fn lemma_element_count_grows(s: Seq<DescKey>, j: int, m: int)
    requires
        0 <= j <= m <= s.len(),
    ensures
        element_count(s.subrange(0, j)) <= element_count(s.subrange(0, m)),
        j < m && s[j].f == 0 ==> element_count(s.subrange(0, j)) + 1 <= element_count(s.subrange(0, m)),
    decreases m - j,
{
    if j < m {
        lemma_element_count_grows(s, j, m - 1);
        assert(s.subrange(0, m).drop_last() == s.subrange(0, m - 1));
        if j + 1 <= m - 1 {
            lemma_element_count_grows(s, j + 1, m - 1);
            assert(s.subrange(0, j + 1).drop_last() == s.subrange(0, j));
        } else {
            assert(s.subrange(0, j + 1).drop_last() == s.subrange(0, j));
        }
    }
}

/// Computes `2^(y-1)`.
fn half_range(y: u8) -> (r: u32)
    requires
        1 <= y <= 32,
    ensures
        r as int == pow2_of(y as int),
{
    let mut h: u32 = 1;
    let mut i: u8 = 1;
    proof {
        lemma2_to64();
    }
    while i < y
        invariant
            1 <= i <= y <= 32,
            h as int == pow2((i - 1) as nat),
        decreases y - i,
    {
        proof {
            lemma_pow2_unfold(i as nat);
            lemma_pow2_strictly_increases((i - 1) as nat, 31);
            lemma2_to64();
        }
        h = h * 2;
        i = i + 1;
    }
    h
}

/// Runs the reference-value change `2-3-y` that stands at position `start` of
/// `keys`: for every element descriptor up to the first terminator `2-3-255`
/// it reads a `y`-bit sign-magnitude field and records it as that key's
/// correction. Returns the position just after the terminator (or the end of
/// `keys` when there is none).
pub fn reference_run(
    reader: &mut BitReader,
    keys: &Vec<DescKey>,
    start: usize,
    y: u8,
    ops: &mut OperatorState,
) -> (r: Result<usize, DecodeError>)
    requires
        old(reader).wf(),
        start < keys@.len(),
        1 <= y <= 32,
        old(ops).new_ref@.len() + keys@.len() <= usize::MAX,
    ensures
        final(reader).wf(),
        final(reader).bytes() == old(reader).bytes(),
        final(reader).position() >= old(reader).position(),
        final(ops).width_plus == old(ops).width_plus,
        final(ops).scale_plus == old(ops).scale_plus,
        final(ops).new_width == old(ops).new_width,
        r matches Ok(n) ==> start < n <= keys@.len() && final(ops).new_ref@.len() <= old(ops).new_ref@.len() + (n - start - 1),
        ({
            let end = first_terminator(keys@, start + 1);
            let inner = keys@.subrange(start + 1, end);
            let need = y * element_count(inner);
            let pos = old(reader).position();
            &&& pos + need <= old(reader).bits().len() ==> {
                &&& r is Ok
                &&& r.unwrap() as int == (if end < keys@.len() { end + 1 } else { end })
                &&& final(reader).position() == pos + need
                &&& final(ops).ref_changed
                &&& final(ops).new_ref@ == old(ops).new_ref@ + run_entries(inner, old(reader).bits(), pos as int, y as int)
            }
            &&& pos + need > old(reader).bits().len() ==> r == Err::<usize, DecodeError>(DecodeError::UnexpectedEof)
        }),
{
    let ghost bits = reader.bits();
    let ghost pos0 = reader.position() as int;
    let ghost s = keys@;
    let ghost old_ref = ops.new_ref@;
    let ghost end = first_terminator(s, start + 1);
    let half = half_range(y);
    ops.ref_changed = true;
    let mut j: usize = start + 1;
    assert(s.subrange(start + 1, j as int).len() == 0);
    assert(element_count(s.subrange(start + 1, j as int)) == 0);
    assert(y * element_count(s.subrange(start + 1, j as int)) == 0);
    assert(run_entries(s.subrange(start + 1, j as int), bits, pos0, y as int) =~= seq![]);
    assert(old_ref + seq![] =~= old_ref);
    while j < keys.len() && !(keys[j].f == 2 && keys[j].x == 3 && keys[j].y == 255)
        invariant
            reader.wf(),
            reader.bytes() == old(reader).bytes(),
            reader.position() >= old(reader).position(),
            bits == reader.bits(),
            s == keys@,
            start < j <= s.len(),
            1 <= y <= 32,
            half as int == pow2_of(y as int),
            ops.width_plus == old(ops).width_plus,
            ops.scale_plus == old(ops).scale_plus,
            ops.new_width == old(ops).new_width,
            ops.ref_changed,
            old_ref.len() + s.len() <= usize::MAX,
            end == first_terminator(s, j as int),
            end == first_terminator(s, start + 1),
            pos0 == old(reader).position(),
            old_ref == old(ops).new_ref@,
            forall|m: int| start + 1 <= m < j ==> !is_ref_terminator(s[m]),
            reader.position() == pos0 + y * element_count(s.subrange(start + 1, j as int)),
            ops.new_ref@ == old_ref + run_entries(s.subrange(start + 1, j as int), bits, pos0, y as int),
            ops.new_ref@.len() <= old_ref.len() + (j - start - 1),
        decreases s.len() - j,
    {
        let k = keys[j];
        let ghost prefix = s.subrange(start + 1, j as int);
        let ghost next = s.subrange(start + 1, j + 1);
        assert(next.drop_last() == prefix);
        assert(next.last() == k);
        proof {
            lemma_run_entries_len(prefix, bits, pos0, y as int);
        }
        if k.f == 0 {
            let ghost p = reader.position() as int;
            let raw = match reader.read_field(y as u64) {
                Ok(v) => v,
                Err(e) => {
                    proof {
                        let inner = s.subrange(start + 1, end);
                        assert(!is_ref_terminator(s[j as int]));
                        lemma_first_terminator_bounds(s, j + 1);
                        assert(end == first_terminator(s, j + 1));
                        assert(inner.subrange(0, j - start - 1) =~= prefix);
                        lemma_element_count_grows(inner, j - start - 1, inner.len() as int);
                        assert(inner.subrange(0, inner.len() as int) =~= inner);
                        assert(inner[j - start - 1] == k);
                        assert(element_count(prefix) + 1 <= element_count(inner));
                        assert(y * element_count(prefix) + y <= y * element_count(inner)) by (nonlinear_arith)
                            requires
                                element_count(prefix) + 1 <= element_count(inner),
                        ;
                        assert(e == DecodeError::UnexpectedEof);
                        assert(pos0 + y * element_count(inner) > bits.len());
                    }
                    return Err(e);
                },
            };
            proof {
                let w = bits.subrange(p, p + y);
                lemma_bits_value_bound(w);
                lemma_pow2_strictly_increases(y as nat, 64);
                lemma2_to64();
                assert(raw as int == bits_value(w));
                assert(y * element_count(next) == y * element_count(prefix) + y) by (nonlinear_arith)
                    requires
                        element_count(next) == element_count(prefix) + 1,
                ;
            }
            let value: i64 = if raw >= half as u64 { -((raw - half as u64) as i64) } else { raw as i64 };
            ops.new_ref.push((k, value));
        } else {
            assert(element_count(next) == element_count(prefix));
        }
        proof {
            lemma_first_terminator(s, j as int, j + 1);
        }
        j = j + 1;
    }
    proof {
        reader.lemma_wf();
        if j < s.len() {
            assert(is_ref_terminator(s[j as int]));
        }
        assert(end == j);
    }
    if j < keys.len() {
        Ok(j + 1)
    } else {
        Ok(j)
    }
}

} // verus!

use vstd::prelude::*;
use vstd::arithmetic::power2::{pow2, lemma2_to64, lemma_pow2_unfold, lemma_pow2_strictly_increases};
use vstd::arithmetic::div_mod::*;

verus! {

/// Failures of the bit reader and of the decoder built on it.
#[derive(Debug, Clone, Copy, PartialEq, Eq, Structural)]
pub enum DecodeError {
    /// The input ended in the middle of a read.
    UnexpectedEof,
    /// A message does not start with the four bytes `BUFR`.
    NotBufr,
    /// The edition byte of section 0 is neither 2 nor 4.
    UnsupportedEdition,
    /// A section length is smaller than its own fixed header.
    BadSectionLength,
    /// Width operators drove an element's bit width below zero.
    NegativeWidth,
    /// A reference-value change asks for fields wider than 32 bits.
    ReferenceFieldTooWide,
    /// Table D expansion made the descriptor stream longer than the decoder allows.
    StreamTooLong,
}

/// The bit at position `i` of `bytes`, taking the bytes in order and the bits of
/// each byte most significant first.
pub open spec fn bit_at(bytes: Seq<u8>, i: int) -> bool {
    (bytes[i / 8] >> ((7 - i % 8) as u8)) & 1u8 == 1u8
}

/// All the bits of `bytes`, in reading order.
pub open spec fn bits_of(bytes: Seq<u8>) -> Seq<bool> {
    Seq::new((8 * bytes.len()) as nat, |i: int| bit_at(bytes, i))
}

/// The unsigned integer whose binary digits, most significant first, are `bits`.
pub open spec fn bits_value(bits: Seq<bool>) -> nat
    decreases bits.len(),
{
    if bits.len() == 0 {
        0
    } else {
        2 * bits_value(bits.drop_last()) + if bits.last() { 1nat } else { 0nat }
    }
}

pub proof fn lemma_bits_value_bound(bits: Seq<bool>)
    ensures
        bits_value(bits) < pow2(bits.len()),
    decreases bits.len(),
{
    if bits.len() == 0 {
        lemma2_to64();
    } else {
        lemma_bits_value_bound(bits.drop_last());
        lemma_pow2_unfold(bits.len());
    }
}

/// The `n`-bit field that starts at bit `pos` of `bits`, as an unsigned
/// integer reduced to its low 64 bits.
pub open spec fn field_value(bits: Seq<bool>, pos: int, n: int) -> u64 {
    (bits_value(bits.subrange(pos, pos + n)) % 0x1_0000_0000_0000_0000) as u64
}

/// The `n` low binary digits of `v`, most significant first.
pub open spec fn to_bits(v: nat, n: nat) -> Seq<bool>
    decreases n,
{
    if n == 0 {
        seq![]
    } else {
        to_bits(v / 2, (n - 1) as nat).push(v % 2 == 1)
    }
}

/// Sum of the widths `ns`.
pub open spec fn total_width(ns: Seq<nat>) -> nat
    decreases ns.len(),
{
    if ns.len() == 0 {
        0
    } else {
        ns[0] + total_width(ns.drop_first())
    }
}

/// The values that successive `read_bits` calls of widths `ns` return when
/// the first starts at bit `pos` of `bits`.
pub open spec fn successive_reads(bits: Seq<bool>, pos: int, ns: Seq<nat>) -> Seq<u64>
    decreases ns.len(),
{
    if ns.len() == 0 {
        seq![]
    } else {
        seq![field_value(bits, pos, ns[0] as int)] + successive_reads(bits, pos + ns[0], ns.drop_first())
    }
}

/// The values `vals`, each written in the width of the same rank in `ns`,
/// most significant bit first, one after the other.
pub open spec fn write_fields(vals: Seq<u64>, ns: Seq<nat>) -> Seq<bool>
    decreases ns.len(),
{
    if ns.len() == 0 || vals.len() == 0 {
        seq![]
    } else {
        to_bits(vals[0] as nat, ns[0]) + write_fields(vals.drop_first(), ns.drop_first())
    }
}

/// The widths `ns` as natural numbers.
pub open spec fn widths(ns: Seq<u32>) -> Seq<nat> {
    Seq::new(ns.len(), |i: int| ns[i] as nat)
}

/// Bytes made of `bits`, eight at a time, most significant bit first.
pub open spec fn pack_bytes(bits: Seq<bool>) -> Seq<u8>
    decreases bits.len(),
{
    if bits.len() < 8 {
        seq![]
    } else {
        seq![bits_value(bits.take(8)) as u8] + pack_bytes(bits.skip(8))
    }
}

proof fn lemma_to_bits_len(v: nat, n: nat)
    ensures
        to_bits(v, n).len() == n,
    decreases n,
{
    if n > 0 {
        lemma_to_bits_len(v / 2, (n - 1) as nat);
    }
}

proof fn lemma_to_bits_of_value(b: Seq<bool>)
    ensures
        to_bits(bits_value(b), b.len()) == b,
    decreases b.len(),
{
    if b.len() > 0 {
        lemma_to_bits_of_value(b.drop_last());
        let v = bits_value(b);
        assert(v / 2 == bits_value(b.drop_last()));
        assert(b.drop_last().push(b.last()) == b);
    }
}

proof fn lemma_value_of_to_bits(v: nat, n: nat)
    requires
        v < pow2(n),
    ensures
        bits_value(to_bits(v, n)) == v,
    decreases n,
{
    if n == 0 {
        lemma2_to64();
    } else {
        lemma_pow2_unfold(n);
        lemma_value_of_to_bits(v / 2, (n - 1) as nat);
        assert(to_bits(v, n).drop_last() == to_bits(v / 2, (n - 1) as nat));
    }
}

proof fn lemma_byte_bits(b: u8, j: int)
    requires
        0 <= j < 8,
    ensures
        ((b >> ((7 - j) as u8)) & 1u8 == 1u8) == to_bits(b as nat, 8)[j],
{
    reveal_with_fuel(to_bits, 9);
    let t = to_bits(b as nat, 8);
    if j == 0 {
        assert(((b >> 7u8) & 1u8 == 1u8) == ((b / 128u8) % 2u8 == 1u8)) by (bit_vector);
    } else if j == 1 {
        assert(((b >> 6u8) & 1u8 == 1u8) == ((b / 64u8) % 2u8 == 1u8)) by (bit_vector);
    } else if j == 2 {
        assert(((b >> 5u8) & 1u8 == 1u8) == ((b / 32u8) % 2u8 == 1u8)) by (bit_vector);
    } else if j == 3 {
        assert(((b >> 4u8) & 1u8 == 1u8) == ((b / 16u8) % 2u8 == 1u8)) by (bit_vector);
    } else if j == 4 {
        assert(((b >> 3u8) & 1u8 == 1u8) == ((b / 8u8) % 2u8 == 1u8)) by (bit_vector);
    } else if j == 5 {
        assert(((b >> 2u8) & 1u8 == 1u8) == ((b / 4u8) % 2u8 == 1u8)) by (bit_vector);
    } else if j == 6 {
        assert(((b >> 1u8) & 1u8 == 1u8) == ((b / 2u8) % 2u8 == 1u8)) by (bit_vector);
    } else {
        assert(((b >> 0u8) & 1u8 == 1u8) == (b % 2u8 == 1u8)) by (bit_vector);
    }
}

proof fn lemma_pack_bits_of(bytes: Seq<u8>)
    ensures
        pack_bytes(bits_of(bytes)) == bytes,
    decreases bytes.len(),
{
    let bits = bits_of(bytes);
    if bytes.len() > 0 {
        assert forall|j: int| 0 <= j < 8 implies bits.take(8)[j] == to_bits(bytes[0] as nat, 8)[j] by {
            lemma_byte_bits(bytes[0], j);
        }
        lemma_to_bits_len(bytes[0] as nat, 8);
        assert(bits.take(8) =~= to_bits(bytes[0] as nat, 8));
        lemma2_to64();
        lemma_value_of_to_bits(bytes[0] as nat, 8);
        assert(bits.skip(8) =~= bits_of(bytes.drop_first()));
        lemma_pack_bits_of(bytes.drop_first());
        assert(bytes =~= seq![bytes[0]] + bytes.drop_first());
    } else {
        assert(bits.len() == 0);
        assert(bytes =~= seq![]);
    }
}

proof fn lemma_write_back(bits: Seq<bool>, pos: int, ns: Seq<nat>)
    requires
        0 <= pos,
        pos + total_width(ns) == bits.len(),
        forall|i: int| 0 <= i < ns.len() ==> ns[i] <= 32,
    ensures
        write_fields(successive_reads(bits, pos, ns), ns) == bits.skip(pos),
    decreases ns.len(),
{
    if ns.len() == 0 {
        assert(bits.skip(pos) =~= seq![]);
    } else {
        let n = ns[0];
        let rest = ns.drop_first();
        assert(forall|i: int| 0 <= i < rest.len() ==> rest[i] == ns[i + 1]);
        lemma_write_back(bits, pos + n, rest);
        let w = bits.subrange(pos, pos + n);
        lemma_bits_value_bound(w);
        lemma2_to64();
        lemma_pow2_strictly_increases(n, 64);
        assert(field_value(bits, pos, n as int) as nat == bits_value(w));
        lemma_to_bits_of_value(w);
        let vals = successive_reads(bits, pos, ns);
        assert(vals.drop_first() == successive_reads(bits, pos + n, rest));
        assert(bits.skip(pos) =~= w + bits.skip(pos + n));
    }
}

/// Reading a byte sequence to its end with `read_bits` in fields of any
/// widths (each at most 32 bits) and writing the values back, each in its
/// own width, most significant bit first, gives back the bytes.
pub proof fn lemma_read_round_trip(bytes: Seq<u8>, ns: Seq<nat>)
    requires
        total_width(ns) == 8 * bytes.len(),
        forall|i: int| 0 <= i < ns.len() ==> ns[i] <= 32,
    ensures
        pack_bytes(write_fields(successive_reads(bits_of(bytes), 0, ns), ns)) == bytes,
{
    lemma_write_back(bits_of(bytes), 0, ns);
    assert(bits_of(bytes).skip(0) =~= bits_of(bytes));
    lemma_pack_bits_of(bytes);
}

/// The bytes of the `w`-bit field that starts at bit `pos` of `bits`,
/// big-endian: `ceil(w/8)` bytes, the first holding the top
/// `w - 8 * (ceil(w/8) - 1)` bits of the field and each other one 8 bits.
pub open spec fn field_bytes(bits: Seq<bool>, pos: int, w: int) -> Seq<u8> {
    let nb = (w + 7) / 8;
    let head = w - 8 * (nb - 1);
    Seq::new(
        nb as nat,
        |j: int|
            if j == 0 {
                bits_value(bits.subrange(pos, pos + head)) as u8
            } else {
                bits_value(bits.subrange(pos + head + 8 * (j - 1), pos + head + 8 * j)) as u8
            },
    )
}

proof fn lemma_small_field(bits: Seq<bool>, pos: int, n: int)
    requires
        0 <= pos,
        0 <= n <= 8,
        pos + n <= bits.len(),
    ensures
        field_value(bits, pos, n) as int == bits_value(bits.subrange(pos, pos + n)),
        bits_value(bits.subrange(pos, pos + n)) < 256,
{
    let w = bits.subrange(pos, pos + n);
    lemma_bits_value_bound(w);
    lemma2_to64();
    if n < 8 {
        lemma_pow2_strictly_increases(n as nat, 8);
    }
    lemma_pow2_strictly_increases(8, 64);
}

/// A reader that hands out the bits of a byte sequence, most significant bit of
/// each byte first, as unsigned integers of any width.
pub struct BitReader {
    data: Vec<u8>,
    pos: usize,
}

impl BitReader {
    /// The bytes being read.
    pub closed spec fn bytes(&self) -> Seq<u8> {
        self.data@
    }

    /// How many bits have been consumed so far.
    pub closed spec fn position(&self) -> nat {
        self.pos as nat
    }

    /// The bits of the input, in reading order.
    pub open spec fn bits(&self) -> Seq<bool> {
        bits_of(self.bytes())
    }

    pub closed spec fn wf(&self) -> bool {
        &&& self.data@.len() * 8 <= usize::MAX
        &&& self.pos <= self.data@.len() * 8
    }

    /// Starts reading at the first bit of `input`.
    pub fn new(input: Vec<u8>) -> (r: BitReader)
        requires
            input@.len() * 8 <= usize::MAX,
        ensures
            r.wf(),
            r.bytes() == input@,
            r.position() == 0,
    {
        BitReader { data: input, pos: 0 }
    }

    pub proof fn lemma_wf(&self)
        requires
            self.wf(),
        ensures
            self.position() <= self.bits().len(),
            self.bits().len() <= usize::MAX,
            self.bits().len() % 8 == 0,
    {
    }

    /// How many bits have been consumed so far.
    pub fn position_now(&self) -> (r: usize)
        ensures
            r == self.position(),
    {
        self.pos
    }

    /// Number of bits not yet consumed.
    pub fn remaining_bits(&self) -> (r: usize)
        requires
            self.wf(),
        ensures
            r == self.bits().len() - self.position(),
    {
        self.data.len() * 8 - self.pos
    }

    /// Whether every bit has been consumed.
    pub fn at_end(&self) -> (r: bool)
        requires
            self.wf(),
        ensures
            r == (self.position() == self.bits().len()),
    {
        self.pos == self.data.len() * 8
    }

    /// Reads the next bit.
    fn read_bit(&mut self) -> (r: bool)
        requires
            old(self).wf(),
            old(self).position() < old(self).bits().len(),
        ensures
            final(self).wf(),
            final(self).bytes() == old(self).bytes(),
            final(self).position() == old(self).position() + 1,
            r == old(self).bits()[old(self).position() as int],
    {
        let byte = self.data[self.pos / 8];
        let shift = (7 - self.pos % 8) as u8;
        let r = (byte >> shift) & 1u8 == 1u8;
        self.pos = self.pos + 1;
        r
    }

    /// Reads the next `n` bits (at most 32) as an unsigned integer, most
    /// significant bit first: a value in `[0, 2^n)`. Fails with
    /// `UnexpectedEof`, consuming the rest of the input, when fewer than `n`
    /// bits remain; `n == 0` yields 0 and consumes nothing.
    pub fn read_bits(&mut self, n: u32) -> (r: Result<u32, DecodeError>)
        requires
            old(self).wf(),
            n <= 32,
        ensures
            final(self).wf(),
            final(self).position() >= old(self).position(),
            final(self).bytes() == old(self).bytes(),
            old(self).position() + n <= old(self).bits().len() ==> {
                &&& final(self).position() == old(self).position() + n
                &&& r is Ok
                &&& r.unwrap() as int == bits_value(old(self).bits().subrange(old(self).position() as int, old(self).position() + n))
                &&& r.unwrap() as int == field_value(old(self).bits(), old(self).position() as int, n as int)
                &&& r.unwrap() < pow2(n as nat)
            },
            old(self).position() + n > old(self).bits().len() ==> {
                &&& final(self).position() == old(self).bits().len()
                &&& r == Err::<u32, DecodeError>(DecodeError::UnexpectedEof)
            },
    {
        let ghost w = self.bits().subrange(self.pos as int, self.pos + n);
        let v = self.read_field(n as u64)?;
        proof {
            lemma_bits_value_bound(w);
            lemma2_to64();
            if n < 32 {
                lemma_pow2_strictly_increases(n as nat, 32);
            }
            lemma_pow2_strictly_increases(32, 64);
        }
        Ok(v as u32)
    }

    /// Reads the next `n` bits as an unsigned integer, most significant bit
    /// first; a field wider than 64 bits keeps its low 64 bits.
    pub fn read_field(&mut self, n: u64) -> (r: Result<u64, DecodeError>)
        requires
            old(self).wf(),
        ensures
            final(self).wf(),
            final(self).position() >= old(self).position(),
            final(self).bytes() == old(self).bytes(),
            old(self).position() + n <= old(self).bits().len() ==> {
                &&& final(self).position() == old(self).position() + n
                &&& r == Ok::<u64, DecodeError>(field_value(old(self).bits(), old(self).position() as int, n as int))
            },
            old(self).position() + n > old(self).bits().len() ==> {
                &&& final(self).position() == old(self).bits().len()
                &&& r == Err::<u64, DecodeError>(DecodeError::UnexpectedEof)
            },
    {
        if n > (self.data.len() * 8 - self.pos) as u64 {
            self.pos = self.data.len() * 8;
            return Err(DecodeError::UnexpectedEof);
        }
        let ghost start = self.pos as int;
        let ghost all = self.bits();
        let mut v: u64 = 0;
        let mut k: u64 = 0;
        while k < n
            invariant
                self.wf(),
                self.bytes() == old(self).bytes(),
                all == self.bits(),
                start == old(self).position(),
                start + n <= all.len(),
                k <= n,
                self.pos == start + k,
                v == bits_value(all.subrange(start, start + k)) % 0x1_0000_0000_0000_0000,
            decreases n - k,
        {
            let bit = self.read_bit();
            let ghost prev = all.subrange(start, start + k);
            let ghost next = all.subrange(start, start + k + 1);
            proof {
                assert(next.drop_last() == prev);
                assert(next.last() == bit);
                let b: int = if bit { 1 } else { 0 };
                let p: int = bits_value(prev) as int;
                lemma_add_mod_noop(2 * p, b, 0x1_0000_0000_0000_0000);
                lemma_mul_mod_noop_right(2, p, 0x1_0000_0000_0000_0000);
                lemma_add_mod_noop(2 * (p % 0x1_0000_0000_0000_0000), b, 0x1_0000_0000_0000_0000);
                lemma_mod_twice(b, 0x1_0000_0000_0000_0000);
            }
            let b: u128 = if bit { 1 } else { 0 };
            v = ((v as u128 * 2 + b) % 0x1_0000_0000_0000_0000) as u64;
            k = k + 1;
        }
        Ok(v)
    }

    /// Reads the next `w` bits as the bytes of a `w`-bit field (see
    /// `field_bytes`).
    pub fn read_field_bytes(&mut self, w: u64) -> (r: Vec<u8>)
        requires
            old(self).wf(),
            old(self).position() + w <= old(self).bits().len(),
        ensures
            final(self).wf(),
            final(self).bytes() == old(self).bytes(),
            final(self).position() == old(self).position() + w,
            r@ == field_bytes(old(self).bits(), old(self).position() as int, w as int),
    {
        let ghost bits = self.bits();
        let ghost pos = self.pos as int;
        let mut out: Vec<u8> = Vec::new();
        if w == 0 {
            assert(out@ =~= field_bytes(bits, pos, 0));
            return out;
        }
        let nb: u64 = (w + 7) / 8;
        let head: u64 = w - 8 * (nb - 1);
        proof {
            lemma_small_field(bits, pos, head as int);
        }
        let first = match self.read_field(head) {
            Ok(v) => v,
            Err(_) => {
                return out;
            },
        };
        out.push(first as u8);
        let mut j: u64 = 1;
        while j < nb
            invariant
                self.wf(),
                self.bytes() == old(self).bytes(),
                bits == self.bits(),
                pos == old(self).position(),
                nb == (w + 7) / 8,
                head == w - 8 * (nb - 1),
                1 <= head <= 8,
                pos + w <= bits.len(),
                1 <= j <= nb,
                self.pos == pos + head + 8 * (j - 1),
                out@ =~= field_bytes(bits, pos, w as int).take(j as int),
            decreases nb - j,
        {
            proof {
                lemma_small_field(bits, self.pos as int, 8);
            }
            let v = match self.read_field(8) {
                Ok(v) => v,
                Err(_) => {
                    return out;
                },
            };
            out.push(v as u8);
            j = j + 1;
        }
        out
    }

    /// Calls `read_bits` once for each width of `ns`, in order, and returns
    /// the values read. Fails with `UnexpectedEof` when the widths add up to
    /// more bits than remain.
    pub fn read_partition(&mut self, ns: &Vec<u32>) -> (r: Result<Vec<u32>, DecodeError>)
        requires
            old(self).wf(),
            forall|i: int| 0 <= i < ns@.len() ==> ns@[i] <= 32,
        ensures
            final(self).wf(),
            final(self).bytes() == old(self).bytes(),
            ({
                let reads = successive_reads(old(self).bits(), old(self).position() as int, widths(ns@));
                let end = old(self).position() + total_width(widths(ns@));
                &&& end <= old(self).bits().len() ==> {
                    &&& r is Ok
                    &&& final(self).position() == end
                    &&& r.unwrap()@.len() == ns@.len()
                    &&& forall|i: int| 0 <= i < ns@.len() ==> r.unwrap()@[i] as u64 == #[trigger] reads[i]
                }
                &&& end > old(self).bits().len() ==> r == Err::<Vec<u32>, DecodeError>(DecodeError::UnexpectedEof)
            }),
    {
        let ghost bits = self.bits();
        let ghost pos = self.pos as int;
        let ghost w = widths(ns@);
        let mut out: Vec<u32> = Vec::new();
        let mut i: usize = 0;
        assert(w.skip(0) =~= w);
        while i < ns.len()
            invariant
                self.wf(),
                self.bytes() == old(self).bytes(),
                bits == self.bits(),
                pos == old(self).position(),
                w == widths(ns@),
                forall|j: int| 0 <= j < ns@.len() ==> ns@[j] <= 32,
                i <= ns@.len(),
                out@.len() == i,
                pos + total_width(w) == self.position() + total_width(w.skip(i as int)),
                successive_reads(bits, pos, w)
                    =~= Seq::new(i as nat, |j: int| out@[j] as u64) + successive_reads(bits, self.position() as int, w.skip(i as int)),
            decreases ns@.len() - i,
        {
            let ghost cur = self.position() as int;
            assert(w.skip(i as int).drop_first() =~= w.skip(i + 1));
            assert(w.skip(i as int)[0] == ns@[i as int] as nat);
            let v = self.read_bits(ns[i])?;
            out.push(v);
            proof {
                assert(Seq::new((i + 1) as nat, |j: int| out@[j] as u64)
                    =~= Seq::new(i as nat, |j: int| out@[j] as u64).push(v as u64));
            }
            i = i + 1;
        }
        proof {
            assert(w.skip(i as int).len() == 0);
        }
        Ok(out)
    }

    /// Moves forward to bit `target`; a target already passed leaves the
    /// position as it is.
    pub fn advance_to(&mut self, target: u64) -> (r: Result<(), DecodeError>)
        requires
            old(self).wf(),
        ensures
            final(self).wf(),
            final(self).bytes() == old(self).bytes(),
            target <= old(self).position() ==> r is Ok && final(self).position() == old(self).position(),
            old(self).position() < target <= old(self).bits().len() ==> r is Ok && final(self).position() == target,
            target > old(self).bits().len() ==> {
                &&& final(self).position() == old(self).bits().len()
                &&& r == Err::<(), DecodeError>(DecodeError::UnexpectedEof)
            },
    {
        if target > (self.data.len() * 8) as u64 {
            self.pos = self.data.len() * 8;
            return Err(DecodeError::UnexpectedEof);
        }
        if target > self.pos as u64 {
            self.pos = target as usize;
        }
        Ok(())
    }

    /// Skips `n` whole bytes.
    pub fn skip_bytes(&mut self, n: u32) -> (r: Result<(), DecodeError>)
        requires
            old(self).wf(),
        ensures
            final(self).wf(),
            final(self).bytes() == old(self).bytes(),
            old(self).position() + 8 * n <= old(self).bits().len() ==> {
                &&& final(self).position() == old(self).position() + 8 * n
                &&& r is Ok
            },
            old(self).position() + 8 * n > old(self).bits().len() ==> {
                &&& final(self).position() == old(self).bits().len()
                &&& r == Err::<(), DecodeError>(DecodeError::UnexpectedEof)
            },
    {
        let avail = self.data.len() * 8 - self.pos;
        if (n as usize) > avail / 8 {
            self.pos = self.data.len() * 8;
            return Err(DecodeError::UnexpectedEof);
        }
        self.pos = self.pos + 8 * (n as usize);
        Ok(())
    }
}

} // verus!

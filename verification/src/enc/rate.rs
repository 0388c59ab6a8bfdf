//! The rate of a frame, and the assembly of its bits.

use vstd::prelude::*;
use vstd::arithmetic::power2::pow2;
use crate::bitstream::{
    field, law_unsorting_places_every_bit, octet_bit, payload_bit, unsorted, MAX_FRAME_BITS,
};
use crate::isf_quant::IsfQuantizer;
use crate::sort_tables::{frame_bits, is_permutation, order_of, sort_table};

verus! {

/// Speech bits of each rate; the last one is comfort noise.
pub const NB_OF_BITS: [usize; 10] = [132, 177, 253, 285, 317, 365, 397, 461, 477, 35];

/// Frame budget at and below which the two-pulse codebook is used.
pub const NBBITS_7K: usize = 132;

/// Frame budget from which the high band is analysed and transmitted.
pub const NBBITS_24K: usize = 477;

/// The rate a frame is encoded at.
///
/// A type of its own rather than a bare integer, because almost every decision
/// is on the *bit budget* and not on the index.
#[derive(Clone, Copy, Debug, PartialEq, Eq, PartialOrd, Ord, Structural)]
pub struct Rate {
    index: u8,
}

impl Rate {
    /// The index of the rate.
    pub closed spec fn spec_index(self) -> u8 {
        self.index
    }

    /// Every rate is a speech mode or comfort noise.
    pub open spec fn wf(self) -> bool {
        self.spec_index() <= 9
    }

    /// Bits per frame.
    pub open spec fn spec_bits(self) -> int {
        frame_bits(self.spec_index() as int)
    }

    /// The comfort-noise rate: a decision about a frame, not a rate that a
    /// caller can ask for.
    #[must_use]
    pub fn sid() -> (rate: Self)
        ensures
            rate.wf(),
            rate.spec_index() == 9,
    {
        Rate { index: 9 }
    }

    /// The rate for mode index 0..=8, or `None` for anything else.
    #[must_use]
    pub fn from_index(index: u8) -> (rate: Option<Self>)
        ensures
            rate is Some <==> index <= 8,
            rate is Some ==> rate->0.spec_index() == index && rate->0.wf(),
    {
        if index <= 8 {
            Some(Rate { index })
        } else {
            None
        }
    }

    /// Whether this is the comfort-noise rate.
    #[must_use]
    pub fn is_sid(self) -> (r: bool)
        ensures
            r == (self.spec_index() == 9),
    {
        self.index == 9
    }

    /// The mode index.
    #[must_use]
    pub fn index(self) -> (index: u8)
        ensures
            index == self.spec_index(),
    {
        self.index
    }

    /// Bits per frame.
    #[must_use]
    pub fn bits(self) -> (bits: usize)
        requires
            self.wf(),
        ensures
            bits == self.spec_bits(),
            35 <= bits <= 477,
    {
        NB_OF_BITS[self.index as usize]
    }

    /// Octets the payload occupies, without the table-of-contents octet.
    #[must_use]
    pub fn packed_bytes(self) -> (n: usize)
        requires
            self.wf(),
        ensures
            n == (self.spec_bits() + 7) / 8,
    {
        (self.bits() + 7) / 8
    }

    /// The table-of-contents octet in front of the payload: the mode in bits
    /// 6 to 3, and the quality bit set.
    #[must_use]
    pub fn toc_byte(self) -> (octet: u8)
        requires
            self.wf(),
        ensures
            octet == 8 * self.spec_index() + 4,
    {
        self.index * 8 + 4
    }

    /// Payload bit order: entry `i` names the codec bit that is payload bit
    /// `i`.
    #[must_use]
    pub fn sort_table(self) -> (order: Vec<u16>)
        ensures
            order@ == order_of(self.spec_index() as int),
            order@.len() == self.spec_bits(),
    {
        sort_table(self.index)
    }

    /// The spectrum quantiser of the rate.
    pub open spec fn spec_isf_quantiser(self) -> IsfQuantizer {
        if self.spec_bits() <= NBBITS_7K {
            IsfQuantizer::Bits36
        } else {
            IsfQuantizer::Bits46
        }
    }

    /// The spectrum quantiser this rate can afford. Comfort noise has its own
    /// codebooks.
    #[must_use]
    pub fn isf_quantiser(self) -> (q: IsfQuantizer)
        requires
            self.wf(),
            self.spec_index() != 9,
        ensures
            q == self.spec_isf_quantiser(),
    {
        if self.bits() <= NBBITS_7K {
            IsfQuantizer::Bits36
        } else {
            IsfQuantizer::Bits46
        }
    }

    /// Widths of the transmitted spectrum indices.
    pub open spec fn spec_isf_widths(self) -> Seq<usize> {
        if self.spec_bits() <= NBBITS_7K {
            seq![8, 8, 7, 7, 6]
        } else {
            seq![8, 8, 6, 7, 7, 5, 5]
        }
    }

    /// Widths of the transmitted spectrum indices, in order.
    #[must_use]
    pub fn isf_index_widths(self) -> (widths: Vec<usize>)
        requires
            self.wf(),
        ensures
            widths@ == self.spec_isf_widths(),
    {
        let widths: Vec<usize> = if self.bits() <= NBBITS_7K {
            vec![8, 8, 7, 7, 6]
        } else {
            vec![8, 8, 6, 7, 7, 5, 5]
        };
        assert(widths@ =~= self.spec_isf_widths());
        widths
    }

    /// Widths of the transmitted codebook indices.
    pub open spec fn spec_pulse_widths(self) -> Seq<usize> {
        let bits = self.spec_bits();
        if bits <= 132 {
            seq![12]
        } else if bits <= 177 {
            seq![5, 5, 5, 5]
        } else if bits <= 253 {
            seq![9, 9, 9, 9]
        } else if bits <= 285 {
            seq![13, 13, 9, 9]
        } else if bits <= 317 {
            seq![13, 13, 13, 13]
        } else if bits <= 365 {
            seq![2, 2, 2, 2, 14, 14, 14, 14]
        } else if bits <= 397 {
            seq![10, 10, 2, 2, 10, 10, 14, 14]
        } else {
            seq![11, 11, 11, 11, 11, 11, 11, 11]
        }
    }

    /// Widths of the transmitted codebook indices, in order.
    ///
    /// The splits do not follow from the pulse count: they depend on which
    /// tracks the extra pulses were forced onto.
    #[must_use]
    pub fn pulse_index_widths(self) -> (widths: Vec<usize>)
        requires
            self.wf(),
        ensures
            widths@ == self.spec_pulse_widths(),
    {
        let bits: usize = self.bits();
        let widths: Vec<usize> = if bits <= 132 {
            vec![12]
        } else if bits <= 177 {
            vec![5, 5, 5, 5]
        } else if bits <= 253 {
            vec![9, 9, 9, 9]
        } else if bits <= 285 {
            vec![13, 13, 9, 9]
        } else if bits <= 317 {
            vec![13, 13, 13, 13]
        } else if bits <= 365 {
            vec![2, 2, 2, 2, 14, 14, 14, 14]
        } else if bits <= 397 {
            vec![10, 10, 2, 2, 10, 10, 14, 14]
        } else {
            vec![11, 11, 11, 11, 11, 11, 11, 11]
        };
        assert(widths@ =~= self.spec_pulse_widths());
        widths
    }

    /// Whether the frame carries a high-band correction gain per subframe.
    #[must_use]
    pub fn has_high_band(self) -> (r: bool)
        requires
            self.wf(),
        ensures
            r == (self.spec_bits() >= NBBITS_24K),
    {
        self.bits() >= NBBITS_24K
    }
}

// ---------------------------------------------------------------------------
// Bit assembly
// ---------------------------------------------------------------------------

/// `width` bits of a value, most significant first.
pub open spec fn bits_of(value: int, width: int) -> Seq<u8>
    decreases width,
{
    if width <= 0 {
        Seq::empty()
    } else {
        bits_of(value / 2, width - 1).push((value % 2) as u8)
    }
}

/// The codec bit that payload bit `i` carries, or zero behind the last.
pub open spec fn sorted_bit(order: Seq<u16>, bits: Seq<u8>, i: int) -> int {
    if i < order.len() && order[i] < bits.len() {
        bits[order[i] as int] as int
    } else {
        0
    }
}

/// Octet `b` of a payload.
pub open spec fn packed_octet(order: Seq<u16>, bits: Seq<u8>, b: int) -> u8 {
    (128 * sorted_bit(order, bits, 8 * b) + 64 * sorted_bit(order, bits, 8 * b + 1) + 32
        * sorted_bit(order, bits, 8 * b + 2) + 16 * sorted_bit(order, bits, 8 * b + 3) + 8
        * sorted_bit(order, bits, 8 * b + 4) + 4 * sorted_bit(order, bits, 8 * b + 5) + 2
        * sorted_bit(order, bits, 8 * b + 6) + sorted_bit(order, bits, 8 * b + 7)) as u8
}

/// A payload: the codec bits in payload order, padded with zeros at the
/// bottom of the last octet.
pub open spec fn packed(order: Seq<u16>, bits: Seq<u8>) -> Seq<u8> {
    Seq::new(((order.len() + 7) / 8) as nat, |b: int| packed_octet(order, bits, b))
}

/// Whether every slot holds one bit.
pub open spec fn all_bits(bits: Seq<u8>) -> bool {
    forall|j: int| 0 <= j < bits.len() ==> #[trigger] bits[j] <= 1
}

/// Codec bits being written, one per slot.
pub struct Parameters {
    bits: [u8; MAX_FRAME_BITS],
    len: usize,
}

impl Parameters {
    /// The bits written so far.
    pub closed spec fn view(&self) -> Seq<u8> {
        self.bits@.take(self.len as int)
    }

    /// Nothing is written past the largest frame, and every slot holds a bit.
    pub closed spec fn wf(&self) -> bool {
        &&& self.len <= 477
        &&& forall|j: int| 0 <= j < 477 ==> #[trigger] self.bits@[j] <= 1
    }

    /// The invariant in terms of the view.
    pub proof fn lemma_wf(&self)
        requires
            self.wf(),
        ensures
            self@.len() <= 477,
            all_bits(self@),
    {
    }

    /// No bits.
    #[must_use]
    pub fn new() -> (p: Self)
        ensures
            p.wf(),
            p@ == Seq::<u8>::empty(),
    {
        let p = Parameters { bits: [0; MAX_FRAME_BITS], len: 0 };
        assert(p@ =~= Seq::<u8>::empty());
        p
    }

    /// How many bits have been written.
    #[must_use]
    pub fn len(&self) -> (n: usize)
        requires
            self.wf(),
        ensures
            n == self@.len(),
    {
        self.len
    }

    /// The bits written so far.
    #[must_use]
    pub fn bits(&self) -> (bits: &[u8])
        requires
            self.wf(),
        ensures
            bits@ == self@,
    {
        let all: &[u8] = &self.bits;
        let bits = vstd::slice::slice_subrange(all, 0, self.len);
        assert(bits@ =~= self.bits@.take(self.len as int));
        bits
    }

    /// Append `width` bits of `value`, most significant first.
    pub fn push(&mut self, value: u16, width: usize)
        requires
            old(self).wf(),
            width <= 16,
            old(self)@.len() + width <= 477,
        ensures
            final(self).wf(),
            final(self)@ == old(self)@ + bits_of(value as int, width as int),
    {
        let ghost start = self@;
        let at: usize = self.len;
        let mut rest: u16 = value;
        let mut k: usize = width;
        let ghost all = bits_of(value as int, width as int);
        proof {
            lemma_bits_length(value as int, width as int);
            assert(all.take(width as int) =~= all);
        }
        while k > 0
            invariant
                k <= width <= 16,
                at + width <= 477,
                self.len == at,
                self.wf(),
                all == bits_of(value as int, width as int),
                all.len() == width,
                all.take(k as int) == bits_of(rest as int, k as int),
                forall|j: int| 0 <= j < at ==> #[trigger] self.bits@[j] == start[j],
                start.len() == at,
                forall|j: int| k <= j < width ==> self.bits@[#[trigger] (at + j)] == all[j],
            decreases k,
        {
            proof {
                lemma_bits_length(rest as int / 2, k - 1);
                assert(all.take(k as int)[k - 1] == all[k - 1]);
                assert(all.take(k - 1) =~= all.take(k as int).take(k - 1));
                assert(bits_of(rest as int, k as int).take(k - 1) =~= bits_of(
                    rest as int / 2,
                    k - 1,
                ));
            }
            k -= 1;
            self.bits[at + k] = (rest % 2) as u8;
            rest = rest / 2;
        }
        self.len = at + width;
        assert forall|j: int| 0 <= j < at + width implies #[trigger] self@[j] == (start + all)[j] by {
            if j >= at {
                assert(self.bits@[at + (j - at)] == all[j - at]);
            }
        }
        assert(self@ =~= start + all);
    }

    /// Sort and pack into the payload of `rate`.
    ///
    /// The trailing bits of the final octet are zero.
    #[must_use]
    pub fn pack(&self, rate: Rate) -> (out: Vec<u8>)
        requires
            self.wf(),
            rate.wf(),
            self@.len() == rate.spec_bits(),
        ensures
            out@ == packed(order_of(rate.spec_index() as int), self@),
    {
        proof {
            self.lemma_wf();
        }
        let order = rate.sort_table();
        pack_bits(self.bits(), order.as_slice())
    }
}

/// One payload bit.
fn sorted(bits: &[u8], order: &[u16], i: usize) -> (bit: u8)
    requires
        all_bits(bits@),
    ensures
        bit == sorted_bit(order@, bits@, i as int),
        bit <= 1,
{
    if i < order.len() && (order[i] as usize) < bits.len() {
        bits[order[i] as usize]
    } else {
        0
    }
}

/// Sort codec bits and pack them into octets.
fn pack_bits(bits: &[u8], order: &[u16]) -> (out: Vec<u8>)
    requires
        all_bits(bits@),
        order.len() <= 477,
    ensures
        out@ == packed(order@, bits@),
{
    let mut out: Vec<u8> = Vec::new();
    let n: usize = (order.len() + 7) / 8;
    for b in 0..n
        invariant
            all_bits(bits@),
            order.len() <= 477,
            n == (order.len() + 7) / 8,
            out@.len() == b,
            forall|j: int| 0 <= j < b ==> #[trigger] out@[j] == packed_octet(order@, bits@, j),
    {
        let high: u8 = 128 * sorted(bits, order, 8 * b) + 64 * sorted(bits, order, 8 * b + 1) + 32
            * sorted(bits, order, 8 * b + 2) + 16 * sorted(bits, order, 8 * b + 3);
        let low: u8 = 8 * sorted(bits, order, 8 * b + 4) + 4 * sorted(bits, order, 8 * b + 5) + 2
            * sorted(bits, order, 8 * b + 6) + sorted(bits, order, 8 * b + 7);
        out.push(high + low);
    }
    assert(out@ =~= packed(order@, bits@));
    out
}

/// A run of bits has its width.
pub proof fn lemma_bits_length(value: int, width: int)
    requires
        width >= 0,
    ensures
        bits_of(value, width).len() == width,
        all_bits(bits_of(value, width)),
    decreases width,
{
    if width > 0 {
        lemma_bits_length(value / 2, width - 1);
    }
}

// ---------------------------------------------------------------------------
// Laws
// ---------------------------------------------------------------------------

/// Every payload bit carries the codec bit that the order names, and the bits
/// behind the last one are zero.
pub proof fn law_packing_places_every_bit(order: Seq<u16>, bits: Seq<u8>, i: int)
    requires
        all_bits(bits),
        0 <= i < 8 * packed(order, bits).len(),
    ensures
        payload_bit(packed(order, bits), i) == sorted_bit(order, bits, i),
{
    let b = i / 8;
    let k = i % 8;
    let s0 = sorted_bit(order, bits, 8 * b);
    let s1 = sorted_bit(order, bits, 8 * b + 1);
    let s2 = sorted_bit(order, bits, 8 * b + 2);
    let s3 = sorted_bit(order, bits, 8 * b + 3);
    let s4 = sorted_bit(order, bits, 8 * b + 4);
    let s5 = sorted_bit(order, bits, 8 * b + 5);
    let s6 = sorted_bit(order, bits, 8 * b + 6);
    let s7 = sorted_bit(order, bits, 8 * b + 7);
    assert(i == 8 * b + k);
    lemma_octet(s0, s1, s2, s3, s4, s5, s6, s7);
}

/// The bits of an octet built from eight of them.
proof fn lemma_octet(s0: int, s1: int, s2: int, s3: int, s4: int, s5: int, s6: int, s7: int)
    requires
        0 <= s0 <= 1,
        0 <= s1 <= 1,
        0 <= s2 <= 1,
        0 <= s3 <= 1,
        0 <= s4 <= 1,
        0 <= s5 <= 1,
        0 <= s6 <= 1,
        0 <= s7 <= 1,
    ensures
        ({
            let o = (128 * s0 + 64 * s1 + 32 * s2 + 16 * s3 + 8 * s4 + 4 * s5 + 2 * s6 + s7) as u8;
            &&& octet_bit(o, 0) == s0
            &&& octet_bit(o, 1) == s1
            &&& octet_bit(o, 2) == s2
            &&& octet_bit(o, 3) == s3
            &&& octet_bit(o, 4) == s4
            &&& octet_bit(o, 5) == s5
            &&& octet_bit(o, 6) == s6
            &&& octet_bit(o, 7) == s7
        }),
{
    let o = (128 * s0 + 64 * s1 + 32 * s2 + 16 * s3 + 8 * s4 + 4 * s5 + 2 * s6 + s7) as u8;
    assert(o / 128 == s0);
    assert(o / 64 == 2 * s0 + s1);
    assert(o / 32 == 4 * s0 + 2 * s1 + s2);
    assert(o / 16 == 8 * s0 + 4 * s1 + 2 * s2 + s3);
    assert(o / 8 == 16 * s0 + 8 * s1 + 4 * s2 + 2 * s3 + s4);
    assert(o / 4 == 32 * s0 + 16 * s1 + 8 * s2 + 4 * s3 + 2 * s4 + s5);
    assert(o / 2 == 64 * s0 + 32 * s1 + 16 * s2 + 8 * s3 + 4 * s4 + 2 * s5 + s6);
}

/// An order that sends every codec bit once reaches every codec bit.
proof fn lemma_order_reaches(order: Seq<u16>, j: int) -> (i: int)
    requires
        is_permutation(order),
        0 <= j < order.len(),
    ensures
        0 <= i < order.len(),
        order[i] == j,
{
    let ints = Seq::new(order.len(), |k: int| order[k] as int);
    let n = order.len() as int;
    assert(ints.no_duplicates()) by {
        assert forall|a: int, b: int| 0 <= a < ints.len() && 0 <= b < ints.len() && a != b implies ints[a]
            != ints[b] by {
            if a < b {
                assert(order[a] != order[b]);
            } else {
                assert(order[b] != order[a]);
            }
        }
    }
    ints.unique_seq_to_set();
    vstd::set_lib::lemma_int_range(0, n);
    let all = vstd::set_lib::set_int_range(0, n);
    assert(ints.to_set().subset_of(all)) by {
        assert forall|x: int| ints.to_set().contains(x) implies all.contains(x) by {
            let k = choose|k: int| 0 <= k < ints.len() && ints[k] == x;
            assert(order[k] < order.len());
        }
    }
    vstd::seq_lib::seq_to_set_is_finite(ints);
    vstd::set_lib::lemma_subset_equality(ints.to_set(), all);
    assert(all.contains(j));
    assert(ints.contains(j));
    choose|k: int| 0 <= k < ints.len() && ints[k] == j
}

/// What is packed is what is unpacked: with an order that sends every codec
/// bit once, the decoder's unsorting gives back every bit that was written.
pub proof fn law_unpacking_undoes_packing(order: Seq<u16>, bits: Seq<u8>)
    requires
        is_permutation(order),
        order.len() <= 477,
        bits.len() == order.len(),
        all_bits(bits),
    ensures
        unsorted(order, packed(order, bits), order.len() as int).take(order.len() as int) == bits,
{
    let n = order.len() as int;
    let payload = packed(order, bits);
    let back = unsorted(order, payload, n);
    assert(back.len() == 477) by {
        if n > 0 {
            law_unsorting_places_every_bit(order, payload, n, 0);
        }
    }
    assert forall|j: int| 0 <= j < n implies #[trigger] back.take(n)[j] == bits[j] by {
        let i = lemma_order_reaches(order, j);
        law_unsorting_places_every_bit(order, payload, n, i);
        law_packing_places_every_bit(order, bits, i);
    }
    assert(back.take(n) =~= bits);
}

/// A field reads only its own bits.
proof fn lemma_field_shift(a: Seq<u8>, b: Seq<u8>, at: int, to: int, width: int)
    requires
        0 <= width,
        forall|k: int| 0 <= k < width ==> a[#[trigger] (at + k)] == b[to + k],
    ensures
        field(a, at, width) == field(b, to, width),
    decreases width,
{
    if width > 0 {
        assert forall|k: int| 0 <= k < width - 1 implies a[#[trigger] (at + k)] == b[to + k] by {}
        lemma_field_shift(a, b, at, to, width - 1);
        assert(a[at + (width - 1)] == b[to + (width - 1)]);
    }
}

/// The bits of a value spell it.
proof fn lemma_bits_spell(value: int, width: int)
    requires
        0 <= value < pow2(width as nat),
        0 <= width,
    ensures
        field(bits_of(value, width), 0, width) == value,
    decreases width,
{
    vstd::arithmetic::power2::lemma2_to64();
    if width > 0 {
        vstd::arithmetic::power2::lemma_pow2_unfold(width as nat);
        lemma_bits_spell(value / 2, width - 1);
        lemma_bits_length(value / 2, width - 1);
        let here = bits_of(value, width);
        let shorter = bits_of(value / 2, width - 1);
        assert forall|k: int| 0 <= k < width - 1 implies here[#[trigger] (0 + k)] == shorter[0
            + k] by {}
        lemma_field_shift(here, shorter, 0, 0, width - 1);
    }
}

/// A field that was written is read back: behind any bits and in front of any
/// others, the reader finds the value.
pub proof fn law_written_fields_read_back(before: Seq<u8>, value: int, width: int, after: Seq<u8>)
    requires
        0 <= width <= 16,
        0 <= value < pow2(width as nat),
    ensures
        field(before + bits_of(value, width) + after, before.len() as int, width) == value,
{
    lemma_bits_length(value, width);
    lemma_bits_spell(value, width);
    let all = before + bits_of(value, width) + after;
    assert forall|k: int| 0 <= k < width implies all[#[trigger] (before.len() + k)] == bits_of(
        value,
        width,
    )[0 + k] by {}
    lemma_field_shift(all, bits_of(value, width), before.len() as int, 0, width);
}

} // verus!

//! Bitstream unpacking: a frame's payload bits to parameter fields.
//!
//! The payload carries codec bits ordered by subjective importance, not in the
//! order the decoder reads them. They are first put back into codec order and
//! then read as fixed-width fields, most significant bit first.

use vstd::prelude::*;
use crate::isf_noise::indices_fit;
use crate::mode::AmrMode;
use crate::sort_tables::{frame_bits, is_permutation, order_of, sort_table};

verus! {

/// The largest frame, in bits: 23.85 kbit/s.
pub const MAX_FRAME_BITS: usize = 477;

/// Bit `k` of an octet, most significant first.
pub open spec fn octet_bit(octet: u8, k: int) -> u8 {
    if k == 0 {
        octet / 128
    } else if k == 1 {
        octet / 64 % 2
    } else if k == 2 {
        octet / 32 % 2
    } else if k == 3 {
        octet / 16 % 2
    } else if k == 4 {
        octet / 8 % 2
    } else if k == 5 {
        octet / 4 % 2
    } else if k == 6 {
        octet / 2 % 2
    } else {
        octet % 2
    }
}

/// Bit `i` of a payload.
pub open spec fn payload_bit(payload: Seq<u8>, i: int) -> u8 {
    octet_bit(payload[i / 8], i % 8)
}

/// Codec bits after the first `n` payload bits have been put in place.
pub open spec fn unsorted(order: Seq<u16>, payload: Seq<u8>, n: int) -> Seq<u8>
    decreases n,
{
    if n <= 0 {
        Seq::new(477, |i: int| 0u8)
    } else {
        let before = unsorted(order, payload, n - 1);
        if order[n - 1] < 477 {
            before.update(order[n - 1] as int, payload_bit(payload, n - 1))
        } else {
            before
        }
    }
}

/// The number that `width` bits from `at` spell, most significant first.
pub open spec fn field(bits: Seq<u8>, at: int, width: int) -> int
    decreases width,
{
    if width <= 0 {
        0
    } else {
        2 * field(bits, at, width - 1) + bits[at + width - 1]
    }
}

/// Bit `k` of an octet, most significant first.
fn bit_of(octet: u8, k: usize) -> (bit: u8)
    requires
        k < 8,
    ensures
        bit == octet_bit(octet, k as int),
        bit <= 1,
{
    match k {
        0 => octet / 128,
        1 => octet / 64 % 2,
        2 => octet / 32 % 2,
        3 => octet / 16 % 2,
        4 => octet / 8 % 2,
        5 => octet / 4 % 2,
        6 => octet / 2 % 2,
        _ => octet % 2,
    }
}

/// Put payload bits into codec order.
fn unsort(order: &[u16], payload: &[u8]) -> (bits: [u8; MAX_FRAME_BITS])
    requires
        order.len() <= 477,
        order.len() <= 8 * payload.len(),
    ensures
        bits@ == unsorted(order@, payload@, order@.len() as int),
        forall|j: int| 0 <= j < 477 ==> #[trigger] bits@[j] <= 1,
{
    let mut bits: [u8; MAX_FRAME_BITS] = [0; MAX_FRAME_BITS];
    assert(bits@ =~= unsorted(order@, payload@, 0));
    for i in 0..order.len()
        invariant
            order.len() <= 477,
            order.len() <= 8 * payload.len(),
            bits@ == unsorted(order@, payload@, i as int),
            forall|j: int| 0 <= j < 477 ==> #[trigger] bits@[j] <= 1,
    {
        let bit: u8 = bit_of(payload[i / 8], i % 8);
        let target: usize = order[i] as usize;
        if target < MAX_FRAME_BITS {
            bits[target] = bit;
        }
    }
    bits
}

// ---------------------------------------------------------------------------
// Comfort-noise payloads
// ---------------------------------------------------------------------------

/// The last octet of a SID payload with its indicator and mode written.
pub open spec fn finished_octet(octet: u8, is_update: bool, mode: u8) -> u8 {
    (octet as int / 32 * 32 + if is_update {
        16int
    } else {
        0
    } + mode) as u8
}

/// Whether a SID payload is marked as an update.
pub open spec fn marked_update(payload: Seq<u8>) -> bool {
    payload[4] as int / 16 % 2 == 1
}

/// The speech mode that a SID payload names.
pub open spec fn named_mode(payload: Seq<u8>) -> Option<u8> {
    if payload[4] as int % 16 <= 8 {
        Some((payload[4] as int % 16) as u8)
    } else {
        None
    }
}

/// Write the set-transmission indicator and the speech mode behind the 35
/// codec bits of a SID payload.
///
/// The five octets hold 35 sorted codec bits and then, in the last octet, the
/// indicator and four bits of mode. The indicator distinguishes a `SID_UPDATE`
/// (set) from a `SID_FIRST` (clear); the mode is the *speech* mode the encoder
/// was asked for, so the receiver knows what to expect when speech resumes.
pub fn finish_sid_payload(payload: &mut [u8], is_update: bool, mode: u8)
    requires
        old(payload)@.len() == 5,
        mode <= 8,
    ensures
        final(payload)@ == old(payload)@.update(
            4,
            finished_octet(old(payload)@[4], is_update, mode),
        ),
{
    let kept: u8 = payload[4] / 32 * 32;
    let indicator: u8 = if is_update {
        16
    } else {
        0
    };
    payload[4] = kept + indicator + mode;
}

/// Clear the 35 codec bits of a `SID_FIRST`, leaving indicator and mode.
///
/// A receiver hearing a `SID_FIRST` is meant to keep synthesising from
/// whatever it already had, which is why there is nothing to carry.
pub fn blank_sid_first(payload: &mut [u8])
    requires
        old(payload)@.len() == 5,
    ensures
        final(payload)@ == seq![0u8, 0u8, 0u8, 0u8, (old(payload)@[4] % 32) as u8],
{
    let last: u8 = payload[4] % 32;
    payload[0] = 0;
    payload[1] = 0;
    payload[2] = 0;
    payload[3] = 0;
    payload[4] = last;
    assert(payload@ =~= seq![0u8, 0u8, 0u8, 0u8, last]);
}

/// The codec bits of a SID payload.
pub open spec fn sid_bits(payload: Seq<u8>) -> Seq<u8> {
    unsorted(order_of(9), payload, 35)
}

/// The five spectrum indices, the energy index and the dithering flag that a
/// SID payload carries.
///
/// Returns `None` for a payload that is not the five octets of a SID frame.
/// A `SID_FIRST`'s bits are all zero by construction: the caller decides
/// whether to believe them, using [`sid_is_update`].
#[must_use]
pub fn parse_sid(payload: &[u8]) -> (r: Option<([u16; 5], u16, bool)>)
    ensures
        r is Some <==> payload@.len() == 5,
        r is Some ==> ({
            let bits = sid_bits(payload@);
            let (indices, energy, dither) = r->0;
            &&& indices@[0] == field(bits, 0, 6)
            &&& indices@[1] == field(bits, 6, 6)
            &&& indices@[2] == field(bits, 12, 6)
            &&& indices@[3] == field(bits, 18, 5)
            &&& indices@[4] == field(bits, 23, 5)
            &&& energy == field(bits, 28, 6)
            &&& dither == (bits[34] == 1)
            &&& indices_fit(indices@)
            &&& energy < 64
        }),
{
    if payload.len() != 5 {
        return None;
    }
    let order = sort_table(9);
    let bits = unsort(order.as_slice(), payload);
    proof {
        vstd::arithmetic::power2::lemma2_to64();
        lemma_field_bound(bits@, 0, 6);
        lemma_field_bound(bits@, 6, 6);
        lemma_field_bound(bits@, 12, 6);
        lemma_field_bound(bits@, 18, 5);
        lemma_field_bound(bits@, 23, 5);
        lemma_field_bound(bits@, 28, 6);
    }
    let i0: u16 = read_field(&bits, 0, 6);
    let i1: u16 = read_field(&bits, 6, 6);
    let i2: u16 = read_field(&bits, 12, 6);
    let i3: u16 = read_field(&bits, 18, 5);
    let i4: u16 = read_field(&bits, 23, 5);
    let energy: u16 = read_field(&bits, 28, 6);
    Some(([i0, i1, i2, i3, i4], energy, bits[34] == 1))
}

/// A field holds less than `2^width`.
pub proof fn lemma_field_bound(bits: Seq<u8>, at: int, width: int)
    requires
        0 <= at,
        0 <= width <= 16,
        at + width <= bits.len(),
        forall|j: int| 0 <= j < bits.len() ==> #[trigger] bits[j] <= 1,
    ensures
        0 <= field(bits, at, width) < vstd::arithmetic::power2::pow2(width as nat),
    decreases width,
{
    vstd::arithmetic::power2::lemma2_to64();
    if width > 0 {
        lemma_field_bound(bits, at, width - 1);
        vstd::arithmetic::power2::lemma_pow2_adds(1, (width - 1) as nat);
    }
}

/// The number that `width` bits from `at` spell.
fn read_field(bits: &[u8; MAX_FRAME_BITS], at: usize, width: usize) -> (value: u16)
    requires
        at + width <= 477,
        width <= 16,
        forall|j: int| 0 <= j < 477 ==> #[trigger] bits@[j] <= 1,
    ensures
        value == field(bits@, at as int, width as int),
{
    let mut value: u16 = 0;
    for k in 0..width
        invariant
            at + width <= 477,
            width <= 16,
            forall|j: int| 0 <= j < 477 ==> #[trigger] bits@[j] <= 1,
            value == field(bits@, at as int, k as int),
    {
        proof {
            vstd::arithmetic::power2::lemma2_to64();
            lemma_field_bound(bits@, at as int, k + 1);
            if k + 1 < 16 {
                vstd::arithmetic::power2::lemma_pow2_strictly_increases((k + 1) as nat, 16);
            }
        }
        value = 2 * value + bits[at + k] as u16;
    }
    value
}

/// Whether a SID payload's set-transmission indicator marks it an update.
#[must_use]
pub fn sid_is_update(payload: &[u8]) -> (update: bool)
    requires
        payload@.len() == 5,
    ensures
        update == marked_update(payload@),
{
    payload[4] / 16 % 2 == 1
}

/// The speech mode a SID frame names, 0..=8, or `None` if its four bits name
/// no speech mode.
///
/// It says what the *sender* was coding at, and it is what selects the
/// high-band branch when the comfort noise is synthesised.
#[must_use]
pub fn sid_mode_indication(payload: &[u8]) -> (mode: Option<u8>)
    requires
        payload@.len() == 5,
    ensures
        mode == named_mode(payload@),
{
    let mode: u8 = payload[4] % 16;
    if mode <= 8 {
        Some(mode)
    } else {
        None
    }
}

// ---------------------------------------------------------------------------
// Speech payloads
// ---------------------------------------------------------------------------

/// A frame's codec bits, in the order the decoder reads them.
#[derive(Debug, Clone)]
pub struct CodecBits {
    bits: [u8; MAX_FRAME_BITS],
    len: usize,
    cursor: usize,
}

impl CodecBits {
    /// The codec bits.
    pub closed spec fn view(&self) -> Seq<u8> {
        self.bits@.take(self.len as int)
    }

    /// How many have been read.
    pub closed spec fn position(&self) -> int {
        self.cursor as int
    }

    /// Reading never passes the end, and every slot holds one bit.
    pub closed spec fn wf(&self) -> bool {
        &&& self.cursor <= self.len <= 477
        &&& forall|j: int| 0 <= j < 477 ==> #[trigger] self.bits@[j] <= 1
    }

    /// Put a frame's payload bits into codec order.
    ///
    /// `payload` holds the frame's speech bits left-aligned; trailing bits of
    /// the final octet are ignored. Returns `None` if `payload` is too short
    /// for the mode.
    #[must_use]
    pub fn unpack(mode: AmrMode, payload: &[u8]) -> (r: Option<CodecBits>)
        ensures
            r is Some <==> 8 * payload@.len() >= frame_bits(mode.spec_index() as int),
            r is Some ==> ({
                let n = frame_bits(mode.spec_index() as int);
                &&& r->0.wf()
                &&& r->0.position() == 0
                &&& r->0@ == unsorted(order_of(mode.spec_index() as int), payload@, n).take(n)
                &&& r->0@.len() == n
            }),
    {
        let order = sort_table(mode.index());
        let len: usize = order.len();
        if payload.len() < (len + 7) / 8 {
            return None;
        }
        let bits = unsort(order.as_slice(), payload);
        Some(CodecBits { bits, len, cursor: 0 })
    }

    /// Every codec bit is a bit, and reading is somewhere among them.
    pub proof fn lemma_bits(&self)
        requires
            self.wf(),
        ensures
            self@.len() <= 477,
            0 <= self.position() <= self@.len(),
            forall|j: int| 0 <= j < self@.len() ==> #[trigger] self@[j] <= 1,
    {
    }

    /// How many codec bits this frame holds.
    #[must_use]
    pub fn len(&self) -> (n: usize)
        requires
            self.wf(),
        ensures
            n == self@.len(),
    {
        self.len
    }

    /// Whether the frame is empty. Never true for a real mode.
    #[must_use]
    pub fn is_empty(&self) -> (empty: bool)
        requires
            self.wf(),
        ensures
            empty == (self@.len() == 0),
    {
        self.len == 0
    }

    /// How many bits remain unread.
    #[must_use]
    pub fn remaining(&self) -> (n: usize)
        requires
            self.wf(),
        ensures
            n == self@.len() - self.position(),
    {
        self.len - self.cursor
    }

    /// Read the next `width`-bit field, most-significant bit first.
    ///
    /// Returns `None` if fewer than `width` bits remain, so a layout that
    /// overruns its frame fails loudly rather than reading zeros.
    #[must_use]
    pub fn take(&mut self, width: usize) -> (r: Option<u16>)
        requires
            old(self).wf(),
            width <= 16,
        ensures
            final(self).wf(),
            final(self)@ == old(self)@,
            r is Some <==> old(self).position() + width <= old(self)@.len(),
            r is Some ==> r->0 == field(old(self)@, old(self).position(), width as int),
            r is Some ==> r->0 < vstd::arithmetic::power2::pow2(width as nat),
            final(self).position() == old(self).position() + if r is Some {
                width as int
            } else {
                0
            },
    {
        if self.len - self.cursor < width {
            return None;
        }
        let value: u16 = read_field(&self.bits, self.cursor, width);
        proof {
            lemma_field_prefix(self.bits@, self.len as int, self.cursor as int, width as int);
            lemma_field_bound(self.bits@, self.cursor as int, width as int);
        }
        self.cursor = self.cursor + width;
        Some(value)
    }

    /// The raw codec bits, one per slot.
    #[must_use]
    pub fn bits(&self) -> (bits: &[u8])
        requires
            self.wf(),
        ensures
            bits@ == self@,
    {
        let all: &[u8] = &self.bits;
        let bits = vstd::slice::slice_subrange(all, 0, self.len);
        assert(bits@ =~= self.bits@.take(self.len as int));
        bits
    }
}

/// A field inside a prefix is a field of the whole.
pub proof fn lemma_field_prefix(bits: Seq<u8>, len: int, at: int, width: int)
    requires
        0 <= at,
        0 <= width,
        at + width <= len <= bits.len(),
    ensures
        field(bits.take(len), at, width) == field(bits, at, width),
    decreases width,
{
    if width > 0 {
        lemma_field_prefix(bits, len, at, width - 1);
    }
}

/// Field widths for the ISF quantiser indices of a mode, in read order.
pub open spec fn isf_widths(index: int) -> Seq<usize> {
    if index == 0 {
        seq![8, 8, 7, 7, 6]
    } else {
        seq![8, 8, 6, 7, 7, 5, 5]
    }
}

/// Field widths for the ISF quantiser indices, in read order.
///
/// The 6.60 kbit/s mode spends 36 bits on the spectrum and every other mode
/// spends 46.
#[must_use]
pub fn isf_index_widths(mode: AmrMode) -> (widths: Vec<usize>)
    ensures
        widths@ == isf_widths(mode.spec_index() as int),
{
    let widths: Vec<usize> = if mode.index() == 0 {
        vec![8, 8, 7, 7, 6]
    } else {
        vec![8, 8, 6, 7, 7, 5, 5]
    };
    assert(widths@ =~= isf_widths(mode.spec_index() as int));
    widths
}

// ---------------------------------------------------------------------------
// Laws
// ---------------------------------------------------------------------------

/// With an order that sends every codec bit once, payload bit `i` ends up at
/// exactly the codec bit that the order names.
pub proof fn law_unsorting_places_every_bit(order: Seq<u16>, payload: Seq<u8>, n: int, i: int)
    requires
        is_permutation(order),
        order.len() <= 477,
        0 <= i < n <= order.len(),
    ensures
        unsorted(order, payload, n).len() == 477,
        unsorted(order, payload, n)[order[i] as int] == payload_bit(payload, i),
    decreases n,
{
    lemma_unsorted_len(order, payload, n - 1);
    if i < n - 1 {
        law_unsorting_places_every_bit(order, payload, n - 1, i);
        assert(order[i] != order[n - 1]);
    }
}

pub proof fn lemma_unsorted_len(order: Seq<u16>, payload: Seq<u8>, n: int)
    ensures
        unsorted(order, payload, n).len() == 477,
    decreases n,
{
    if n > 0 {
        lemma_unsorted_len(order, payload, n - 1);
    }
}

/// What is written behind a SID payload is what is read back, and the codec
/// bits in front of it are untouched.
pub proof fn law_finished_sid_reads_back(payload: Seq<u8>, is_update: bool, mode: u8)
    requires
        payload.len() == 5,
        mode <= 8,
    ensures
        ({
            let after = payload.update(4, finished_octet(payload[4], is_update, mode));
            &&& marked_update(after) == is_update
            &&& named_mode(after) == Some(mode)
            &&& forall|i: int|
                0 <= i < 35 ==> #[trigger] payload_bit(after, i) == payload_bit(payload, i)
        }),
{
    let after = payload.update(4, finished_octet(payload[4], is_update, mode));
    let o = payload[4];
    let q = after[4];
    assert(q as int == o as int / 32 * 32 + if is_update {
        16int
    } else {
        0
    } + mode);
    assert(q / 32 == o / 32);
    assert(q / 64 == o / 64 && q / 128 == o / 128);
    assert forall|i: int| 0 <= i < 35 implies #[trigger] payload_bit(after, i) == payload_bit(
        payload,
        i,
    ) by {
        if i / 8 == 4 {
            assert(i % 8 < 3);
        }
    }
}

/// Blanking a SID payload clears its codec bits and keeps its indicator and
/// its mode.
pub proof fn law_blanked_sid_keeps_its_marks(payload: Seq<u8>)
    requires
        payload.len() == 5,
    ensures
        ({
            let after = seq![0u8, 0u8, 0u8, 0u8, (payload[4] % 32) as u8];
            &&& marked_update(after) == marked_update(payload)
            &&& named_mode(after) == named_mode(payload)
            &&& forall|i: int| 0 <= i < 35 ==> #[trigger] payload_bit(after, i) == 0
        }),
{
    let after = seq![0u8, 0u8, 0u8, 0u8, (payload[4] % 32) as u8];
    let q = after[4];
    assert(q < 32);
    assert(q as int / 16 % 2 == payload[4] as int / 16 % 2);
    assert(q as int % 16 == payload[4] as int % 16);
    assert forall|i: int| 0 <= i < 35 implies #[trigger] payload_bit(after, i) == 0 by {
        if i / 8 == 4 {
            assert(i % 8 < 3);
        }
    }
}

} // verus!

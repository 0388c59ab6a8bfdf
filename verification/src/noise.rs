//! The codec's pseudo-random sequence.

use vstd::prelude::*;
use vstd::arithmetic::power2::{lemma_pow2_pos, pow2};
use crate::fixed_point::{
    add_s, extract_h, extract_l, l_add, l_mult, l_shl, l_shr, lemma_l_shr, lemma_norm_l, mult,
    norm_l, shl, shr, sub_s, DspContext, Word16, Word32,
};
use crate::math::{dot_product12, isqrt_n, spec_dot_product12};

verus! {

/// The sample that follows `seed`.
#[verifier::opaque]
pub open spec fn next_seed(seed: Word16) -> Word16 {
    extract_l(l_add(l_shr(l_mult(seed, Word16(31821)), 1), Word32(13849)))
}

/// The generator's state after `n` draws.
pub open spec fn drawn(seed: Word16, n: int) -> Word16
    decreases n,
{
    if n <= 0 {
        seed
    } else {
        next_seed(drawn(seed, n - 1))
    }
}

/// A linear congruential generator of 16-bit noise.
#[derive(Clone, Copy, Debug, PartialEq, Eq, Structural)]
pub struct NoiseGenerator {
    /// The last sample drawn.
    pub seed: Word16,
}

impl NoiseGenerator {
    /// The reset seed.
    #[must_use]
    pub fn new() -> (g: Self)
        ensures
            g == (NoiseGenerator { seed: Word16(21845) }),
    {
        NoiseGenerator { seed: Word16(21845) }
    }

    /// Draw the next sample.
    pub fn next(&mut self, _ctx: &mut DspContext) -> (r: Word16)
        ensures
            r == next_seed(old(self).seed),
            final(self).seed == r,
    {
        proof {
            reveal(next_seed);
        }
        self.seed = extract_l(l_add(l_shr(l_mult(self.seed, Word16(31821)), 1), Word32(13849)));
        self.seed
    }
}

/// 256 samples of noise at a sixteenth of full scale.
pub open spec fn raw_noise(seed: Word16) -> Seq<Word16> {
    Seq::new(256, |i: int| shr(drawn(seed, i + 1), 4))
}

/// A frame of noise brought to a level.
#[verifier::opaque]
pub open spec fn levelled(seed: Word16, level: Word32) -> Seq<Word16> {
    let noise = raw_noise(seed);
    let shift = norm_l(level);
    let (root, root_exp) = isqrt_n(spec_dot_product12(noise, noise));
    let gain = mult(extract_h(l_shl(level, shift)), extract_h(root));
    let total = add_s(add_s(sub_s(Word16(15), Word16(shift)), Word16(root_exp)), Word16(4));
    Seq::new(256, |i: int| shl(mult(noise[i], gain), total.0))
}

/// Draw a frame of noise and bring it to a level.
pub fn levelled_noise(ctx: &mut DspContext, generator: &mut NoiseGenerator, level: Word32) -> (frame: [Word16;
    256])
    ensures
        frame@ == levelled(old(generator).seed, level),
        final(generator).seed == drawn(old(generator).seed, 256),
{
    proof {
        reveal(levelled);
    }
    let ghost seed = generator.seed;
    let mut noise: [Word16; 256] = [Word16(0); 256];
    for i in 0..256usize
        invariant
            generator.seed == drawn(seed, i as int),
            forall|j: int| 0 <= j < i ==> #[trigger] noise@[j] == shr(drawn(seed, j + 1), 4),
    {
        let sample = generator.next(ctx);
        noise[i] = shr(sample, 4);
    }
    assert(noise@ =~= raw_noise(seed));
    let shift: i16 = norm_l(level);
    let (root, root_exp) = isqrt_n(dot_product12(&noise, &noise));
    let gain = mult(extract_h(l_shl(level, shift)), extract_h(root));
    // The final 4 scales by the root of the frame's length.
    let total = add_s(add_s(sub_s(Word16(15), Word16(shift)), Word16(root_exp)), Word16(4));
    let mut frame: [Word16; 256] = [Word16(0); 256];
    for i in 0..256usize
        invariant
            forall|j: int|
                0 <= j < i ==> #[trigger] frame@[j] == shl(mult(noise@[j], gain), total.0),
    {
        frame[i] = shl(mult(noise[i], gain), total.0);
    }
    assert(frame@ =~= levelled(seed, level));
    frame
}

/// Draws add up.
pub proof fn lemma_drawn_adds(seed: Word16, m: int, n: int)
    requires
        m >= 0,
        n >= 0,
    ensures
        drawn(drawn(seed, m), n) == drawn(seed, m + n),
    decreases n,
{
    if n > 0 {
        lemma_drawn_adds(seed, m, n - 1);
    }
}

/// The generator multiplies by 31821 and adds 13849, and keeps the low sixteen
/// bits.
pub proof fn law_draws_are_congruent(seed: Word16)
    ensures
        (next_seed(seed).0 - (31821 * seed.0 + 13849)) % 65536 == 0,
{
    reveal(next_seed);
    reveal(crate::fixed_point::spec_extract_l);
    reveal(crate::fixed_point::spec_l_add);
    reveal(crate::fixed_point::spec_l_mult);
    vstd::arithmetic::power2::lemma2_to64();
    let product = l_mult(seed, Word16(31821));
    assert(product.0 == 63642 * seed.0);
    lemma_l_shr(product, 1, 2);
    assert(l_shr(product, 1).0 == 31821 * seed.0);
    let v = l_add(l_shr(product, 1), Word32(13849)).0 as int;
    assert(v == 31821 * seed.0 + 13849);
    let low = v % 65536;
    assert((low - v) % 65536 == 0 && (low - 65536 - v) % 65536 == 0);
}

/// Noise brought to the level of silence is silent.
pub proof fn law_silent_level_gives_silence(seed: Word16, i: int)
    requires
        0 <= i < 256,
    ensures
        levelled(seed, Word32(0))[i] == Word16(0),
{
    reveal(levelled);
    reveal(crate::fixed_point::spec_l_shl);
    reveal(crate::fixed_point::spec_extract_h);
    reveal(crate::fixed_point::spec_mult);
    reveal(crate::fixed_point::spec_shl);
    let noise = raw_noise(seed);
    let shift = norm_l(Word32(0));
    let (root, root_exp) = isqrt_n(spec_dot_product12(noise, noise));
    let total = add_s(add_s(sub_s(Word16(15), Word16(shift)), Word16(root_exp)), Word16(4));
    lemma_norm_l(Word32(0));
    assert(0 * pow2(shift as nat) == 0);
    assert(l_shl(Word32(0), shift) == Word32(0));
    assert(0 * extract_h(root).0 == 0);
    assert(mult(Word16(0), extract_h(root)) == Word16(0));
    assert(noise[i].0 * 0 == 0);
    assert(mult(noise[i], Word16(0)) == Word16(0));
    if total.0 >= 0 {
        assert(0 * pow2(total.0 as nat) == 0);
    } else {
        lemma_pow2_pos((-total.0) as nat);
        let p = pow2((-total.0) as nat) as int;
        assert(0int / p == 0) by (nonlinear_arith)
            requires
                p > 0,
        ;
    }
}

} // verus!

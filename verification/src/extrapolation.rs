//! Continuing a spectrum from 6.4 to 8 kHz, for the shaping of the high band at
//! the lowest rate.

use vstd::prelude::*;
use crate::fixed_point::{
    add_s, div_s, l_add, l_extract, l_mac, l_mult, lemma_l_mac, lemma_round, mpy_32, mult, norm_s,
    round, shl, sub_s, Word16, Word32,
};
use crate::highband::M16K_ORDER;
use crate::isf_noise::LP_ORDER;
use crate::lp::{cosine, cosine_of, isp_of, INTERPOL_FRAC};

verus! {

/// The spectrum of subframe `k`, between the last frame's and this one's. The
/// two weights add up to one short of full scale.
pub open spec fn between(last: Seq<Word16>, now: Seq<Word16>, k: int) -> Seq<Word16> {
    let frac = Word16(INTERPOL_FRAC@[k]);
    let complement = sub_s(Word16(32767), frac);
    Seq::new(16, |i: int| round(l_mac(l_mult(last[i], complement), now[i], frac)))
}

/// Steps between neighbours of the first fifteen frequencies.
pub open spec fn steps_of(isf: Seq<Word16>) -> Seq<Word16> {
    Seq::new(14, |i: int| sub_s(isf[i + 1], isf[i]))
}

/// The sum behind the mean of the steps from the third on.
pub open spec fn step_sum(steps: Seq<Word16>, n: int) -> Word32
    decreases n,
{
    if n <= 0 {
        Word32(0)
    } else {
        l_mac(step_sum(steps, n - 1), steps[n + 1], Word16(2731))
    }
}

/// The largest of the first `n` steps, none less than zero.
pub open spec fn largest_step(steps: Seq<Word16>, n: int) -> Word16
    decreases n,
{
    if n <= 0 {
        Word16(0)
    } else if sub_s(steps[n - 1], largest_step(steps, n - 1)).0 > 0 {
        steps[n - 1]
    } else {
        largest_step(steps, n - 1)
    }
}

/// The squared product of two steps' distances from the mean.
#[verifier::opaque]
pub open spec fn step_product(a: Word16, b: Word16, mean: Word16) -> Word32 {
    let (hi, lo) = l_extract(l_mult(sub_s(a, mean), sub_s(b, mean)));
    mpy_32(hi, lo, hi, lo)
}

/// How alike the steps are to those `lag` earlier: `n` of seven terms.
pub open spec fn likeness(steps: Seq<Word16>, mean: Word16, lag: int, n: int) -> Word32
    decreases n,
{
    if n <= 0 {
        Word32(0)
    } else {
        l_add(
            likeness(steps, mean, lag, n - 1),
            step_product(steps[6 + n], steps[6 + n - lag], mean),
        )
    }
}

/// The distance at which the steps repeat best: two, three or four, less one.
#[verifier::opaque]
pub open spec fn repeat_of(isf: Seq<Word16>) -> int {
    let steps = steps_of(isf);
    let exp = norm_s(largest_step(steps, 14));
    let tall = Seq::new(14, |i: int| shl(steps[i], exp));
    let mean = shl(round(step_sum(steps, 12)), exp);
    let two = likeness(tall, mean, 2, 7);
    let three = likeness(tall, mean, 3, 7);
    let four = likeness(tall, mean, 4, 7);
    let best = if two.0 > three.0 {
        two
    } else {
        three
    };
    if four.0 > best.0 {
        3
    } else if two.0 > three.0 {
        1
    } else {
        2
    }
}

/// The spectrum continued by `n` frequencies that repeat its steps.
pub open spec fn continued(isf: Seq<Word16>, repeat: int, n: int) -> Seq<Word16>
    decreases n,
{
    if n <= 0 {
        isf.take(15)
    } else {
        let s = continued(isf, repeat, n - 1);
        let i = 14 + n;
        s.push(add_s(s[i - 1], sub_s(s[i - 1 - repeat], s[i - 2 - repeat])))
    }
}

/// How far the continuation may reach: 7.6 kHz at most.
pub open spec fn reach_of(isf: Seq<Word16>) -> Word16 {
    let t = add_s(mult(sub_s(isf[2], add_s(isf[4], isf[3])), Word16(5461)), Word16(20390));
    sub_s(
        if t.0 > 19456 {
            Word16(19456)
        } else {
            t
        },
        isf[14],
    )
}

/// The stretch of the continuation: a quotient and its shift. One that leaves
/// nothing to stretch to is taken as zero.
#[verifier::opaque]
pub open spec fn stretch_of(reach: Word16, span: Word16) -> (Word16, i16) {
    let exp = sub_s(Word16(norm_s(reach)), Word16(1));
    let up = shl(reach, exp.0);
    let across = shl(span, norm_s(span));
    (
        if 0 <= up.0 <= across.0 && across.0 > 0 {
            div_s(up, across)
        } else {
            Word16(0)
        },
        sub_s(Word16(norm_s(span)), exp).0,
    )
}

/// The stretched steps of the continuation.
pub open spec fn stretched_steps(s: Seq<Word16>, stretch: (Word16, i16)) -> Seq<Word16> {
    Seq::new(4, |i: int| shl(mult(sub_s(s[15 + i], s[14 + i]), stretch.0), stretch.1))
}

/// The steps with any two neighbours at least 500 Hz wide together, the
/// smaller of the two giving way; the first `n` pairs.
pub open spec fn parted(steps: Seq<Word16>, n: int) -> Seq<Word16>
    decreases n,
{
    if n <= 0 {
        steps
    } else {
        let s = parted(steps, n - 1);
        if sub_s(add_s(s[n], s[n - 1]), Word16(1280)).0 < 0 {
            if sub_s(s[n], s[n - 1]).0 > 0 {
                s.update(n - 1, sub_s(Word16(1280), s[n]))
            } else {
                s.update(n, sub_s(Word16(1280), s[n - 1]))
            }
        } else {
            s
        }
    }
}

/// The spectrum with the first `n` new steps laid onto it.
pub open spec fn laid_on(isf: Seq<Word16>, steps: Seq<Word16>, n: int) -> Seq<Word16>
    decreases n,
{
    if n <= 0 {
        isf.take(15)
    } else {
        let s = laid_on(isf, steps, n - 1);
        s.push(add_s(s[14 + n - 1], steps[n - 1]))
    }
}

/// Twenty frequencies of the wide spectrum.
#[verifier::opaque]
pub open spec fn wide_isf(isf: Seq<Word16>) -> Seq<Word16> {
    let s = continued(isf, repeat_of(isf), 4);
    let stretch = stretch_of(reach_of(isf), sub_s(s[18], isf[14]));
    let wide = laid_on(isf, parted(stretched_steps(s, stretch), 3), 4);
    Seq::new(
        20,
        |i: int|
            if i < 19 {
                mult(wide[i], Word16(26214))
            } else {
                isf[15]
            },
    )
}

/// Which earlier step the continuation repeats.
fn find_repeat(isf: &[Word16; LP_ORDER]) -> (repeat: usize)
    ensures
        repeat == repeat_of(isf@),
        1 <= repeat <= 3,
{
    proof {
        reveal(repeat_of);
    }
    let ghost plain = steps_of(isf@);
    let mut steps: [Word16; 14] = [Word16(0); 14];
    for i in 0..14usize
        invariant
            forall|j: int| 0 <= j < i ==> #[trigger] steps@[j] == sub_s(isf@[j + 1], isf@[j]),
    {
        steps[i] = sub_s(isf[i + 1], isf[i]);
    }
    assert(steps@ =~= plain);
    let mut sum = Word32(0);
    for n in 0..12usize
        invariant
            sum == step_sum(steps@, n as int),
    {
        sum = l_mac(sum, steps[n + 2], Word16(2731));
    }
    let mut top = Word16(0);
    for n in 0..14usize
        invariant
            top == largest_step(steps@, n as int),
    {
        if sub_s(steps[n], top).0 > 0 {
            top = steps[n];
        }
    }
    let exp: i16 = norm_s(top);
    for i in 0..14usize
        invariant
            plain.len() == 14,
            forall|j: int| 0 <= j < i ==> #[trigger] steps@[j] == shl(plain[j], exp),
            forall|j: int| i <= j < 14 ==> #[trigger] steps@[j] == plain[j],
    {
        steps[i] = shl(steps[i], exp);
    }
    assert(steps@ =~= Seq::new(14, |i: int| shl(plain[i], exp)));
    let mean = shl(round(sum), exp);
    let two = measure_likeness(&steps, mean, 2);
    let three = measure_likeness(&steps, mean, 3);
    let four = measure_likeness(&steps, mean, 4);
    let best = if two.0 > three.0 {
        two
    } else {
        three
    };
    if four.0 > best.0 {
        3
    } else if two.0 > three.0 {
        1
    } else {
        2
    }
}

/// How alike the steps are to those `lag` earlier.
fn measure_likeness(steps: &[Word16; 14], mean: Word16, lag: usize) -> (sum: Word32)
    requires
        lag <= 7,
    ensures
        sum == likeness(steps@, mean, lag as int, 7),
{
    let mut sum = Word32(0);
    for n in 0..7usize
        invariant
            lag <= 7,
            sum == likeness(steps@, mean, lag as int, n as int),
    {
        proof {
            reveal(step_product);
        }
        let (hi, lo) = l_extract(
            l_mult(sub_s(steps[7 + n], mean), sub_s(steps[7 + n - lag], mean)),
        );
        sum = l_add(sum, mpy_32(hi, lo, hi, lo));
    }
    sum
}

/// The stretch of the continuation.
fn find_stretch(reach: Word16, span: Word16) -> (r: (Word16, i16))
    ensures
        r == stretch_of(reach, span),
{
    proof {
        reveal(stretch_of);
    }
    let exp = sub_s(Word16(norm_s(reach)), Word16(1));
    let up = shl(reach, exp.0);
    let across = shl(span, norm_s(span));
    let quotient = if 0 <= up.0 && up.0 <= across.0 && across.0 > 0 {
        div_s(up, across)
    } else {
        Word16(0)
    };
    (quotient, sub_s(Word16(norm_s(span)), exp).0)
}

/// Part neighbouring steps that are together under 500 Hz.
fn part(steps: &mut [Word16; 4])
    ensures
        final(steps)@ == parted(old(steps)@, 3),
{
    for n in 1..4usize
        invariant
            steps@ == parted(old(steps)@, n - 1),
    {
        if sub_s(add_s(steps[n], steps[n - 1]), Word16(1280)).0 < 0 {
            if sub_s(steps[n], steps[n - 1]).0 > 0 {
                steps[n - 1] = sub_s(Word16(1280), steps[n]);
            } else {
                steps[n] = sub_s(Word16(1280), steps[n - 1]);
            }
        }
    }
}

/// Continue a spectrum to twenty frequencies, and return their immittance
/// pairs.
pub fn extrapolate_isf(isf: &[Word16; LP_ORDER]) -> (isp: [Word16; M16K_ORDER])
    ensures
        isp@ == isp_of(wide_isf(isf@)),
{
    proof {
        reveal(wide_isf);
        reveal(isp_of);
    }
    let repeat: usize = find_repeat(isf);
    let mut wide: [Word16; M16K_ORDER] = [Word16(0); M16K_ORDER];
    for i in 0..15usize
        invariant
            forall|j: int| 0 <= j < i ==> #[trigger] wide@[j] == isf@[j],
    {
        wide[i] = isf[i];
    }
    assert(wide@.take(15) =~= isf@.take(15));
    for n in 0..4usize
        invariant
            1 <= repeat <= 3,
            wide@.take(15 + n) == continued(isf@, repeat as int, n as int),
    {
        proof {
            lemma_continued(isf@, repeat as int, n as int);
        }
        let ghost before = wide@;
        let i: usize = 15 + n;
        let ghost s = continued(isf@, repeat as int, n as int);
        assert(s[i - 1] == wide@[i - 1]);
        assert(s[i - 1 - repeat] == wide@[i - 1 - repeat]);
        assert(s[i - 2 - repeat] == wide@[i - 2 - repeat]);
        let step = sub_s(wide[i - 1 - repeat], wide[i - 2 - repeat]);
        wide[i] = add_s(wide[i - 1], step);
        assert(wide@.take(16 + n) =~= before.take(15 + n).push(wide@[i as int]));
    }
    let ghost s = continued(isf@, repeat as int, 4);
    assert(wide@.take(19) == s);
    assert(forall|j: int| 0 <= j < 19 ==> #[trigger] wide@[j] == wide@.take(19)[j]);
    let t = add_s(
        mult(sub_s(isf[2], add_s(isf[4], isf[3])), Word16(5461)),
        Word16(20390),
    );
    let capped = if t.0 > 19456 {
        Word16(19456)
    } else {
        t
    };
    let reach = sub_s(capped, isf[14]);
    let stretch = find_stretch(reach, sub_s(wide[18], isf[14]));
    let mut steps: [Word16; 4] = [Word16(0); 4];
    for i in 0..4usize
        invariant
            forall|j: int| 0 <= j < 19 ==> #[trigger] wide@[j] == s[j],
            forall|j: int|
                0 <= j < i ==> #[trigger] steps@[j] == stretched_steps(s, stretch)[j],
    {
        steps[i] = shl(mult(sub_s(wide[15 + i], wide[14 + i]), stretch.0), stretch.1);
    }
    assert(steps@ =~= stretched_steps(s, stretch));
    part(&mut steps);
    assert(forall|j: int| 0 <= j < 15 ==> #[trigger] wide@[j] == isf@[j]) by {
        lemma_continued(isf@, repeat as int, 4);
    }
    assert(wide@.take(15) =~= isf@.take(15));
    for n in 0..4usize
        invariant
            wide@.take(15 + n) == laid_on(isf@, steps@, n as int),
    {
        let ghost before = wide@;
        assert(laid_on(isf@, steps@, n as int)[14 + n] == wide@.take(15 + n)[14 + n]);
        wide[15 + n] = add_s(wide[14 + n], steps[n]);
        assert(wide@.take(16 + n) =~= before.take(15 + n).push(wide@[15 + n]));
    }
    let ghost laid = wide@.take(19);
    assert(forall|j: int| 0 <= j < 19 ==> #[trigger] wide@[j] == laid[j]);
    let mut isp: [Word16; M16K_ORDER] = [Word16(0); M16K_ORDER];
    for i in 0..19usize
        invariant
            laid.len() == 19,
            forall|j: int| 0 <= j < 19 ==> #[trigger] wide@[j] == laid[j],
            forall|j: int|
                0 <= j < i ==> #[trigger] isp@[j] == cosine_of(mult(laid[j], Word16(26214))),
    {
        isp[i] = cosine(mult(wide[i], Word16(26214)));
    }
    isp[19] = cosine(shl(isf[15], 1));
    assert(isp@ =~= isp_of(wide_isf(isf@)));
    isp
}

/// The continuation keeps what it continues.
proof fn lemma_continued(isf: Seq<Word16>, repeat: int, n: int)
    requires
        isf.len() == 16,
        0 <= n,
    ensures
        continued(isf, repeat, n).len() == 15 + n,
        forall|j: int| 0 <= j < 15 ==> #[trigger] continued(isf, repeat, n)[j] == isf[j],
    decreases n,
{
    if n > 0 {
        lemma_continued(isf, repeat, n - 1);
    }
}

/// The spectrum of a subframe between two frames.
pub fn interpolate_isf(last: &[Word16; LP_ORDER], now: &[Word16; LP_ORDER], k: usize) -> (isf:
    [Word16; LP_ORDER])
    requires
        k < 4,
    ensures
        isf@ == between(last@, now@, k as int),
{
    let frac = Word16(INTERPOL_FRAC[k]);
    let complement = sub_s(Word16(32767), frac);
    let mut isf: [Word16; LP_ORDER] = [Word16(0); LP_ORDER];
    for i in 0..LP_ORDER
        invariant
            forall|j: int|
                0 <= j < i ==> #[trigger] isf@[j] == round(
                    l_mac(l_mult(last@[j], complement), now@[j], frac),
                ),
    {
        isf[i] = round(l_mac(l_mult(last[i], complement), now[i], frac));
    }
    assert(isf@ =~= between(last@, now@, k as int));
    isf
}

proof fn lemma_laid_on(isf: Seq<Word16>, steps: Seq<Word16>, n: int)
    requires
        isf.len() == 16,
        0 <= n <= 4,
    ensures
        laid_on(isf, steps, n).len() == 15 + n,
        forall|i: int| 0 <= i < 15 ==> #[trigger] laid_on(isf, steps, n)[i] == isf[i],
    decreases n,
{
    if n > 0 {
        lemma_laid_on(isf, steps, n - 1);
    }
}

/// The wide spectrum begins with the narrow one on the wider scale, four
/// fifths of each frequency, and ends with its last gain.
pub proof fn law_wide_spectrum_begins_with_the_narrow(isf: Seq<Word16>, i: int)
    requires
        isf.len() == 16,
        0 <= i < 15,
        isf[i].0 >= 0,
    ensures
        wide_isf(isf).len() == 20,
        5 * wide_isf(isf)[i].0 <= 4 * isf[i].0 < 5 * wide_isf(isf)[i].0 + 7,
        wide_isf(isf)[19] == isf[15],
{
    reveal(wide_isf);
    reveal(crate::fixed_point::spec_mult);
    let s = continued(isf, repeat_of(isf), 4);
    let stretch = stretch_of(reach_of(isf), sub_s(s[18], isf[14]));
    lemma_laid_on(isf, parted(stretched_steps(s, stretch), 3), 4);
    assert(Word16(26214).0 == 26214);
}

/// The spectrum of each subframe lies on the way from the last frame's to this
/// one's, further along in every subframe.
pub proof fn law_spectra_move_to_the_new(last: Seq<Word16>, now: Seq<Word16>, k: int, i: int)
    requires
        0 <= k < 4,
        0 <= i < 16,
    ensures
        ({
            let share = INTERPOL_FRAC@[k];
            let way = last[i].0 * (32767 - share) + now[i].0 * share;
            &&& -16384 <= 32768 * between(last, now, k)[i].0 - way <= 16384
            &&& k == 3 ==> share == 32767
            &&& k > 0 ==> INTERPOL_FRAC@[k - 1] < share
            &&& 0 < share
        }),
{
    reveal(crate::fixed_point::spec_sub_s);
    let f = INTERPOL_FRAC@[k] as int;
    let g = 32767 - f;
    assert(0 < f <= 32767);
    let x = last[i].0 as int;
    let y = now[i].0 as int;
    assert(-0x4000_0000 <= x * g <= 0x3fff_ffff && -0x4000_0000 <= y * f <= 0x3fff_ffff
        && -0x4000_0000 <= x * g + y * f <= 0x3fff_8000) by (nonlinear_arith)
        requires
            0 < f <= 32767,
            g == 32767 - f,
            -32768 <= x <= 32767,
            -32768 <= y <= 32767,
    ;
    let fac_new = Word16(f as i16);
    let fac_old = sub_s(Word16(32767), fac_new);
    assert(fac_old.0 == g);
    lemma_l_mac(Word32(0), last[i], fac_old);
    lemma_l_mac(l_mult(last[i], fac_old), now[i], fac_new);
    lemma_round(l_mac(l_mult(last[i], fac_old), now[i], fac_new));
}

/// The steps are repeated at the distance at which they are most alike.
pub proof fn law_steps_repeat_where_they_are_most_alike(isf: Seq<Word16>, lag: int)
    requires
        2 <= lag <= 4,
    ensures
        ({
            let steps = steps_of(isf);
            let exp = norm_s(largest_step(steps, 14));
            let tall = Seq::new(14, |i: int| shl(steps[i], exp));
            let mean = shl(round(step_sum(steps, 12)), exp);
            &&& 1 <= repeat_of(isf) <= 3
            &&& likeness(tall, mean, lag, 7).0 <= likeness(tall, mean, repeat_of(isf) + 1, 7).0
        }),
{
    reveal(repeat_of);
}

proof fn lemma_steps_continued(isf: Seq<Word16>, repeat: int, n: int, m: int)
    requires
        isf.len() == 16,
        1 <= repeat <= 3,
        0 <= m <= n <= 4,
    ensures
        continued(isf, repeat, n).len() == 15 + n,
        continued(isf, repeat, n).take(15 + m) == continued(isf, repeat, m),
    decreases n,
{
    if m < n {
        lemma_steps_continued(isf, repeat, n - 1, m);
        assert(continued(isf, repeat, n).take(15 + m) =~= continued(isf, repeat, n - 1).take(
            15 + m,
        ));
    } else {
        if n > 0 {
            lemma_steps_continued(isf, repeat, n - 1, n - 1);
        }
        assert(continued(isf, repeat, n).take(15 + n) =~= continued(isf, repeat, n));
    }
}

/// The step up to frequency `i`.
pub open spec fn step_at(s: Seq<Word16>, i: int) -> int {
    s[i].0 - s[i - 1].0
}

proof fn lemma_small_steps(isf: Seq<Word16>, repeat: int, n: int)
    requires
        isf.len() == 16,
        1 <= repeat <= 3,
        0 <= n <= 4,
        0 <= isf[14].0 <= 16383,
        forall|i: int| 10 <= i < 15 ==> 0 <= #[trigger] step_at(isf, i) <= 4096,
    ensures
        continued(isf, repeat, n).len() == 15 + n,
        0 <= continued(isf, repeat, n)[14 + n].0 <= 16383 + 4096 * n,
        forall|i: int|
            10 <= i < 15 + n ==> 0 <= #[trigger] step_at(continued(isf, repeat, n), i) <= 4096,
    decreases n,
{
    let t = continued(isf, repeat, n);
    if n > 0 {
        lemma_small_steps(isf, repeat, n - 1);
        let s = continued(isf, repeat, n - 1);
        assert(0 <= step_at(s, 13 + n - repeat) <= 4096);
        reveal(crate::fixed_point::spec_add_s);
        reveal(crate::fixed_point::spec_sub_s);
        assert forall|i: int| 10 <= i < 15 + n implies 0 <= #[trigger] step_at(t, i) <= 4096 by {
            if i < 14 + n {
                assert(step_at(t, i) == step_at(s, i));
            }
        }
    } else {
        assert forall|i: int| 10 <= i < 15 implies 0 <= #[trigger] step_at(t, i) <= 4096 by {
            assert(step_at(t, i) == step_at(isf, i));
        }
    }
}

/// Each of the four new steps is the one that lies the repeat distance and one
/// before it, on a rising spectrum that leaves room for them.
pub proof fn law_continuation_repeats_its_steps(isf: Seq<Word16>, repeat: int, n: int)
    requires
        isf.len() == 16,
        1 <= repeat <= 3,
        1 <= n <= 4,
        0 <= isf[14].0 <= 16383,
        forall|i: int| 10 <= i < 15 ==> 0 <= #[trigger] step_at(isf, i) <= 4096,
    ensures
        continued(isf, repeat, 4).len() == 19,
        continued(isf, repeat, 4).take(15) == isf.take(15),
        step_at(continued(isf, repeat, 4), 14 + n) == step_at(
            continued(isf, repeat, 4),
            13 + n - repeat,
        ),
{
    let s = continued(isf, repeat, 4);
    let t = continued(isf, repeat, n - 1);
    let u = continued(isf, repeat, n);
    lemma_steps_continued(isf, repeat, 4, n);
    lemma_steps_continued(isf, repeat, n, n - 1);
    lemma_steps_continued(isf, repeat, 4, 0);
    assert(u.take(15 + n) == u && u.take(14 + n) == t);
    lemma_small_steps(isf, repeat, n - 1);
    assert(0 <= step_at(t, 13 + n - repeat) <= 4096);
    assert(s[14 + n] == u[14 + n] && s[13 + n] == u[13 + n]);
    assert(u[13 + n] == u.take(14 + n)[13 + n]);
    let j = 13 + n - repeat;
    assert(s[j] == s.take(15 + n)[j] && u[j] == u.take(14 + n)[j]);
    assert(s[j - 1] == s.take(15 + n)[j - 1] && u[j - 1] == u.take(14 + n)[j - 1]);
    assert(u[14 + n] == add_s(t[13 + n], sub_s(t[j], t[j - 1])));
    reveal(crate::fixed_point::spec_add_s);
    reveal(crate::fixed_point::spec_sub_s);
}

/// Any two new steps that follow each other are 500 Hz wide together, and no
/// step becomes narrower.
pub proof fn law_new_steps_are_parted(steps: Seq<Word16>, n: int)
    requires
        steps.len() == 4,
        0 <= n <= 3,
        forall|i: int| 0 <= i < 4 ==> -10000 <= (#[trigger] steps[i]).0 <= 10000,
    ensures
        parted(steps, n).len() == 4,
        forall|i: int| 0 <= i < 4 ==> steps[i].0 <= (#[trigger] parted(steps, n)[i]).0 <= 11280,
        forall|i: int|
            1 <= i <= n ==> (#[trigger] parted(steps, n)[i]).0 + parted(steps, n)[i - 1].0 >= 1280,
    decreases n,
{
    reveal(crate::fixed_point::spec_add_s);
    reveal(crate::fixed_point::spec_sub_s);
    if n > 0 {
        law_new_steps_are_parted(steps, n - 1);
        let s = parted(steps, n - 1);
        let t = parted(steps, n);
        assert(-10000 <= steps[n].0 && -10000 <= steps[n - 1].0);
        assert(s[n].0 <= 11280 && s[n - 1].0 <= 11280);
        assert(s[n].0 >= -10000 && s[n - 1].0 >= -10000);
        assert forall|i: int| 1 <= i <= n implies (#[trigger] t[i]).0 + t[i - 1].0 >= 1280 by {
            if i < n {
                assert(s[i].0 + s[i - 1].0 >= 1280);
                assert(t[i - 1] == s[i - 1]);
            }
        }
    }
}

} // verus!

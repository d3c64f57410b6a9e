use vstd::prelude::*;
use crate::color::Color;

verus! {

/// Number of pixels on the strip.
pub const NUM_LEDS: usize = 58;

/// Largest current the supply can deliver.
pub const MAX_MILLIAMPS: u64 = 2100;

/// Largest power the supply can deliver, at 5 V.
pub const MAX_MILLIWATTS: u64 = 5 * MAX_MILLIAMPS;

/// Power set aside for the controller itself.
pub const MICROCONTROLLER_CONSUMPTION_MW: u64 = 1500;

/// Power the pixels may draw together.
pub const AVAILABLE_MILLIWATTS: u64 = MAX_MILLIWATTS - MICROCONTROLLER_CONSUMPTION_MW;

/// Sum of all channels of all pixels.
pub open spec fn level_sum(s: Seq<Color>) -> int
    decreases s.len(),
{
    if s.len() == 0 {
        0
    } else {
        level_sum(s.drop_last()) + s.last().level()
    }
}

/// Power estimate for a channel sum: every full 255 counts as 100 mW.
pub open spec fn estimate(sum: int) -> int {
    sum / 255 * 100
}

/// Whether a frame may be shown without overloading the supply.
pub open spec fn fits_budget(s: Seq<Color>) -> bool {
    estimate(level_sum(s)) <= AVAILABLE_MILLIWATTS
}

/// Sum of all channels of all pixels of `data`.
pub fn channel_sum(data: &[Color]) -> (r: u128)
    ensures
        r == level_sum(data@),
{
    let mut sum: u128 = 0;
    let n = data.len();
    for i in 0..n
        invariant
            n == data@.len(),
            sum == level_sum(data@.subrange(0, i as int)),
            sum <= 765 * i,
    {
        proof {
            assert(data@.subrange(0, i + 1).drop_last() =~= data@.subrange(0, i as int));
        }
        let c = data[i];
        sum = sum + c.r as u128 + c.g as u128 + c.b as u128;
    }
    proof {
        assert(data@.subrange(0, n as int) =~= data@);
    }
    sum
}

/// Estimated draw, in milliwatts, of a frame whose channels sum to `sum`.
pub fn estimated_milliwatts(sum: u128) -> (r: u128)
    ensures
        r == estimate(sum as int),
{
    sum / 255 * 100
}

/// Whether `data` may be shown without overloading the supply.
pub fn within_budget(data: &[Color]) -> (r: bool)
    ensures
        r == fits_budget(data@),
{
    estimated_milliwatts(channel_sum(data)) <= AVAILABLE_MILLIWATTS as u128
}

/// A brighter frame never has a lower estimate.
pub proof fn lemma_estimate_monotonic(a: int, b: int)
    requires
        0 <= a <= b,
    ensures
        estimate(a) <= estimate(b),
{
    assert(a / 255 <= b / 255) by (nonlinear_arith)
        requires
            0 <= a <= b,
    ;
}

/// A frame of `n` equal pixels sums to `n` times one pixel.
pub proof fn lemma_uniform_sum(s: Seq<Color>, c: Color)
    requires
        forall|i: int| 0 <= i < s.len() ==> s[i] == c,
    ensures
        level_sum(s) == s.len() * c.level(),
    decreases s.len(),
{
    if s.len() > 0 {
        lemma_uniform_sum(s.drop_last(), c);
        assert(level_sum(s) == (s.len() - 1) * c.level() + c.level()) ;
        assert((s.len() - 1) * c.level() + c.level() == s.len() * c.level()) by (nonlinear_arith);
    }
}

/// A strip lit white on every pixel draws more than the supply allows.
pub proof fn lemma_all_white_exceeds(s: Seq<Color>)
    requires
        s.len() == NUM_LEDS,
        forall|i: int| 0 <= i < s.len() ==> s[i] == (Color { r: 255, g: 255, b: 255 }),
    ensures
        !fits_budget(s),
{
    lemma_uniform_sum(s, Color { r: 255, g: 255, b: 255 });
    assert(level_sum(s) == 58 * 765);
}

/// A dark strip always fits the budget.
pub proof fn lemma_all_black_fits(s: Seq<Color>)
    requires
        forall|i: int| 0 <= i < s.len() ==> s[i] == (Color { r: 0, g: 0, b: 0 }),
    ensures
        fits_budget(s),
{
    lemma_uniform_sum(s, Color { r: 0, g: 0, b: 0 });
    assert(s.len() * 0 == 0) by (nonlinear_arith);
}

} // verus!

use vstd::prelude::*;

verus! {

/// Positions are measured in hundredths of a pixel.
pub const SCALE: i64 = 100;

/// Largest magnitude a position may take while a sweep is under way.
pub const POS_BOUND: i64 = 0x2_0000_0000;

pub open spec fn abs(x: int) -> int {
    if x < 0 { -x } else { x }
}

pub open spec fn max(a: int, b: int) -> int {
    if a < b { b } else { a }
}

/// State of one sweep of a travelling highlight over a row of pixels.
///
/// Positions (`current_pos`, `end_pos`, `step_width`, `highlight_width`) are in
/// hundredths of a pixel; pixel `i` sits at position `i * SCALE`.
#[derive(Clone, Copy, Debug)]
pub struct AnimationContext {
    pub current_pos: i64,
    pub end_pos: i64,
    pub step_width: i64,
    pub ascending: bool,
    /// brightness of a pixel the highlight has not reached yet
    pub base_brightness: u8,
    /// brightness of a pixel the highlight has passed
    pub target_brightness: u8,
    /// peak brightness of the highlight
    pub highlight_brightness: u8,
    /// distance at which the highlight has faded out
    pub highlight_width: i64,
}

impl AnimationContext {
    pub open spec fn wf(self) -> bool {
        &&& self.base_brightness <= self.target_brightness <= self.highlight_brightness
        &&& 0 < self.step_width <= i32::MAX
        &&& i32::MIN <= self.end_pos <= i32::MAX
        &&& -POS_BOUND <= self.current_pos <= POS_BOUND
    }

    /// Whether the highlight has gone past the end of the sweep.
    pub open spec fn finished(self) -> bool {
        if self.ascending {
            self.current_pos > self.end_pos
        } else {
            self.current_pos < self.end_pos
        }
    }

    /// Number of ticks that `next` will still perform.
    pub open spec fn remaining(self) -> int {
        if self.finished() {
            0
        } else if self.ascending {
            (self.end_pos - self.current_pos) / (self.step_width as int) + 1
        } else {
            (self.current_pos - self.end_pos) / (self.step_width as int) + 1
        }
    }

    /// The context after one tick: the highlight moved by one step.
    pub open spec fn stepped(self) -> AnimationContext {
        AnimationContext {
            current_pos: (if self.ascending {
                self.current_pos + self.step_width
            } else {
                self.current_pos - self.step_width
            }) as i64,
            ..self
        }
    }

    /// The context after a call of `next`, whether it advanced or not.
    pub open spec fn advanced(self) -> AnimationContext {
        if self.finished() { self } else { self.stepped() }
    }

    /// Whether pixel `pos` lies behind a highlight at `hpos`, in the sweep's direction.
    pub open spec fn uses_target(self, hpos: int, pos: int) -> bool {
        if self.ascending {
            hpos >= pos * SCALE
        } else {
            hpos <= pos * SCALE
        }
    }

    pub open spec fn ambient(self, hpos: int, pos: int) -> int {
        if self.uses_target(hpos, pos) {
            self.target_brightness as int
        } else {
            self.base_brightness as int
        }
    }

    /// Linear falloff of the highlight with distance, zero from `highlight_width` on.
    pub open spec fn highlight(self, hpos: int, pos: int) -> int {
        let d = abs(hpos - pos * SCALE);
        if d < self.highlight_width {
            (self.highlight_brightness as int) * (self.highlight_width - d) / (
            self.highlight_width as int)
        } else {
            0
        }
    }

    /// Brightness of pixel `pos` while the highlight stands at `hpos`.
    pub open spec fn brightness(self, hpos: int, pos: int) -> int {
        max(self.ambient(hpos, pos), self.highlight(hpos, pos))
    }

    /// The brightness of each of `n` pixels for the current highlight position.
    pub open spec fn row(self, n: int) -> Seq<u8> {
        Seq::new(n as nat, |i: int| self.brightness(self.current_pos as int, i) as u8)
    }
    /// Starts a sweep from `start_pos` towards `end_pos`.
    ///
    /// Returns `None` when the brightness tiers are out of order or the step is
    /// not positive.
    pub fn new(
        start_pos: i32,
        end_pos: i32,
        step_width: i32,
        base_brightness: u8,
        target_brightness: u8,
        highlight_brightness: u8,
        highlight_width: i32,
    ) -> (r: Option<AnimationContext>)
        ensures
            r is Some <==> (base_brightness <= target_brightness <= highlight_brightness
                && step_width > 0),
            r matches Some(c) ==> {
                &&& c.wf()
                &&& c.current_pos == start_pos
                &&& c.end_pos == end_pos
                &&& c.step_width == step_width
                &&& c.ascending == (start_pos < end_pos)
                &&& c.base_brightness == base_brightness
                &&& c.target_brightness == target_brightness
                &&& c.highlight_brightness == highlight_brightness
                &&& c.highlight_width == highlight_width
            },
    {
        if !(base_brightness <= target_brightness && target_brightness <= highlight_brightness) {
            return None;
        }
        if step_width <= 0 {
            return None;
        }
        Some(
            AnimationContext {
                current_pos: start_pos as i64,
                end_pos: end_pos as i64,
                step_width: step_width as i64,
                ascending: start_pos < end_pos,
                base_brightness,
                target_brightness,
                highlight_brightness,
                highlight_width: highlight_width as i64,
            },
        )
    }

    /// Brightness of pixel `pos` while the highlight stands at `hpos`.
    pub fn calc_value(&self, hpos: i64, pos: usize) -> (r: u8)
        ensures
            r as int == self.brightness(hpos as int, pos as int),
    {
        let h = hpos as i128;
        let p = (pos as i128) * (SCALE as i128);
        let use_target = if self.ascending {
            h >= p
        } else {
            h <= p
        };
        let ambient: u8 = if use_target {
            self.target_brightness
        } else {
            self.base_brightness
        };
        let d: i128 = if h < p {
            p - h
        } else {
            h - p
        };
        let hw = self.highlight_width as i128;
        let hb = self.highlight_brightness as i128;
        let highlight: i128 = if d < hw {
            proof {
                lemma_falloff_bounded(hb as int, hw as int, d as int);
                assert(hb * (hw - d) <= 255 * 0x1_0000_0000_0000_0000) by (nonlinear_arith)
                    requires
                        0 <= hb <= 255,
                        0 < hw - d <= 0x1_0000_0000_0000_0000,
                ;
            }
            hb * (hw - d) / hw
        } else {
            0
        };
        if highlight > ambient as i128 {
            highlight as u8
        } else {
            ambient
        }
    }

    /// Fills `v` with the brightness of each pixel for the current highlight position.
    pub fn calc_values(&self, v: &mut [u8])
        ensures
            final(v)@ == self.row(old(v)@.len() as int),
    {
        let hpos = self.current_pos;
        let n = v.len();
        for i in 0..n
            invariant
                n == v@.len(),
                n == old(v)@.len(),
                forall|j: int| 0 <= j < i ==> v@[j] == self.brightness(hpos as int, j) as u8,
        {
            let x = self.calc_value(hpos, i);
            v[i] = x;
        }
        assert(v@ =~= self.row(n as int));
    }

    /// Performs one tick of the sweep: fills `v` for the current highlight
    /// position and moves the highlight one step on. Once the highlight has gone
    /// past the end it returns `false` and changes nothing.
    pub fn next(&mut self, v: &mut [u8]) -> (advanced: bool)
        requires
            old(self).wf(),
        ensures
            advanced == !old(self).finished(),
            advanced <==> old(self).remaining() > 0,
            *final(self) == old(self).advanced(),
            final(self).wf(),
            advanced ==> final(v)@ == old(self).row(old(v)@.len() as int),
            advanced ==> final(self).remaining() == old(self).remaining() - 1,
            !advanced ==> final(v)@ == old(v)@,
    {
        if self.ascending && self.current_pos > self.end_pos
            || !self.ascending && self.current_pos < self.end_pos {
            return false;
        }
        self.calc_values(v);
        proof {
            lemma_remaining_step(*self);
        }
        if self.ascending {
            self.current_pos = self.current_pos + self.step_width;
        } else {
            self.current_pos = self.current_pos - self.step_width;
        }
        true
    }
}

/// The falloff term never exceeds the peak brightness.
proof fn lemma_falloff_bounded(hb: int, hw: int, d: int)
    requires
        0 <= hb <= 255,
        0 <= d < hw,
    ensures
        0 <= hb * (hw - d) / hw <= hb,
{
    assert(0 <= hb * (hw - d) <= hb * hw) by (nonlinear_arith)
        requires
            0 <= hb,
            0 <= d < hw,
    ;
    assert(hb * (hw - d) / hw <= hb * hw / hw) by (nonlinear_arith)
        requires
            0 <= hb * (hw - d) <= hb * hw,
            0 < hw,
    ;
    assert(hb * hw / hw == hb) by (nonlinear_arith)
        requires
            0 < hw,
    ;
    assert(0 <= hb * (hw - d) / hw) by (nonlinear_arith)
        requires
            0 <= hb * (hw - d),
            0 < hw,
    ;
}

/// One tick uses up exactly one of the remaining ticks.
pub proof fn lemma_remaining_step(c: AnimationContext)
    requires
        c.wf(),
        !c.finished(),
    ensures
        c.stepped().wf(),
        c.stepped().remaining() == c.remaining() - 1,
{
    let s = c.step_width as int;
    let x = if c.ascending {
        c.end_pos - c.current_pos
    } else {
        c.current_pos - c.end_pos
    };
    assert(x >= 0);
    if x < s {
        assert(x / s == 0) by (nonlinear_arith)
            requires
                0 <= x < s,
        ;
    } else {
        assert((x - s) / s == x / s - 1) by (nonlinear_arith)
            requires
                s <= x,
                0 < s,
        ;
    }
}

/// Every pixel is at least as bright as the base tier and never brighter than the
/// highlight's peak, wherever the highlight stands.
pub proof fn lemma_brightness_bounds(c: AnimationContext, hpos: int, pos: int)
    requires
        c.base_brightness <= c.target_brightness <= c.highlight_brightness,
    ensures
        c.base_brightness <= c.brightness(hpos, pos) <= c.highlight_brightness,
{
    let d = abs(hpos - pos * SCALE);
    if d < c.highlight_width {
        lemma_falloff_bounded(c.highlight_brightness as int, c.highlight_width as int, d);
    }
}

impl AnimationContext {
    /// The context after `n` calls of `next`.
    pub open spec fn after(self, n: nat) -> AnimationContext
        decreases n,
    {
        if n == 0 {
            self
        } else {
            self.after((n - 1) as nat).advanced()
        }
    }
}

/// Once the highlight has passed a pixel, the pixel stays behind the highlight
/// for every later tick of the same sweep.
pub proof fn lemma_wake_trail_persists(c: AnimationContext, pos: int, n: nat)
    requires
        c.wf(),
        c.uses_target(c.current_pos as int, pos),
    ensures
        c.after(n).uses_target(c.after(n).current_pos as int, pos),
        c.after(n).wf(),
    decreases n,
{
    if n > 0 {
        lemma_wake_trail_persists(c, pos, (n - 1) as nat);
        let p = c.after((n - 1) as nat);
        if !p.finished() {
            lemma_remaining_step(p);
        }
    }
}

/// After as many calls of `next` as there are ticks remaining, the sweep is
/// finished, and from then on every further call leaves it as it is.
pub proof fn lemma_sweep_terminates(c: AnimationContext, n: nat)
    requires
        c.wf(),
        n >= c.remaining(),
    ensures
        c.after(n).finished(),
        c.after(n).remaining() == 0,
        c.after(n).advanced() == c.after(n),
    decreases n,
{
    if c.finished() {
        lemma_finished_stays(c, n);
    } else {
        lemma_remaining_step(c);
        lemma_after_shift(c, (n - 1) as nat);
        lemma_sweep_terminates(c.stepped(), (n - 1) as nat);
    }
}

proof fn lemma_finished_stays(c: AnimationContext, n: nat)
    requires
        c.finished(),
    ensures
        c.after(n) == c,
    decreases n,
{
    if n > 0 {
        lemma_finished_stays(c, (n - 1) as nat);
    }
}

proof fn lemma_after_shift(c: AnimationContext, n: nat)
    ensures
        c.after(n + 1) == c.advanced().after(n),
    decreases n,
{
    assert(c.after(0) == c);
    if n > 0 {
        lemma_after_shift(c, (n - 1) as nat);
        assert(c.after(n + 1) == c.after(n).advanced());
        assert(c.advanced().after(n) == c.advanced().after((n - 1) as nat).advanced());
    } else {
        assert(c.after(1) == c.after(0).advanced());
    }
}

} // verus!

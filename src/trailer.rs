use vstd::prelude::*;
use crate::animation::{AnimationContext, SCALE, abs, lemma_brightness_bounds, lemma_remaining_step};
use crate::color::{Color, red, black_color};
use crate::power::{
    NUM_LEDS, fits_budget, within_budget, level_sum, lemma_all_black_fits, lemma_uniform_sum,
    lemma_estimate_monotonic, lemma_all_white_exceeds,
};

verus! {

/// Half the strip: each sweep runs over this many pixels and is mirrored.
pub const HALF: usize = NUM_LEDS / 2;

/// Number of pixels lit by `blink`, centred on the strip.
pub const NUM_BLINKING: usize = 4;

/// First pixel lit by `blink`.
pub const BLOCK_START: usize = HALF - NUM_BLINKING / 2;

/// Where sweeps start, three pixels before the first one.
pub const X_START: i32 = -300;

/// Where sweeps end, three pixels past the last one of the half strip.
pub const X_END: i32 = 3200;

/// Advance of the highlight per tick.
pub const STEP_WIDTH: i32 = 13;

/// Distance at which the highlight has faded out.
pub const HIGHLIGHT_WIDTH: i32 = 300;

pub const VAL_0: u8 = 0;
pub const VAL_1: u8 = 10;
pub const VAL_2: u8 = 30;
pub const VAL_3: u8 = 60;
pub const HIGHLIGHT_1: u8 = 30;
pub const HIGHLIGHT_2: u8 = 60;
pub const HIGHLIGHT_3: u8 = 150;

pub const BLINK_DELAY_MS: u16 = 500;
pub const BRAKE_DELAY_MS: u16 = 100;
pub const BRAKE_FLASHES: usize = 5;

/// Pause after every frame, so that the transport is not flooded.
pub const FRAME_PAUSE_US: u16 = 500;

/// Something the firmware has to do on the library's behalf, in order.
#[derive(Debug, PartialEq, Eq)]
pub enum Command {
    /// Send these pixels to the strip, from its first pixel on.
    Write(Vec<Color>),
    /// Wait this many milliseconds.
    DelayMs(u16),
    /// Wait this many microseconds.
    DelayUs(u16),
    /// The power budget was exceeded: stop for good.
    Halt,
}

pub enum CommandView {
    Write(Seq<Color>),
    DelayMs(u16),
    DelayUs(u16),
    Halt,
}

impl View for Command {
    type V = CommandView;

    open spec fn view(&self) -> CommandView {
        match self {
            Command::Write(v) => CommandView::Write(v@),
            Command::DelayMs(ms) => CommandView::DelayMs(*ms),
            Command::DelayUs(us) => CommandView::DelayUs(*us),
            Command::Halt => CommandView::Halt,
        }
    }
}

/// A frame was refused because it would draw more power than is available.
#[derive(Clone, Copy, Debug, PartialEq, Eq, Structural)]
pub struct PowerExceeded;

/// The strip with every pixel set to `c`.
pub open spec fn uniform(c: Color) -> Seq<Color> {
    Seq::new(NUM_LEDS as nat, |i: int| c)
}

/// `f` with the blinking block set to `c`.
pub open spec fn with_block(f: Seq<Color>, c: Color) -> Seq<Color> {
    Seq::new(
        f.len(),
        |j: int|
            if BLOCK_START <= j < BLOCK_START + NUM_BLINKING {
                c
            } else {
                f[j]
            },
    )
}

/// The strip showing `row` on both halves, mirrored about the centre: value `i`
/// of the row lights pixels `HALF - 1 - i` and `HALF + i`.
pub open spec fn mirrored(row: Seq<u8>) -> Seq<Color> {
    Seq::new(
        NUM_LEDS as nat,
        |j: int|
            if j < HALF {
                red(row[HALF - 1 - j])
            } else {
                red(row[j - HALF])
            },
    )
}

/// What is sent for a frame that passes the power guard.
pub open spec fn show_cmds(f: Seq<Color>) -> Seq<CommandView> {
    seq![CommandView::Write(f), CommandView::DelayUs(FRAME_PAUSE_US)]
}

/// What is sent instead of a frame that fails the power guard: a dim magenta
/// first pixel, every pixel dark after it, then a halt.
pub open spec fn warning_cmds() -> Seq<CommandView> {
    seq![CommandView::Write(seq![Color { r: 10, g: 0, b: 10 }])] + Seq::new(
        NUM_LEDS as nat,
        |i: int| CommandView::Write(seq![black_color()]),
    ) + seq![CommandView::Halt]
}

/// What committing frame `f` sends.
pub open spec fn commit_cmds(f: Seq<Color>) -> Seq<CommandView> {
    if fits_budget(f) {
        show_cmds(f)
    } else {
        warning_cmds()
    }
}

/// Whether both frames of a blink fit the budget, starting from frame `f`.
pub open spec fn blink_fits(f: Seq<Color>) -> bool {
    fits_budget(with_block(f, red(VAL_1))) && fits_budget(with_block(f, black_color()))
}

/// One lit and one cleared frame of a blink, each followed by its pause.
pub open spec fn blink_cmds(f: Seq<Color>) -> Seq<CommandView> {
    show_cmds(with_block(f, red(VAL_1))).push(CommandView::DelayMs(BLINK_DELAY_MS)) + show_cmds(
        with_block(f, black_color()),
    ).push(CommandView::DelayMs(BLINK_DELAY_MS))
}

/// What a blink starting from frame `f` sends when a frame fails the budget:
/// the warning at once if the lit frame fails, else after the lit frame and its
/// pause.
pub open spec fn blink_fail_cmds(f: Seq<Color>) -> Seq<CommandView> {
    if !fits_budget(with_block(f, red(VAL_1))) {
        warning_cmds()
    } else {
        show_cmds(with_block(f, red(VAL_1))).push(CommandView::DelayMs(BLINK_DELAY_MS))
            + warning_cmds()
    }
}

/// The buffer a failed blink starting from frame `f` leaves behind.
pub open spec fn blink_fail_frame(f: Seq<Color>) -> Seq<Color> {
    if !fits_budget(with_block(f, red(VAL_1))) {
        with_block(f, red(VAL_1))
    } else {
        with_block(f, black_color())
    }
}

/// One flash of the brake alarm: full red, pause, dark, pause.
pub open spec fn brake_cmds() -> Seq<CommandView> {
    show_cmds(uniform(red(255))).push(CommandView::DelayMs(BRAKE_DELAY_MS)) + show_cmds(
        uniform(black_color()),
    ).push(CommandView::DelayMs(BRAKE_DELAY_MS))
}

/// `s` repeated `n` times.
pub open spec fn repeat_cmds(s: Seq<CommandView>, n: nat) -> Seq<CommandView>
    decreases n,
{
    if n == 0 {
        Seq::empty()
    } else {
        repeat_cmds(s, (n - 1) as nat) + s
    }
}

/// The `k`-th of the three chained sweeps: out, back, and out again, each one
/// ending on the brightness tier that the next one starts from.
pub open spec fn sweep_context(k: int) -> AnimationContext {
    let (start, end) = if k == 1 {
        (X_END, X_START)
    } else {
        (X_START, X_END)
    };
    AnimationContext {
        current_pos: start as i64,
        end_pos: end as i64,
        step_width: STEP_WIDTH as i64,
        ascending: start < end,
        base_brightness: if k == 0 {
            VAL_0
        } else if k == 1 {
            VAL_1
        } else {
            VAL_2
        },
        target_brightness: if k == 0 {
            VAL_1
        } else if k == 1 {
            VAL_2
        } else {
            VAL_3
        },
        highlight_brightness: if k == 0 {
            HIGHLIGHT_1
        } else if k == 1 {
            HIGHLIGHT_2
        } else {
            HIGHLIGHT_3
        },
        highlight_width: HIGHLIGHT_WIDTH as i64,
    }
}

/// Distance the highlight still has to travel, plus one step.
pub open spec fn sweep_measure(c: AnimationContext) -> int {
    (if c.ascending {
        c.end_pos - c.current_pos
    } else {
        c.current_pos - c.end_pos
    }) + c.step_width
}

/// What the sweep `c` sends from its current position to its end.
pub open spec fn sweep_cmds(c: AnimationContext) -> Seq<CommandView>
    decreases sweep_measure(c),
{
    if !c.wf() || c.finished() {
        Seq::empty()
    } else {
        show_cmds(mirrored(c.row(HALF as int))) + sweep_cmds(c.stepped())
    }
}

/// The last frame that the sweep `c` shows, if it has a tick left.
pub open spec fn last_frame(c: AnimationContext) -> Seq<Color>
    decreases sweep_measure(c),
{
    if !c.wf() || c.finished() || c.stepped().finished() {
        mirrored(c.row(HALF as int))
    } else {
        last_frame(c.stepped())
    }
}

/// Whether every frame written by `cmds` is red only, with each pixel between
/// `lo` and `hi`.
pub open spec fn frames_within(cmds: Seq<CommandView>, lo: int, hi: int) -> bool {
    forall|n: int, j: int|
        0 <= n < cmds.len() && cmds[n] is Write && 0 <= j < cmds[n]->Write_0.len() ==> {
            let px = #[trigger] cmds[n]->Write_0[j];
            &&& px.g == 0
            &&& px.b == 0
            &&& lo <= px.r <= hi
        }
}

/// A strip whose pixels draw at most `m` each sums to at most `m` per pixel.
proof fn lemma_level_bound(s: Seq<Color>, m: int)
    requires
        0 <= m,
        forall|i: int| 0 <= i < s.len() ==> s[i].level() <= m,
    ensures
        0 <= level_sum(s) <= s.len() * m,
    decreases s.len(),
{
    if s.len() > 0 {
        lemma_level_bound(s.drop_last(), m);
        assert(s.last() == s[s.len() - 1]);
        assert((s.len() - 1) * m + m == s.len() * m) by (nonlinear_arith);
    }
}

/// Each value of a sweep's row lies between its base tier and its peak.
proof fn lemma_row_bounds(c: AnimationContext)
    requires
        c.wf(),
    ensures
        forall|i: int|
            0 <= i < HALF ==> c.base_brightness <= #[trigger] c.row(HALF as int)[i]
                <= c.highlight_brightness,
{
    assert forall|i: int| 0 <= i < HALF implies c.base_brightness <= #[trigger] c.row(
        HALF as int,
    )[i] <= c.highlight_brightness by {
        lemma_brightness_bounds(c, c.current_pos as int, i);
    }
}

/// Every frame of a sweep whose highlight peaks at most at the third tier fits
/// the power budget.
proof fn lemma_sweep_frame_fits(c: AnimationContext)
    requires
        c.wf(),
        c.highlight_brightness <= HIGHLIGHT_3,
    ensures
        fits_budget(mirrored(c.row(HALF as int))),
{
    let row = c.row(HALF as int);
    let f = mirrored(row);
    lemma_row_bounds(c);
    assert forall|j: int| 0 <= j < f.len() implies f[j].level() <= HIGHLIGHT_3 by {
        if j < HALF {
            assert(row[HALF - 1 - j] <= HIGHLIGHT_3);
        } else {
            assert(row[j - HALF] <= HIGHLIGHT_3);
        }
    }
    lemma_level_bound(f, HIGHLIGHT_3 as int);
    lemma_estimate_monotonic(level_sum(f), 58 * 150 as int);
}

/// Every frame a sweep shows is red only, each pixel between the sweep's base
/// tier and its peak.
pub proof fn lemma_sweep_frames_within(c: AnimationContext)
    requires
        c.wf(),
    ensures
        frames_within(
            sweep_cmds(c),
            c.base_brightness as int,
            c.highlight_brightness as int,
        ),
    decreases sweep_measure(c),
{
    if !c.finished() {
        lemma_remaining_step(c);
        lemma_sweep_frames_within(c.stepped());
        lemma_row_bounds(c);
        let f = mirrored(c.row(HALF as int));
        let rest = sweep_cmds(c.stepped());
        let all = sweep_cmds(c);
        assert(all == show_cmds(f) + rest);
        assert forall|n: int, j: int|
            0 <= n < all.len() && all[n] is Write && 0 <= j < all[n]->Write_0.len() implies {
            let px = #[trigger] all[n]->Write_0[j];
            &&& px.g == 0
            &&& px.b == 0
            &&& c.base_brightness <= px.r <= c.highlight_brightness
        } by {
            if n >= 2 {
                assert(all[n] == rest[n - 2]);
                let px = rest[n - 2]->Write_0[j];
                assert(px.g == 0 && px.b == 0 && c.stepped().base_brightness <= px.r
                    <= c.stepped().highlight_brightness);
            } else {
                assert(n == 0);
                if j < HALF {
                    assert(f[j] == red(c.row(HALF as int)[HALF - 1 - j]));
                } else {
                    assert(f[j] == red(c.row(HALF as int)[j - HALF]));
                }
            }
        }
    }
}

/// The sweep `c` with the highlight moved to `pos`.
pub open spec fn at_position(c: AnimationContext, pos: i64) -> AnimationContext {
    AnimationContext { current_pos: pos, ..c }
}

/// The last frame of each configured sweep shows every pixel at the sweep's
/// target tier.
proof fn lemma_last_frame_on_target(k: int, c: AnimationContext)
    requires
        0 <= k < 3,
        c == at_position(sweep_context(k), c.current_pos),
        c.wf(),
        !c.finished(),
    ensures
        last_frame(c) == uniform(red(sweep_context(k).target_brightness)),
    decreases sweep_measure(c),
{
    if c.stepped().finished() {
        let row = c.row(HALF as int);
        let t = c.target_brightness;
        assert forall|i: int| 0 <= i < HALF implies row[i] == t by {
            let d = abs(c.current_pos - i * SCALE);
            assert(c.uses_target(c.current_pos as int, i));
            if d < c.highlight_width {
                let hb = c.highlight_brightness as int;
                let hw = c.highlight_width as int;
                assert(k == 1);
                assert(hb * (hw - d) / hw <= 2) by (nonlinear_arith)
                    requires
                        hb == 60,
                        hw == 300,
                        288 <= d < 300,
                ;
            }
        }
        assert(mirrored(row) =~= uniform(red(t)));
    } else {
        lemma_remaining_step(c);
        lemma_last_frame_on_target(k, c.stepped());
    }
}

/// Committing a strip lit white on every pixel sends the warning pattern and a
/// halt, never the frame itself; committing a dark strip always sends the frame.
pub proof fn lemma_power_guard_extremes()
    ensures
        commit_cmds(uniform(Color { r: 255, g: 255, b: 255 })) == warning_cmds(),
        commit_cmds(uniform(black_color())) == show_cmds(uniform(black_color())),
{
    lemma_all_white_exceeds(uniform(Color { r: 255, g: 255, b: 255 }));
    lemma_all_black_fits(uniform(black_color()));
}

/// Each of the chained sweeps ends on the tier the next one starts from: its
/// last frame shows every pixel at that tier, and no frame of the next sweep
/// shows a pixel below it. So the resting brightness of every pixel never drops
/// from one sweep to a later one, wherever the two highlights stand.
pub proof fn lemma_chained_sweeps_continuous(k: int, j: int, h1: int, h2: int, pos: int)
    requires
        0 <= k < j < 3,
    ensures
        sweep_context(k).target_brightness == sweep_context(k + 1).base_brightness,
        last_frame(sweep_context(k)) == uniform(red(sweep_context(k + 1).base_brightness)),
        frames_within(
            sweep_cmds(sweep_context(k + 1)),
            sweep_context(k + 1).base_brightness as int,
            sweep_context(k + 1).highlight_brightness as int,
        ),
        sweep_context(k).ambient(h1, pos) <= sweep_context(j).ambient(h2, pos),
{
    let c = sweep_context(k);
    assert(c == at_position(c, c.current_pos));
    lemma_last_frame_on_target(k, c);
    lemma_sweep_frames_within(sweep_context(k + 1));
}

/// Blinking on a dark strip fits the budget, and clearing the block leaves the
/// strip dark.
proof fn lemma_blink_on_dark_strip()
    ensures
        blink_fits(uniform(black_color())),
        with_block(uniform(black_color()), black_color()) == uniform(black_color()),
{
    let lit = with_block(uniform(black_color()), red(VAL_1));
    assert forall|j: int| 0 <= j < lit.len() implies lit[j].level() <= VAL_1 by {}
    lemma_level_bound(lit, VAL_1 as int);
    lemma_estimate_monotonic(level_sum(lit), 580);
    assert(with_block(uniform(black_color()), black_color()) =~= uniform(black_color()));
    lemma_all_black_fits(uniform(black_color()));
}

/// The strip's pixel buffer, and the commands queued for the firmware.
pub struct TrailerLight {
    data: Vec<Color>,
    out: Vec<Command>,
}

impl TrailerLight {
    /// The pixels as they were last set.
    pub closed spec fn frame(self) -> Seq<Color> {
        self.data@
    }

    /// The commands queued and not yet taken.
    pub closed spec fn output(self) -> Seq<CommandView> {
        self.out@.map_values(|c: Command| c@)
    }

    pub open spec fn wf(self) -> bool {
        self.frame().len() == NUM_LEDS
    }

    /// A dark strip with nothing queued.
    pub fn new() -> (r: TrailerLight)
        ensures
            r.wf(),
            r.frame() == uniform(black_color()),
            r.output() == Seq::<CommandView>::empty(),
    {
        let mut data: Vec<Color> = Vec::new();
        for i in 0..NUM_LEDS
            invariant
                data@ == Seq::new(i as nat, |j: int| black_color()),
        {
            data.push(Color::new(0, 0, 0));
            assert(data@ =~= Seq::new((i + 1) as nat, |j: int| black_color()));
        }
        let r = TrailerLight { data, out: Vec::new() };
        assert(r.frame() =~= uniform(black_color()));
        assert(r.output() =~= Seq::<CommandView>::empty());
        r
    }

    /// The pixels as they were last set.
    pub fn pixels(&self) -> (r: &[Color])
        ensures
            r@ == self.frame(),
    {
        self.data.as_slice()
    }

    /// Hands out the queued commands, oldest first, and empties the queue.
    pub fn take_commands(&mut self) -> (r: Vec<Command>)
        ensures
            r@.map_values(|c: Command| c@) == old(self).output(),
            final(self).output() == Seq::<CommandView>::empty(),
            final(self).frame() == old(self).frame(),
    {
        let mut r: Vec<Command> = Vec::new();
        std::mem::swap(&mut self.out, &mut r);
        assert(self.output() =~= Seq::<CommandView>::empty());
        r
    }

    fn emit(&mut self, c: Command)
        ensures
            final(self).output() == old(self).output().push(c@),
            final(self).frame() == old(self).frame(),
    {
        self.out.push(c);
        assert(self.output() =~= old(self).output().push(c@));
    }

    fn snapshot(&self) -> (r: Vec<Color>)
        ensures
            r@ == self.frame(),
    {
        let mut r: Vec<Color> = Vec::new();
        let n = self.data.len();
        for i in 0..n
            invariant
                n == self.data@.len(),
                r@ == self.data@.subrange(0, i as int),
        {
            r.push(self.data[i]);
            assert(r@ =~= self.data@.subrange(0, i + 1));
        }
        assert(r@ =~= self.data@);
        r
    }

    /// Queues a pause of `ms` milliseconds.
    pub fn delay_ms(&mut self, ms: u16)
        ensures
            final(self).output() == old(self).output().push(CommandView::DelayMs(ms)),
            final(self).frame() == old(self).frame(),
    {
        self.emit(Command::DelayMs(ms));
    }

    /// Commits the buffer: queues it for the strip followed by a short pause if
    /// its estimated draw fits the power budget; otherwise queues the warning
    /// pattern and a halt, and reports the overload.
    pub fn write_leds(&mut self) -> (r: Result<(), PowerExceeded>)
        ensures
            r is Ok <==> fits_budget(old(self).frame()),
            final(self).frame() == old(self).frame(),
            final(self).output() == old(self).output() + commit_cmds(old(self).frame()),
    {
        if !within_budget(self.data.as_slice()) {
            let ghost before = self.output();
            let sentinel = vec![Color::new(10, 0, 10)];
            assert(sentinel@ =~= seq![Color { r: 10, g: 0, b: 10 }]);
            self.emit(Command::Write(sentinel));
            assert(self.output() =~= before + seq![
                CommandView::Write(seq![Color { r: 10, g: 0, b: 10 }]),
            ] + Seq::new(0, |k: int| CommandView::Write(seq![black_color()])));
            for i in 0..NUM_LEDS
                invariant
                    self.frame() == old(self).frame(),
                    self.output() == before + seq![
                        CommandView::Write(seq![Color { r: 10, g: 0, b: 10 }]),
                    ] + Seq::new(i as nat, |k: int| CommandView::Write(seq![black_color()])),
            {
                let ghost prev = self.output();
                let w = vec![Color::new(0, 0, 0)];
                assert(w@ =~= seq![black_color()]);
                self.emit(Command::Write(w));
                assert(self.output() =~= before + seq![
                    CommandView::Write(seq![Color { r: 10, g: 0, b: 10 }]),
                ] + Seq::new((i + 1) as nat, |k: int| CommandView::Write(seq![black_color()])));
            }
            self.emit(Command::Halt);
            assert(self.output() =~= before + warning_cmds());
            return Err(PowerExceeded);
        }
        let ghost before = self.output();
        let frame = self.snapshot();
        self.emit(Command::Write(frame));
        self.emit(Command::DelayUs(FRAME_PAUSE_US));
        assert(self.output() =~= before + show_cmds(self.frame()));
        Ok(())
    }
    /// Sets every pixel to `color` and commits.
    pub fn color(&mut self, color: Color) -> (r: Result<(), PowerExceeded>)
        requires
            old(self).wf(),
        ensures
            final(self).wf(),
            final(self).frame() == uniform(color),
            r is Ok <==> fits_budget(uniform(color)),
            final(self).output() == old(self).output() + commit_cmds(uniform(color)),
    {
        for i in 0..NUM_LEDS
            invariant
                self.frame().len() == NUM_LEDS,
                self.output() == old(self).output(),
                forall|j: int| 0 <= j < i ==> self.frame()[j] == color,
        {
            self.data[i] = color;
        }
        assert(self.frame() =~= uniform(color));
        self.write_leds()
    }

    /// Turns every pixel off and commits; a dark strip always fits the budget.
    pub fn black(&mut self)
        requires
            old(self).wf(),
        ensures
            final(self).wf(),
            final(self).frame() == uniform(black_color()),
            final(self).output() == old(self).output() + show_cmds(uniform(black_color())),
    {
        proof {
            lemma_all_black_fits(uniform(black_color()));
        }
        let _ = self.color(Color::new(0, 0, 0));
    }

    fn fill_block(&mut self, c: Color)
        requires
            old(self).wf(),
        ensures
            final(self).wf(),
            final(self).frame() == with_block(old(self).frame(), c),
            final(self).output() == old(self).output(),
    {
        for i in 0..NUM_BLINKING
            invariant
                self.frame().len() == NUM_LEDS,
                self.output() == old(self).output(),
                forall|j: int|
                    0 <= j < NUM_LEDS ==> self.frame()[j] == if BLOCK_START <= j < BLOCK_START
                        + i {
                        c
                    } else {
                        old(self).frame()[j]
                    },
        {
            self.data[i + BLOCK_START] = c;
        }
        assert(self.frame() =~= with_block(old(self).frame(), c));
    }

    fn blink_once(&mut self) -> (r: Result<(), PowerExceeded>)
        requires
            old(self).wf(),
        ensures
            final(self).wf(),
            r is Ok <==> blink_fits(old(self).frame()),
            r is Ok ==> final(self).frame() == with_block(old(self).frame(), black_color()),
            r is Ok ==> final(self).output() == old(self).output() + blink_cmds(old(self).frame()),
            r is Err ==> final(self).frame() == blink_fail_frame(old(self).frame()),
            r is Err ==> final(self).output() == old(self).output() + blink_fail_cmds(
                old(self).frame(),
            ),
    {
        let ghost f = self.frame();
        let ghost before = self.output();
        self.fill_block(Color::new(VAL_1, 0, 0));
        if self.write_leds().is_err() {
            return Err(PowerExceeded);
        }
        self.delay_ms(BLINK_DELAY_MS);
        self.fill_block(Color::new(0, 0, 0));
        assert(with_block(with_block(f, red(VAL_1)), black_color()) =~= with_block(f, black_color()));
        if self.write_leds().is_err() {
            assert(self.output() =~= before + blink_fail_cmds(f));
            return Err(PowerExceeded);
        }
        self.delay_ms(BLINK_DELAY_MS);
        assert(self.output() =~= before + blink_cmds(f));
        Ok(())
    }

    /// Lights the centre block dim red and clears it again, twice, with a pause
    /// after each commit.
    pub fn blink(&mut self) -> (r: Result<(), PowerExceeded>)
        requires
            old(self).wf(),
        ensures
            final(self).wf(),
            r is Ok <==> blink_fits(old(self).frame()),
            r is Ok ==> final(self).frame() == with_block(old(self).frame(), black_color()),
            r is Ok ==> final(self).output() == old(self).output() + blink_cmds(old(self).frame())
                + blink_cmds(old(self).frame()),
            r is Err ==> final(self).frame() == blink_fail_frame(old(self).frame()),
            r is Err ==> final(self).output() == old(self).output() + blink_fail_cmds(
                old(self).frame(),
            ),
    {
        let ghost f = self.frame();
        let ghost before = self.output();
        for round in 0..2
            invariant
                self.wf(),
                f == old(self).frame(),
                before == old(self).output(),
                round == 0 ==> self.frame() == f && self.output() == before,
                round >= 1 ==> blink_fits(f) && self.frame() == with_block(f, black_color()),
                round == 1 ==> self.output() == before + blink_cmds(f),
                round == 2 ==> self.output() == before + blink_cmds(f) + blink_cmds(f),
        {
            let ghost cur = self.frame();
            let ghost mid = self.output();
            proof {
                assert(with_block(with_block(f, black_color()), red(VAL_1)) =~= with_block(f, red(VAL_1)));
                assert(with_block(with_block(f, black_color()), black_color()) =~= with_block(f, black_color()));
                if round == 1 {
                    assert(with_block(cur, red(VAL_1)) == with_block(f, red(VAL_1)));
                    assert(blink_fits(cur));
                    assert(blink_cmds(cur) == blink_cmds(f));
                } else {
                    assert(cur == f);
                }
            }
            let res = self.blink_once();
            if res.is_err() {
                return Err(PowerExceeded);
            }
            assert(round == 0 ==> self.output() =~= before + blink_cmds(f));
        }
        Ok(())
    }
    /// Flashes the whole strip full red and dark again, several times, with a
    /// pause after each commit; full red fits the budget.
    pub fn emergency_brake(&mut self)
        requires
            old(self).wf(),
        ensures
            final(self).wf(),
            final(self).frame() == uniform(black_color()),
            final(self).output() == old(self).output() + repeat_cmds(
                brake_cmds(),
                BRAKE_FLASHES as nat,
            ),
    {
        proof {
            lemma_uniform_sum(uniform(red(255)), red(255));
            assert(level_sum(uniform(red(255))) == 58 * 255);
            lemma_all_black_fits(uniform(black_color()));
        }
        let ghost before = self.output();
        for k in 0..BRAKE_FLASHES
            invariant
                self.wf(),
                k > 0 ==> self.frame() == uniform(black_color()),
                before == old(self).output(),
                self.output() == before + repeat_cmds(brake_cmds(), k as nat),
                fits_budget(uniform(red(255))),
                fits_budget(uniform(black_color())),
        {
            let ghost mid = self.output();
            let _ = self.color(Color::new(255, 0, 0));
            self.delay_ms(BRAKE_DELAY_MS);
            let _ = self.color(Color::new(0, 0, 0));
            self.delay_ms(BRAKE_DELAY_MS);
            assert(self.output() =~= mid + brake_cmds());
            assert(repeat_cmds(brake_cmds(), (k + 1) as nat) == repeat_cmds(brake_cmds(), k as nat)
                + brake_cmds());
            assert(self.output() =~= before + repeat_cmds(brake_cmds(), (k + 1) as nat));
        }
    }

    /// Shows `row` on both halves of the strip, mirrored about the centre.
    fn show_row(&mut self, row: &Vec<u8>)
        requires
            old(self).wf(),
            row@.len() == HALF,
        ensures
            final(self).wf(),
            final(self).frame() == mirrored(row@),
            final(self).output() == old(self).output(),
    {
        for i in 0..HALF
            invariant
                self.frame().len() == NUM_LEDS,
                row@.len() == HALF,
                self.output() == old(self).output(),
                forall|j: int|
                    0 <= j < NUM_LEDS ==> self.frame()[j] == if HALF <= j < HALF + i {
                        red(row@[j - HALF])
                    } else if HALF - i <= j < HALF {
                        red(row@[HALF - 1 - j])
                    } else {
                        old(self).frame()[j]
                    },
        {
            let c = Color::new(row[i], 0, 0);
            self.data[i + HALF] = c;
            self.data[HALF - 1 - i] = c;
        }
        assert(self.frame() =~= mirrored(row@));
    }

    /// Runs sweep `ctx` to its end, showing every tick mirrored on the strip.
    fn run_sweep(&mut self, ctx: AnimationContext, v: &mut Vec<u8>)
        requires
            old(self).wf(),
            ctx.wf(),
            !ctx.finished(),
            ctx.highlight_brightness <= HIGHLIGHT_3,
            old(v)@.len() == HALF,
        ensures
            final(self).wf(),
            final(self).frame() == last_frame(ctx),
            final(v)@.len() == HALF,
            final(self).output() == old(self).output() + sweep_cmds(ctx),
    {
        let ghost before = self.output();
        let mut c = ctx;
        loop
            invariant
                self.wf(),
                c.wf(),
                v@.len() == HALF,
                c.highlight_brightness <= HIGHLIGHT_3,
                before == old(self).output(),
                before + sweep_cmds(ctx) == self.output() + sweep_cmds(c),
                c.finished() ==> self.frame() == last_frame(ctx),
                !c.finished() ==> last_frame(c) == last_frame(ctx),
            ensures
                self.wf(),
                v@.len() == HALF,
                self.frame() == last_frame(ctx),
                self.output() == before + sweep_cmds(ctx),
            decreases c.remaining(),
        {
            let ghost prev = c;
            let ghost mid = self.output();
            let advanced = c.next(v.as_mut_slice());
            if !advanced {
                assert(sweep_cmds(c) == Seq::<CommandView>::empty());
                assert(self.output() =~= self.output() + sweep_cmds(c));
                break;
            }
            self.show_row(v);
            proof {
                lemma_sweep_frame_fits(prev);
            }
            let _ = self.write_leds();
            assert(sweep_cmds(prev) == show_cmds(mirrored(prev.row(HALF as int))) + sweep_cmds(c));
            assert(mid + sweep_cmds(prev) =~= self.output() + sweep_cmds(c));
        }
    }

    /// Runs the `k`-th of the three chained sweeps of the running lights. Every
    /// frame fits the budget, and the last one shows the whole strip at the
    /// sweep's target tier.
    pub fn running_light_sweep(&mut self, k: usize)
        requires
            old(self).wf(),
            k < 3,
        ensures
            final(self).wf(),
            final(self).frame() == uniform(red(sweep_context(k as int).target_brightness)),
            final(self).output() == old(self).output() + sweep_cmds(sweep_context(k as int)),
    {
        let mut v: Vec<u8> = vec![0u8; HALF];
        let ctx = if k == 0 {
            AnimationContext::new(X_START, X_END, STEP_WIDTH, VAL_0, VAL_1, HIGHLIGHT_1, HIGHLIGHT_WIDTH)
        } else if k == 1 {
            AnimationContext::new(X_END, X_START, STEP_WIDTH, VAL_1, VAL_2, HIGHLIGHT_2, HIGHLIGHT_WIDTH)
        } else {
            AnimationContext::new(X_START, X_END, STEP_WIDTH, VAL_2, VAL_3, HIGHLIGHT_3, HIGHLIGHT_WIDTH)
        }.unwrap();
        assert(ctx == sweep_context(k as int));
        proof {
            lemma_last_frame_on_target(k as int, ctx);
        }
        self.run_sweep(ctx, &mut v);
    }

    /// The running-light show: three chained sweeps, each brightening the strip
    /// to the next tier behind its highlight. Every frame fits the budget, and
    /// the strip ends lit at the top tier.
    pub fn turn_on_animation(&mut self)
        requires
            old(self).wf(),
        ensures
            final(self).wf(),
            final(self).frame() == uniform(red(VAL_3)),
            final(self).output() == old(self).output() + sweep_cmds(sweep_context(0)) + sweep_cmds(
                sweep_context(1),
            ) + sweep_cmds(sweep_context(2)),
    {
        self.running_light_sweep(0);
        self.running_light_sweep(1);
        self.running_light_sweep(2);
    }

    /// The start-up show: dark strip, a pause, the blink, then the running
    /// lights. Every frame of it fits the budget.
    pub fn run_show(&mut self)
        requires
            old(self).wf(),
        ensures
            final(self).wf(),
            final(self).frame() == uniform(red(VAL_3)),
            final(self).output() == old(self).output() + show_cmds(uniform(black_color())).push(
                CommandView::DelayMs(BLINK_DELAY_MS),
            ) + blink_cmds(uniform(black_color())) + blink_cmds(uniform(black_color()))
                + sweep_cmds(sweep_context(0)) + sweep_cmds(sweep_context(1)) + sweep_cmds(sweep_context(2)),
    {
        let ghost before = self.output();
        proof {
            lemma_blink_on_dark_strip();
        }
        self.black();
        self.delay_ms(BLINK_DELAY_MS);
        let r = self.blink();
        assert(r is Ok);
        self.turn_on_animation();
        assert(self.output() =~= before + show_cmds(uniform(black_color())).push(
            CommandView::DelayMs(BLINK_DELAY_MS),
        ) + blink_cmds(uniform(black_color())) + blink_cmds(uniform(black_color()))
            + sweep_cmds(sweep_context(0)) + sweep_cmds(sweep_context(1)) + sweep_cmds(sweep_context(2)));
    }
}

} // verus!

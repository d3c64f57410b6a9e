use trailer_light::{
    channel_sum, estimated_milliwatts, within_budget, Color, Command, PowerExceeded,
    TrailerLight, AVAILABLE_MILLIWATTS, NUM_LEDS,
};

fn black() -> Color {
    Color::new(0, 0, 0)
}

fn frame_of(c: Color) -> Vec<Color> {
    vec![c; NUM_LEDS]
}

fn frames(cmds: &[Command]) -> Vec<&Vec<Color>> {
    cmds.iter()
        .filter_map(|c| match c {
            Command::Write(f) => Some(f),
            _ => None,
        })
        .collect()
}

#[test]
fn channel_sum_adds_every_channel() {
    let data = vec![Color::new(1, 2, 3), Color::new(255, 255, 255)];
    assert_eq!(channel_sum(&data), 771);
    assert_eq!(channel_sum(&[]), 0);
}

#[test]
fn estimate_counts_full_steps_of_255() {
    assert_eq!(estimated_milliwatts(0), 0);
    assert_eq!(estimated_milliwatts(254), 0);
    assert_eq!(estimated_milliwatts(255), 100);
    assert_eq!(estimated_milliwatts(771), 300);
    assert_eq!(AVAILABLE_MILLIWATTS, 9000);
}

#[test]
fn budget_boundary() {
    let mut data = vec![Color::new(255, 255, 255); 30];
    data.push(Color::new(254, 0, 0));
    assert_eq!(channel_sum(&data), 23204);
    assert!(within_budget(&data));
    data[30] = Color::new(255, 0, 0);
    assert_eq!(channel_sum(&data), 23205);
    assert!(!within_budget(&data));
}

#[test]
fn all_white_exceeds_budget() {
    assert!(!within_budget(&frame_of(Color::new(255, 255, 255))));
    assert!(within_budget(&frame_of(Color::new(255, 0, 0))));
}

#[test]
fn committing_white_halts_without_showing_it() {
    let mut tl = TrailerLight::new();
    assert_eq!(tl.color(Color::new(255, 255, 255)), Err(PowerExceeded));
    let cmds = tl.take_commands();
    assert_eq!(cmds.len(), NUM_LEDS + 2);
    assert_eq!(cmds[0], Command::Write(vec![Color::new(10, 0, 10)]));
    for i in 1..=NUM_LEDS {
        assert_eq!(cmds[i], Command::Write(vec![black()]));
    }
    assert_eq!(cmds[NUM_LEDS + 1], Command::Halt);
    assert!(frames(&cmds).iter().all(|f| f.len() == 1));
}

#[test]
fn black_always_commits() {
    let mut tl = TrailerLight::new();
    tl.black();
    assert_eq!(
        tl.take_commands(),
        vec![Command::Write(frame_of(black())), Command::DelayUs(500)]
    );
    assert_eq!(tl.pixels(), &frame_of(black())[..]);
}

#[test]
fn color_that_fits_is_shown() {
    let mut tl = TrailerLight::new();
    let grey = Color::new(40, 40, 40);
    assert_eq!(tl.color(grey), Ok(()));
    assert_eq!(
        tl.take_commands(),
        vec![Command::Write(frame_of(grey)), Command::DelayUs(500)]
    );
    assert_eq!(tl.pixels(), &frame_of(grey)[..]);
}

#[test]
fn new_strip_is_dark_and_quiet() {
    let mut tl = TrailerLight::new();
    assert_eq!(tl.pixels(), &frame_of(black())[..]);
    assert!(tl.take_commands().is_empty());
}

#[test]
fn take_commands_empties_queue() {
    let mut tl = TrailerLight::new();
    tl.delay_ms(42);
    assert_eq!(tl.take_commands(), vec![Command::DelayMs(42)]);
    assert!(tl.take_commands().is_empty());
}

#[test]
fn blink_on_dark_strip() {
    let mut tl = TrailerLight::new();
    assert_eq!(tl.blink(), Ok(()));
    let mut lit = frame_of(black());
    for i in 27..=30 {
        lit[i] = Color::new(10, 0, 0);
    }
    let once = vec![
        Command::Write(lit.clone()),
        Command::DelayUs(500),
        Command::DelayMs(500),
        Command::Write(frame_of(black())),
        Command::DelayUs(500),
        Command::DelayMs(500),
    ];
    let mut expected = Vec::new();
    for _ in 0..2 {
        for c in &once {
            expected.push(match c {
                Command::Write(f) => Command::Write(f.clone()),
                Command::DelayMs(m) => Command::DelayMs(*m),
                Command::DelayUs(u) => Command::DelayUs(*u),
                Command::Halt => Command::Halt,
            });
        }
    }
    assert_eq!(tl.take_commands(), expected);
    assert_eq!(tl.pixels(), &frame_of(black())[..]);
}

#[test]
fn blink_after_overload_fails() {
    let mut tl = TrailerLight::new();
    let _ = tl.color(Color::new(255, 255, 255));
    tl.take_commands();
    assert_eq!(tl.blink(), Err(PowerExceeded));
    let cmds = tl.take_commands();
    assert_eq!(cmds.last(), Some(&Command::Halt));
    assert_eq!(cmds.len(), NUM_LEDS + 2);
    // the lit frame is never sent
    assert_eq!(cmds[0], Command::Write(vec![Color::new(10, 0, 10)]));
    assert!(frames(&cmds).iter().all(|f| f.len() == 1));
    let mut lit = frame_of(Color::new(255, 255, 255));
    for i in 27..=30 {
        lit[i] = Color::new(10, 0, 0);
    }
    assert_eq!(tl.pixels(), &lit[..]);
}

#[test]
fn emergency_brake_flashes_five_times() {
    let mut tl = TrailerLight::new();
    tl.emergency_brake();
    let cmds = tl.take_commands();
    assert_eq!(cmds.len(), 30);
    for k in 0..5 {
        assert_eq!(cmds[6 * k], Command::Write(frame_of(Color::new(255, 0, 0))));
        assert_eq!(cmds[6 * k + 1], Command::DelayUs(500));
        assert_eq!(cmds[6 * k + 2], Command::DelayMs(100));
        assert_eq!(cmds[6 * k + 3], Command::Write(frame_of(black())));
        assert_eq!(cmds[6 * k + 4], Command::DelayUs(500));
        assert_eq!(cmds[6 * k + 5], Command::DelayMs(100));
    }
    assert_eq!(tl.pixels(), &frame_of(black())[..]);
}

#[test]
fn running_lights_end_on_top_tier() {
    let mut tl = TrailerLight::new();
    tl.turn_on_animation();
    let cmds = tl.take_commands();
    assert_eq!(cmds.len(), 3 * 270 * 2);
    assert_eq!(tl.pixels(), &frame_of(Color::new(60, 0, 0))[..]);
    let fs = frames(&cmds);
    assert_eq!(*fs[fs.len() - 1], frame_of(Color::new(60, 0, 0)));
}

#[test]
fn running_lights_floor_never_drops() {
    let mut tl = TrailerLight::new();
    tl.turn_on_animation();
    let cmds = tl.take_commands();
    let fs = frames(&cmds);
    assert_eq!(fs.len(), 3 * 270);
    let bases = [0u8, 10, 30];
    for (n, f) in fs.iter().enumerate() {
        let sweep = n / 270;
        assert_eq!(f.len(), NUM_LEDS);
        for i in 0..NUM_LEDS {
            assert!(f[i].r >= bases[sweep]);
            assert_eq!(f[i].g, 0);
            assert_eq!(f[i].b, 0);
        }
        assert!(within_budget(f));
    }
    // every pixel has reached the target tier by the end of each sweep
    let targets = [10u8, 30, 60];
    for sweep in 0..3 {
        let last = fs[270 * sweep + 269];
        assert_eq!(*last, frame_of(Color::new(targets[sweep], 0, 0)));
    }
}

#[test]
fn running_lights_are_mirrored() {
    let mut tl = TrailerLight::new();
    tl.turn_on_animation();
    let cmds = tl.take_commands();
    for f in frames(&cmds) {
        for i in 0..29 {
            assert_eq!(f[29 + i], f[28 - i]);
        }
    }
}

#[test]
fn run_show_sequence() {
    let mut tl = TrailerLight::new();
    tl.run_show();
    let cmds = tl.take_commands();
    assert_eq!(cmds.len(), 3 + 12 + 3 * 270 * 2);
    assert_eq!(cmds[0], Command::Write(frame_of(black())));
    assert_eq!(cmds[1], Command::DelayUs(500));
    assert_eq!(cmds[2], Command::DelayMs(500));
    assert_eq!(cmds[5], Command::DelayMs(500));
    assert!(cmds.iter().all(|c| *c != Command::Halt));
}

#[test]
fn running_lights_cover_the_whole_strip() {
    let mut tl = TrailerLight::new();
    assert_eq!(tl.color(Color::new(0, 0, 80)), Ok(()));
    tl.take_commands();
    tl.turn_on_animation();
    let cmds = tl.take_commands();
    for f in frames(&cmds) {
        assert!(f.iter().all(|c| c.b == 0));
    }
    assert_eq!(tl.pixels(), &frame_of(Color::new(60, 0, 0))[..]);
}

#[test]
fn second_frame_of_first_sweep() {
    let mut tl = TrailerLight::new();
    tl.running_light_sweep(0);
    let cmds = tl.take_commands();
    let fs = frames(&cmds);
    // highlight at -2.87 pixels: only the outer pixel of each half is touched
    let f = fs[1];
    assert_eq!(f[28], Color::new(1, 0, 0));
    assert_eq!(f[29], Color::new(1, 0, 0));
    assert_eq!(f[27], black());
    assert_eq!(f[30], black());
    assert_eq!(f[0], black());
    assert_eq!(f[57], black());
}

#[test]
fn each_sweep_ends_on_its_target_tier() {
    let mut tl = TrailerLight::new();
    for (k, t) in [10u8, 30, 60].iter().enumerate() {
        tl.running_light_sweep(k);
        assert_eq!(tl.take_commands().len(), 270 * 2);
        assert_eq!(tl.pixels(), &frame_of(Color::new(*t, 0, 0))[..]);
    }
}

#[test]
fn write_leds_on_black_strip_commits() {
    let mut tl = TrailerLight::new();
    assert_eq!(tl.write_leds(), Ok(()));
    assert_eq!(
        tl.take_commands(),
        vec![Command::Write(frame_of(black())), Command::DelayUs(500)]
    );
    assert_eq!(tl.pixels(), &frame_of(black())[..]);
}

#[test]
fn write_leds_on_white_strip_halts() {
    let mut tl = TrailerLight::new();
    let _ = tl.color(Color::new(255, 255, 255));
    tl.take_commands();
    assert_eq!(tl.write_leds(), Err(PowerExceeded));
    let cmds = tl.take_commands();
    assert_eq!(cmds.len(), NUM_LEDS + 2);
    assert_eq!(cmds[0], Command::Write(vec![Color::new(10, 0, 10)]));
    assert_eq!(cmds[NUM_LEDS + 1], Command::Halt);
    assert!(frames(&cmds).iter().all(|f| f.len() == 1));
}

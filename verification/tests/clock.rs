use quark_sim::clock::FrameClock;

#[test]
fn new_clock_starts_at_zero() {
    let c = FrameClock::new(16, 250);
    assert_eq!((c.dt, c.max_frame, c.t, c.accumulator), (16, 250, 0, 0));
}

#[test]
fn short_frame_is_banked() {
    let mut c = FrameClock::new(16, 250);
    assert_eq!(c.advance(10), 0);
    assert_eq!((c.t, c.accumulator), (0, 10));
    assert_eq!(c.advance(10), 1);
    assert_eq!((c.t, c.accumulator), (16, 4));
}

#[test]
fn long_frame_is_capped() {
    let mut c = FrameClock::new(10, 25);
    assert_eq!(c.advance(1_000), 2);
    assert_eq!((c.t, c.accumulator), (20, 5));
}

#[test]
fn zero_frame_pays_nothing() {
    let mut c = FrameClock::new(10, 25);
    assert_eq!(c.advance(0), 0);
    assert_eq!((c.t, c.accumulator), (0, 0));
}

#[test]
fn time_is_conserved_over_many_frames() {
    let dt: u128 = 16_666_666;
    let max: u128 = 250_000_000;
    let mut c = FrameClock::new(dt, max);
    let frames: [u128; 6] = [5_000_000, 40_000_000, 16_666_666, 900_000_000, 1, 33_333_333];
    let mut total: u128 = 0;
    let mut steps: u128 = 0;
    for f in frames {
        steps += c.advance(f);
        total += f.min(max);
        assert!(c.accumulator < dt);
        assert_eq!(c.t + c.accumulator, total);
        assert_eq!(c.t, steps * dt);
    }
}

#[test]
fn sixty_hertz_steps() {
    // 1/60 s steps and a 0.25 s cap, in nanoseconds.
    let mut c = FrameClock::new(16_666_667, 250_000_000);
    assert_eq!(c.advance(100_000_000), 5);
    assert_eq!(c.accumulator, 100_000_000 - 5 * 16_666_667);
}

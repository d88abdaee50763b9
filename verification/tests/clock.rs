use lolcat::clock::{expired, frame_at, tick, Frame, FRAME_INTERVAL_MS, FRAME_RATE};
use lolcat::opts::{Opts, Parameters};

fn animation(duration: u32, speed: u32) -> Parameters {
    let mut opts = Opts::defaults();
    opts.animate = true;
    opts.duration = duration;
    opts.speed = speed;
    opts.parameters()
}

#[test]
fn frames_come_at_a_fixed_rate() {
    assert_eq!(FRAME_RATE, 20);
    assert_eq!(FRAME_INTERVAL_MS, 50);
}

#[test]
fn phase_is_seconds_times_speed() {
    let p = animation(12, 20000);
    assert_eq!(tick(0, &p), 0);
    assert_eq!(tick(1000, &p), 20000);
    assert_eq!(tick(50, &p), 1000);
    assert_eq!(tick(1, &p), 20);
    assert_eq!(tick(2500, &animation(12, 1500)), 3750);
    assert_eq!(tick(999, &animation(12, 1)), 0);
    assert_eq!(tick(1000, &animation(12, 1)), 1);
}

#[test]
fn phase_is_zero_without_animation() {
    let still = Opts::defaults().parameters();
    assert_eq!(tick(0, &still), 0);
    assert_eq!(tick(123456, &still), 0);
}

#[test]
fn phase_never_runs_backwards() {
    let p = animation(0, 333);
    let mut last = 0;
    for elapsed in 0..5000u64 {
        let phase = tick(elapsed, &p);
        assert!(phase >= last);
        last = phase;
    }
}

#[test]
fn phase_stops_at_the_largest_number() {
    let p = animation(0, u32::MAX);
    assert_eq!(tick(u64::MAX, &p), u64::MAX);
    assert_eq!(tick(u64::MAX, &animation(0, 1000)), u64::MAX);
    assert_eq!(tick(u64::MAX, &animation(0, 1001)), u64::MAX);
    assert_eq!(tick(u64::MAX, &animation(0, 999)), 18428297329635842063);
}

#[test]
fn animation_expires_when_its_time_is_up() {
    let p = animation(12, 20000);
    assert!(!expired(0, &p));
    assert!(!expired(11999, &p));
    assert!(expired(12000, &p));
    assert!(expired(u64::MAX, &p));
    assert!(expired(u32::MAX as u64 * 1000, &animation(u32::MAX, 1)));
    assert!(!expired(u32::MAX as u64 * 1000 - 1, &animation(u32::MAX, 1)));
}

#[test]
fn animation_without_limit_never_expires() {
    let p = animation(0, 20000);
    assert!(!expired(0, &p));
    assert!(!expired(u64::MAX, &p));
}

#[test]
fn frame_is_drawn_until_the_time_is_up() {
    let p = animation(2, 20000);
    assert_eq!(frame_at(0, &p), Frame::Draw { phase: 0 });
    assert_eq!(frame_at(50, &p), Frame::Draw { phase: 1000 });
    assert_eq!(frame_at(1999, &p), Frame::Draw { phase: 39980 });
    assert_eq!(frame_at(2000, &p), Frame::Stop);
    assert_eq!(frame_at(u64::MAX, &animation(0, 1)), Frame::Draw { phase: 18446744073709551 });
}

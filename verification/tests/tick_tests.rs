use hexencer::text::{decimal_string, format_clock};
use hexencer::tick::Tick;

#[test]
fn beats_count_from_one_with_480_ticks_each() {
    assert_eq!(Tick(0).as_beat(), 1);
    assert_eq!(Tick(479).as_beat(), 1);
    assert_eq!(Tick(480).as_beat(), 2);
    assert_eq!(Tick(4800).as_beat(), 11);
}

#[test]
fn tick_moves_forward_and_reset_goes_back() {
    let mut t = Tick::zero();
    t.tick();
    t.tick();
    assert_eq!(t, Tick(2));
    t.reset();
    assert_eq!(t, Tick(0));
}

#[test]
fn offset_and_arithmetic() {
    assert_eq!(Tick(100).offset(20), Tick(120));
    assert_eq!(Tick(100) + Tick(5), Tick(105));
    assert_eq!(Tick(100) - Tick(5), Tick(95));
    let mut t = Tick(50);
    t.sub_assign(Tick(20));
    assert_eq!(t, Tick(30));
}

#[test]
fn as_u32_keeps_the_low_bits() {
    assert_eq!(Tick(7).as_u32(), 7);
    assert_eq!(Tick((1u64 << 32) + 5).as_u32(), 5);
}

#[test]
fn conversions_into_ticks() {
    assert_eq!(Tick::from(5u64), Tick(5));
    assert_eq!(Tick::from(6u32), Tick(6));
    assert_eq!(Tick::from(7usize), Tick(7));
    assert_eq!(Tick::from(8i32), Tick(8));
    assert_eq!(Tick::default(), Tick(0));
    assert!(Tick(3) < Tick(4));
}

#[test]
fn ticks_render_in_decimal() {
    assert_eq!(Tick(0).to_string(), "0");
    assert_eq!(Tick(1440).to_string(), "1440");
    assert_eq!(decimal_string(u64::MAX), u64::MAX.to_string());
    assert_eq!(decimal_string(10), "10");
}

#[test]
fn clock_reading_joins_parts_with_colons() {
    assert_eq!(format_clock(1, 5, 250), "1:5:250");
    assert_eq!(format_clock(0, 0, 0), "0:0:0");
}

#[test]
fn ticks_read_as_clock_time_at_120_bpm() {
    assert_eq!(Tick(0).as_time(), "0:0:0");
    assert_eq!(Tick(480).as_time(), "0:0:500");
    assert_eq!(Tick(960).as_time(), "0:1:0");
    assert_eq!(Tick(1000).as_time(), "0:1:41");
    assert_eq!(Tick(57600).as_time(), "1:0:0");
    assert_eq!(Tick(57600 * 2 + 960 * 3 + 24).as_time(), "2:3:25");
}

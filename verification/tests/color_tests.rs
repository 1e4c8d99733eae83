use raytracer::{Color, SCALE};

#[test]
fn full_red_packs_to_ff0000() {
    assert_eq!(Color::red().to_u32(), 0xFF0000);
}

#[test]
fn named_colours_hold_one_full_channel() {
    assert_eq!(Color::black(), Color { red: 0, green: 0, blue: 0 });
    assert_eq!(Color::red(), Color { red: SCALE, green: 0, blue: 0 });
    assert_eq!(Color::green(), Color { red: 0, green: SCALE, blue: 0 });
    assert_eq!(Color::blue(), Color { red: 0, green: 0, blue: SCALE });
    assert_eq!(Color::black().to_u32(), 0x000000);
    assert_eq!(Color::green().to_u32(), 0x00FF00);
    assert_eq!(Color::blue().to_u32(), 0x0000FF);
}

#[test]
fn channels_above_one_clamp_and_do_not_wrap() {
    let c = Color { red: 2 * SCALE, green: 3 * SCALE, blue: 0 };
    assert_eq!(c.to_u32(), 0xFFFF00);
    let huge = Color { red: i64::MAX, green: i64::MAX, blue: i64::MAX };
    assert_eq!(huge.to_u32(), 0xFFFFFF);
}

#[test]
fn channel_just_below_one_is_255() {
    // 9999 * 256 / 10000 = 255.97..
    assert_eq!(Color { red: SCALE - 1, green: 0, blue: 0 }.to_u32(), 0xFF0000);
    // 9960 * 256 / 10000 = 254.97..
    assert_eq!(Color { red: 9960, green: 0, blue: 0 }.to_u32(), 0xFE0000);
}

#[test]
fn half_channel_packs_to_128() {
    let c = Color { red: 5000, green: 2500, blue: 40 };
    // 5000 * 256 / 10000 = 128, 2500 * 256 / 10000 = 64, 40 * 256 / 10000 = 1.024
    assert_eq!(c.to_u32(), (128 << 16) + (64 << 8) + 1);
}

#[test]
fn negative_channel_packs_to_zero() {
    let c = Color { red: -1, green: -SCALE, blue: i64::MIN };
    assert_eq!(c.to_u32(), 0);
}

#[test]
fn addition_adds_channel_by_channel() {
    let a = Color { red: 1, green: 20, blue: 300 };
    let b = Color { red: 4000, green: 50000, blue: -600000 };
    assert_eq!(a + b, Color { red: 4001, green: 50020, blue: -599700 });
    let mut c = a;
    c.add_assign(b);
    assert_eq!(c, a + b);
}

#[test]
fn addition_stops_at_the_ends_of_the_range() {
    let top = Color { red: i64::MAX, green: i64::MIN, blue: 0 };
    let more = Color { red: 1, green: -1, blue: 0 };
    assert_eq!(top + more, Color { red: i64::MAX, green: i64::MIN, blue: 0 });
}

#[test]
fn multiplication_scales_each_channel() {
    let c = Color { red: SCALE, green: 5000, blue: -3 };
    // times 2.5
    assert_eq!(c * 25000, Color { red: 25000, green: 12500, blue: -8 });
    assert_eq!(c * 0, Color::black());
    assert_eq!(
        Color { red: i64::MAX, green: 0, blue: 0 } * i64::MAX,
        Color { red: i64::MAX, green: 0, blue: 0 }
    );
}

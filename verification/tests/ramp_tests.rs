use rainbow_lights::color::Rgb;
use rainbow_lights::error::LightsError;
use rainbow_lights::ramp::generate;
use rainbow_lights::topology::{live_pixels, Zone};

fn zone(head: usize, body: usize, tail: usize) -> Zone {
    Zone { head, body, tail, name: "test".to_string() }
}

#[test]
fn generate_zero_live_fails() {
    let zones: Vec<Zone> = vec![zone(2, 0, 3)];
    let r = generate(&zones, 150);
    assert_eq!(r, Err(LightsError::InvalidTopology));
}

#[test]
fn generate_no_zones_fails() {
    let zones: Vec<Zone> = vec![];
    let r = generate(&zones, 150);
    assert_eq!(r, Err(LightsError::InvalidTopology));
}

#[test]
fn generate_length_and_range() {
    // live = 12 is divisible by 6: one color per lit pixel, channels capped.
    let zones: Vec<Zone> = vec![zone(0, 5, 1), zone(2, 7, 0)];
    assert_eq!(live_pixels(&zones), 12);
    let buf = generate(&zones, 150).unwrap();
    assert_eq!(buf.len(), 12);
    for c in &buf {
        assert!(c.red <= 150 && c.green <= 150 && c.blue <= 150);
    }
}

#[test]
fn generate_exact_colors_single_pixel_segments() {
    // live = 6: one pixel per segment, step = round(150 / 1) = 150.
    let zones: Vec<Zone> = vec![zone(0, 6, 0)];
    let buf = generate(&zones, 150).unwrap();
    let expected = vec![
        Rgb { red: 150, green: 0, blue: 0 },
        Rgb { red: 150, green: 150, blue: 0 },
        Rgb { red: 0, green: 150, blue: 0 },
        Rgb { red: 0, green: 150, blue: 150 },
        Rgb { red: 0, green: 0, blue: 150 },
        Rgb { red: 150, green: 0, blue: 150 },
    ];
    assert_eq!(buf, expected);
}

#[test]
fn generate_exact_colors_two_pixel_segments() {
    // live = 12: segment length 2, step = round(150 / 2) = 75.
    let zones: Vec<Zone> = vec![zone(0, 12, 0)];
    let buf = generate(&zones, 150).unwrap();
    let expected = vec![
        Rgb { red: 150, green: 0, blue: 0 },
        Rgb { red: 150, green: 75, blue: 0 },
        Rgb { red: 150, green: 150, blue: 0 },
        Rgb { red: 75, green: 150, blue: 0 },
        Rgb { red: 0, green: 150, blue: 0 },
        Rgb { red: 0, green: 150, blue: 75 },
        Rgb { red: 0, green: 150, blue: 150 },
        Rgb { red: 0, green: 75, blue: 150 },
        Rgb { red: 0, green: 0, blue: 150 },
        Rgb { red: 75, green: 0, blue: 150 },
        Rgb { red: 150, green: 0, blue: 150 },
        Rgb { red: 150, green: 0, blue: 75 },
    ];
    assert_eq!(buf, expected);
}

#[test]
fn generate_rounded_step_saturates() {
    // live = 24: segment length 4, step = round(150 / 4) = 38; three
    // increments reach 114, the fourth would reach 152 and saturates at the
    // segment boundary reset.
    let zones: Vec<Zone> = vec![zone(0, 24, 0)];
    let buf = generate(&zones, 150).unwrap();
    assert_eq!(buf[0], Rgb { red: 150, green: 0, blue: 0 });
    assert_eq!(buf[1], Rgb { red: 150, green: 38, blue: 0 });
    assert_eq!(buf[2], Rgb { red: 150, green: 76, blue: 0 });
    assert_eq!(buf[3], Rgb { red: 150, green: 114, blue: 0 });
    // start of the next segment: the ramped channel lands exactly on max.
    assert_eq!(buf[4], Rgb { red: 150, green: 150, blue: 0 });
    assert_eq!(buf[5], Rgb { red: 112, green: 150, blue: 0 });
}

#[test]
fn generate_remainder_pixels_dropped() {
    // live = 7: only one full segment of length 1 fits per phase; the
    // remainder pixel is dropped from the ramp by design.
    let zones: Vec<Zone> = vec![zone(0, 7, 0)];
    let buf = generate(&zones, 150).unwrap();
    assert_eq!(buf.len(), 6);
}

#[test]
fn generate_tiny_live_gives_empty_ramp() {
    // live = 5 has no full segment at all: the ramp is empty but generation
    // does not fail, since the topology has lit pixels.
    let zones: Vec<Zone> = vec![zone(0, 5, 0)];
    let buf = generate(&zones, 150).unwrap();
    assert_eq!(buf.len(), 0);
}

#[test]
fn generate_deterministic() {
    let zones: Vec<Zone> = vec![zone(0, 44, 3), zone(2, 91, 3), zone(2, 43, 0)];
    let a = generate(&zones, 150).unwrap();
    let b = generate(&zones, 150).unwrap();
    assert_eq!(a, b);
}

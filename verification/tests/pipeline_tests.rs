use rainbow_lights::color::Rgb;
use rainbow_lights::error::LightsError;
use rainbow_lights::packer::pack;
use rainbow_lights::pipeline::tick;
use rainbow_lights::ramp::generate;
use rainbow_lights::topology::Zone;

fn zone(head: usize, body: usize, tail: usize) -> Zone {
    Zone { head, body, tail, name: "test".to_string() }
}

#[test]
fn tick_packs_current_frame_and_rotates() {
    let zones = vec![zone(1, 6, 1)];
    let mut buf = generate(&zones, 150).unwrap();
    let before = buf.clone();
    let packed_before = pack(&before, &zones, 512).unwrap();

    let universes = tick(&mut buf, &zones, 512).unwrap();
    assert_eq!(universes, packed_before);

    let mut expected = before.clone();
    let last = expected.pop().unwrap();
    expected.insert(0, last);
    assert_eq!(buf, expected);
}

#[test]
fn tick_mismatch_leaves_buffer_untouched() {
    let zones = vec![zone(0, 10, 0)];
    let mut buf = vec![Rgb { red: 1, green: 2, blue: 3 }];
    let before = buf.clone();
    let r = tick(&mut buf, &zones, 512);
    assert_eq!(r, Err(LightsError::TopologyMismatch));
    assert_eq!(buf, before);
}

#[test]
fn two_ticks_rotate_twice() {
    let zones = vec![zone(0, 6, 0)];
    let mut buf = generate(&zones, 150).unwrap();
    let original = buf.clone();
    tick(&mut buf, &zones, 512).unwrap();
    tick(&mut buf, &zones, 512).unwrap();
    // after two single-step rotations the last two colors lead the buffer
    let mut expected: Vec<Rgb> = original[4..].to_vec();
    expected.extend_from_slice(&original[..4]);
    assert_eq!(buf, expected);
}

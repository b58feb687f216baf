use rainbow_lights::animator::rotate;
use rainbow_lights::color::Rgb;

fn c(red: u8, green: u8, blue: u8) -> Rgb {
    Rgb { red, green, blue }
}

#[test]
fn rotate_moves_last_to_front() {
    let mut buf = vec![c(1, 0, 0), c(2, 0, 0), c(3, 0, 0), c(4, 0, 0)];
    rotate(&mut buf, 1);
    assert_eq!(buf, vec![c(4, 0, 0), c(1, 0, 0), c(2, 0, 0), c(3, 0, 0)]);
}

#[test]
fn rotate_by_several() {
    let mut buf = vec![c(1, 0, 0), c(2, 0, 0), c(3, 0, 0), c(4, 0, 0), c(5, 0, 0)];
    rotate(&mut buf, 2);
    assert_eq!(
        buf,
        vec![c(4, 0, 0), c(5, 0, 0), c(1, 0, 0), c(2, 0, 0), c(3, 0, 0)]
    );
}

#[test]
fn rotate_by_zero_keeps_buffer() {
    let mut buf = vec![c(1, 2, 3), c(4, 5, 6)];
    rotate(&mut buf, 0);
    assert_eq!(buf, vec![c(1, 2, 3), c(4, 5, 6)]);
}

#[test]
fn rotate_full_cycle_restores_order() {
    let original = vec![c(9, 0, 0), c(8, 1, 0), c(7, 2, 1), c(6, 3, 2), c(5, 4, 3)];
    let mut buf = original.clone();
    for _ in 0..original.len() {
        rotate(&mut buf, 1);
    }
    assert_eq!(buf, original);
}

#[test]
fn rotate_preserves_color_multiset() {
    let original = vec![c(1, 1, 1), c(2, 2, 2), c(1, 1, 1), c(3, 3, 3)];
    let mut buf = original.clone();
    rotate(&mut buf, 1);
    let mut before: Vec<(u8, u8, u8)> = original.iter().map(|x| (x.red, x.green, x.blue)).collect();
    let mut after: Vec<(u8, u8, u8)> = buf.iter().map(|x| (x.red, x.green, x.blue)).collect();
    before.sort();
    after.sort();
    assert_eq!(before, after);
}

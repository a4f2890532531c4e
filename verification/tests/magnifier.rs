use windows_magnifier::config::{Action, UNIT};
use windows_magnifier::magnifier::{Effect, Magnifier, Transform, DEAD_ZONE_DIVISOR};

fn at(factor: i64) -> Magnifier {
    let mut m = Magnifier::new();
    m.set(factor);
    m
}

fn thousandths(factor: f64) -> i64 {
    (factor * 1000.0).round() as i64
}

#[test]
fn starts_unmagnified() {
    assert_eq!(Magnifier::new().factor(), 1000);
    assert_eq!(UNIT, 1000);
    assert_eq!(DEAD_ZONE_DIVISOR, 10);
}

#[test]
fn set_takes_the_factor_as_it_is() {
    let mut m = Magnifier::new();
    m.set(2500);
    assert_eq!(m.factor(), 2500);
    m.set(1000);
    assert_eq!(m.factor(), 1000);
    assert_eq!(m.do_action(&Action::SetTo(4000)), Effect::Recompute);
    assert_eq!(m.factor(), 4000);
}

#[test]
fn toggle_flips_between_one_and_the_factor() {
    let mut m = Magnifier::new();
    assert_eq!(m.do_action(&Action::Toggle(thousandths(3.0))), Effect::Recompute);
    assert_eq!(m.factor(), thousandths(3.0));
    assert_eq!(m.do_action(&Action::Toggle(thousandths(3.0))), Effect::Recompute);
    assert_eq!(m.factor(), thousandths(1.0));
}

#[test]
fn toggle_remembers_nothing() {
    let mut m = Magnifier::new();
    m.toggle(3000);
    m.add(500);
    m.set(2000);
    m.toggle(3000);
    assert_eq!(m.factor(), 1000);
    m.toggle(5000);
    assert_eq!(m.factor(), 5000);
    m.toggle(3000);
    assert_eq!(m.factor(), 1000);
    m.add(250);
    m.add(-250);
    m.toggle(3000);
    assert_eq!(m.factor(), 3000);
}

#[test]
fn toggle_to_one_stays_at_one() {
    let mut m = Magnifier::new();
    m.toggle(1000);
    assert_eq!(m.factor(), 1000);
    m.toggle(1000);
    assert_eq!(m.factor(), 1000);
}

#[test]
fn add_never_goes_below_one() {
    let mut m = at(thousandths(1.2));
    assert_eq!(m.do_action(&Action::Add(thousandths(-5.0))), Effect::Recompute);
    assert_eq!(m.factor(), thousandths(1.0));
    m.add(i64::MIN);
    assert_eq!(m.factor(), 1000);
    m.add(-1);
    assert_eq!(m.factor(), 1000);
}

#[test]
fn add_sums() {
    let mut m = Magnifier::new();
    m.add(250);
    assert_eq!(m.factor(), 1250);
    m.add(250);
    assert_eq!(m.factor(), 1500);
    m.add(-300);
    assert_eq!(m.factor(), 1200);
    m.add(-200);
    assert_eq!(m.factor(), 1000);
    m.add(0);
    assert_eq!(m.factor(), 1000);
}

#[test]
fn add_holds_at_the_largest_factor() {
    let mut m = at(i64::MAX - 5);
    m.add(10);
    assert_eq!(m.factor(), i64::MAX);
    m.add(i64::MAX);
    assert_eq!(m.factor(), i64::MAX);
    m.add(-1);
    assert_eq!(m.factor(), i64::MAX - 1);
}

#[test]
fn exit_leaves_the_factor() {
    let mut m = at(2000);
    assert_eq!(m.do_action(&Action::Exit), Effect::Exit);
    assert_eq!(m.factor(), 2000);
}

#[test]
fn transform_at_the_corners_and_the_centre() {
    let m = at(thousandths(2.0));
    let t = m.update(0, 0, 1920, 1080);
    assert_eq!((t.x, t.y), (0, 0));
    let t = m.update(1920, 1080, 1920, 1080);
    assert_eq!((t.x, t.y), (960, 540));
    let t = m.update(960, 540, 1920, 1080);
    assert_eq!((t.x, t.y), (480, 270));
    assert_eq!(
        t,
        Transform { factor: 2000, x: 480, y: 270, width: 960, height: 540, right: 1440, bottom: 810 }
    );
}

#[test]
fn transform_saturates_in_the_dead_zones() {
    let m = at(2000);
    assert_eq!(m.update(192, 108, 1920, 1080).x, 0);
    assert_eq!(m.update(192, 108, 1920, 1080).y, 0);
    assert_eq!(m.update(100, 50, 1920, 1080).x, 0);
    assert_eq!(m.update(1728, 972, 1920, 1080).x, 960);
    assert_eq!(m.update(1728, 972, 1920, 1080).y, 540);
    assert_eq!(m.update(1800, 1000, 1920, 1080).x, 960);
    assert_eq!(m.update(-500, -500, 1920, 1080).x, 0);
    assert_eq!(m.update(-500, -500, 1920, 1080).y, 0);
    assert_eq!(m.update(i32::MAX, i32::MAX, 1920, 1080).x, 960);
    assert_eq!(m.update(i32::MIN, i32::MIN, 1920, 1080).y, 0);
}

#[test]
fn transform_is_linear_between_the_dead_zones() {
    let m = at(2000);
    // (10 * 576 - 1920) * 1000 / 16000
    assert_eq!(m.update(576, 0, 1920, 1080).x, 240);
    assert_eq!(m.update(1344, 0, 1920, 1080).x, 720);
    // (10 * 193 - 1920) * 1000 / 16000, rounded down
    assert_eq!(m.update(193, 0, 1920, 1080).x, 0);
    assert_eq!(m.update(194, 0, 1920, 1080).x, 1);
    assert_eq!(m.update(1727, 0, 1920, 1080).x, 959);
}

#[test]
fn transform_rounds_down() {
    let m = at(3000);
    let t = m.update(500, 500, 1000, 1000);
    // reach 666, centre (5000 - 1000) * 2000 / 24000
    assert_eq!(t.x, 333);
    assert_eq!(t.width, 333);
    assert_eq!(m.update(1000, 0, 1000, 1000).x, 666);
    let m = at(1500);
    let t = m.update(640, 400, 1280, 800);
    // (6400 - 1280) * 500 / 12000, (4000 - 800) * 500 / 12000
    assert_eq!((t.x, t.y), (213, 133));
    assert_eq!((t.width, t.height), (853, 533));
}

#[test]
fn transform_unmagnified_is_the_whole_screen() {
    let m = Magnifier::new();
    for &(x, y) in &[(0, 0), (960, 540), (1920, 1080), (-7, 5000)] {
        let t = m.update(x, y, 1920, 1080);
        assert_eq!(
            t,
            Transform { factor: 1000, x: 0, y: 0, width: 1920, height: 1080, right: 1920, bottom: 1080 }
        );
    }
}

#[test]
fn transform_stays_inside_the_screen() {
    for &factor in &[1000i64, 1001, 1500, 2000, 3000, 7777, 1_000_000, i64::MAX] {
        let m = at(factor);
        for &(w, h) in &[(1920, 1080), (1, 1), (0, 0), (i32::MAX, i32::MAX), (3, 7)] {
            for &(x, y) in &[(0, 0), (w / 2, h / 2), (w, h), (-3, h + 9), (i32::MAX, i32::MIN)] {
                let t = m.update(x, y, w, h);
                assert!(0 <= t.x && t.x as i64 + t.width as i64 <= w as i64);
                assert!(0 <= t.y && t.y as i64 + t.height as i64 <= h as i64);
                assert!(t.width >= 0 && t.height >= 0);
                assert_eq!(t.right as i64, t.x as i64 + t.width as i64);
                assert_eq!(t.bottom as i64, t.y as i64 + t.height as i64);
                assert_eq!(t.factor, factor);
            }
        }
    }
}

#[test]
fn transform_of_an_empty_or_negative_screen() {
    let m = at(2000);
    let t = m.update(5, 5, 0, 0);
    assert_eq!(
        t,
        Transform { factor: 2000, x: 0, y: 0, width: 0, height: 0, right: 0, bottom: 0 }
    );
    let t = m.update(5, -5, -100, -7);
    assert_eq!(
        t,
        Transform { factor: 2000, x: 0, y: 0, width: -50, height: -3, right: -50, bottom: -3 }
    );
    let t = at(1000).update(0, 0, i32::MIN, i32::MIN);
    assert_eq!((t.x, t.y, t.width, t.height), (0, 0, i32::MIN, i32::MIN));
    assert_eq!((t.right, t.bottom), (i32::MIN, i32::MIN));
}

#[test]
fn transform_at_the_largest_factor() {
    let m = at(i64::MAX);
    let t = m.update(i32::MAX, i32::MAX / 2, i32::MAX, i32::MAX);
    assert_eq!(t.x, i32::MAX - 1);
    assert_eq!(t.width, 0);
    assert_eq!(t.height, 0);
    assert!(t.y > 0 && t.y < t.x);
}

#[test]
fn update_leaves_the_state() {
    let m = at(2000);
    let _ = m.update(1, 2, 3, 4);
    assert_eq!(m.factor(), 2000);
}

#[test]
fn opposite_sides_are_the_corner_plus_the_size() {
    let t = at(2000).update(1920, 0, 1920, 1080);
    assert_eq!((t.x, t.y, t.right, t.bottom), (960, 0, 1920, 540));
    let t = at(3000).update(500, 1000, 1000, 1000);
    assert_eq!((t.x, t.y, t.right, t.bottom), (333, 666, 666, 999));
    let t = at(1000).update(7, 7, i32::MAX, i32::MAX);
    assert_eq!((t.x, t.y, t.right, t.bottom), (0, 0, i32::MAX, i32::MAX));
}

use windows_magnifier::combination::{Button, Combination, Modifiers, KEY_0, KEY_A, KEY_F1};
use windows_magnifier::error::ErrorKind;

fn held(ctrl: bool, alt: bool, shift: bool, win: bool) -> Modifiers {
    Modifiers { ctrl, alt, shift, win, no_repeat: true }
}

fn none() -> Modifiers {
    held(false, false, false, false)
}

fn key(modifiers: Modifiers, key: u32) -> Result<Combination, ErrorKind> {
    Ok(Combination::Key { modifiers, key })
}

fn button(modifiers: Modifiers, button: Button, extra: i32) -> Result<Combination, ErrorKind> {
    Ok(Combination::Button { modifiers, button, extra })
}

#[test]
fn digits_are_keys() {
    let digits = ["0", "1", "2", "3", "4", "5", "6", "7", "8", "9"];
    for (i, d) in digits.iter().enumerate() {
        assert_eq!(Combination::parse(d), key(none(), 0x30 + i as u32));
    }
    assert_eq!(KEY_0, 0x30);
}

#[test]
fn upper_case_letters_are_keys() {
    assert_eq!(Combination::parse("A"), key(none(), 0x41));
    assert_eq!(Combination::parse("M"), key(none(), 0x4D));
    assert_eq!(Combination::parse("Z"), key(none(), 0x5A));
    assert_eq!(KEY_A, 0x41);
}

#[test]
fn function_keys_one_to_nine() {
    assert_eq!(Combination::parse("F1"), key(none(), 0x70));
    assert_eq!(Combination::parse("F5"), key(none(), 0x74));
    assert_eq!(Combination::parse("F9"), key(none(), 0x78));
    assert_eq!(KEY_F1, 0x70);
}

#[test]
fn function_keys_ten_to_twelve() {
    assert_eq!(Combination::parse("F10"), key(none(), 0x79));
    assert_eq!(Combination::parse("F11"), key(none(), 0x7A));
    assert_eq!(Combination::parse("F12"), key(none(), 0x7B));
}

#[test]
fn function_keys_past_twelve_are_invalid_keys() {
    assert_eq!(Combination::parse("F13"), Err(ErrorKind::InvalidKey));
    assert_eq!(Combination::parse("F19"), Err(ErrorKind::InvalidKey));
    assert_eq!(Combination::parse("F1x"), Err(ErrorKind::InvalidKey));
    assert_eq!(Combination::parse("C-F1-"), Err(ErrorKind::InvalidModifier));
}

#[test]
fn pointer_buttons_by_name() {
    assert_eq!(Combination::parse("Left"), button(none(), Button::Left, 0));
    assert_eq!(Combination::parse("Right"), button(none(), Button::Right, 0));
    assert_eq!(Combination::parse("Middle"), button(none(), Button::Middle, 0));
    assert_eq!(Combination::parse("WheelUp"), button(none(), Button::WheelVertical, 0));
    assert_eq!(Combination::parse("WheelDown"), button(none(), Button::WheelVertical, 1));
    assert_eq!(Combination::parse("WheelRight"), button(none(), Button::WheelHorizontal, 0));
    assert_eq!(Combination::parse("WheelLeft"), button(none(), Button::WheelHorizontal, 1));
    assert_eq!(Combination::parse("Side1"), button(none(), Button::Side, 0));
    assert_eq!(Combination::parse("Side2"), button(none(), Button::Side, 1));
}

#[test]
fn unknown_targets_are_invalid_buttons() {
    assert_eq!(Combination::parse("left"), Err(ErrorKind::InvalidButton));
    assert_eq!(Combination::parse("Lef"), Err(ErrorKind::InvalidButton));
    assert_eq!(Combination::parse("Leftt"), Err(ErrorKind::InvalidButton));
    assert_eq!(Combination::parse("a"), Err(ErrorKind::InvalidButton));
    assert_eq!(Combination::parse("10"), Err(ErrorKind::InvalidButton));
    assert_eq!(Combination::parse("F0"), Err(ErrorKind::InvalidButton));
    assert_eq!(Combination::parse("F"), key(none(), 0x46));
    assert_eq!(Combination::parse("Side3"), Err(ErrorKind::InvalidButton));
    assert_eq!(Combination::parse("\u{e9}"), Err(ErrorKind::InvalidButton));
    assert_eq!(Combination::parse("F100"), Err(ErrorKind::InvalidButton));
}

#[test]
fn each_modifier_letter() {
    assert_eq!(Combination::parse("C-A"), key(held(true, false, false, false), 0x41));
    assert_eq!(Combination::parse("M-A"), key(held(false, true, false, false), 0x41));
    assert_eq!(Combination::parse("S-A"), key(held(false, false, true, false), 0x41));
    assert_eq!(Combination::parse("W-A"), key(held(false, false, false, true), 0x41));
}

#[test]
fn modifiers_combine_in_any_order() {
    let all = held(true, true, true, true);
    assert_eq!(Combination::parse("C-M-S-W-Left"), button(all, Button::Left, 0));
    assert_eq!(Combination::parse("W-S-M-C-Left"), button(all, Button::Left, 0));
    assert_eq!(
        Combination::parse("S-C-F11"),
        key(held(true, false, true, false), 0x7A)
    );
    assert_eq!(Combination::parse("C-C-A"), Combination::parse("C-A"));
}

#[test]
fn last_segment_is_the_target_whatever_it_looks_like() {
    assert_eq!(Combination::parse("C"), key(none(), 0x43));
    assert_eq!(Combination::parse("S-M"), key(held(false, false, true, false), 0x4D));
    assert_eq!(Combination::parse("C-C"), key(held(true, false, false, false), 0x43));
}

#[test]
fn unknown_modifiers_are_invalid() {
    assert_eq!(Combination::parse("X-A"), Err(ErrorKind::InvalidModifier));
    assert_eq!(Combination::parse("c-A"), Err(ErrorKind::InvalidModifier));
    assert_eq!(Combination::parse("CM-A"), Err(ErrorKind::InvalidModifier));
    assert_eq!(Combination::parse("-A"), Err(ErrorKind::InvalidModifier));
    assert_eq!(Combination::parse("C--A"), Err(ErrorKind::InvalidModifier));
    assert_eq!(Combination::parse("-"), Err(ErrorKind::InvalidModifier));
    assert_eq!(Combination::parse("Left-A"), Err(ErrorKind::InvalidModifier));
}

#[test]
fn modifier_is_checked_before_the_target() {
    assert_eq!(Combination::parse("X-F13"), Err(ErrorKind::InvalidModifier));
    assert_eq!(Combination::parse("X-nothing"), Err(ErrorKind::InvalidModifier));
    assert_eq!(Combination::parse("C-F13"), Err(ErrorKind::InvalidKey));
    assert_eq!(Combination::parse("C-nothing"), Err(ErrorKind::InvalidButton));
}

#[test]
fn empty_description_is_an_invalid_combination() {
    assert_eq!(Combination::parse(""), Err(ErrorKind::InvalidCombination));
}

#[test]
fn empty_target_is_an_invalid_button() {
    assert_eq!(Combination::parse("C-"), Err(ErrorKind::InvalidButton));
    assert_eq!(Combination::parse("C-S-"), Err(ErrorKind::InvalidButton));
}

#[test]
fn every_combination_carries_no_repeat() {
    for spec in ["A", "C-A", "Left", "C-M-S-W-WheelDown", "F12"] {
        match Combination::parse(spec) {
            Ok(Combination::Key { modifiers, .. }) => assert!(modifiers.no_repeat),
            Ok(Combination::Button { modifiers, .. }) => assert!(modifiers.no_repeat),
            Err(kind) => panic!("{} was refused: {:?}", spec, kind),
        }
    }
    assert!(Modifiers::new(false, true, false, true).no_repeat);
    assert_eq!(Modifiers::new(true, false, true, false), held(true, false, true, false));
}

#[test]
fn combinations_are_equal_by_structure() {
    let a = Combination::parse("C-Left").unwrap();
    let b = Combination::parse("C-C-Left").unwrap();
    assert_eq!(a, b);
    assert_ne!(a, Combination::parse("S-Left").unwrap());
    assert_ne!(a, Combination::parse("C-Right").unwrap());
    assert_ne!(
        Combination::parse("WheelUp").unwrap(),
        Combination::parse("WheelDown").unwrap()
    );
    assert_ne!(
        Combination::parse("Side1").unwrap(),
        Combination::parse("Side2").unwrap()
    );
}

//! Behaviour of the name-increment operation on integers and strings.

use hashmap_settings::account::Incrementable;

#[test]
fn i32_overflow() {
    let mut max = i32::MAX;
    max.increment_mut();
    assert_eq!(max, i32::MIN);
}

#[test]
fn u32_overflow() {
    let mut max = i32::MAX;
    max.increment_mut();
    assert_eq!(max, i32::MIN);
}

#[test]
fn empty_string() {
    let mut string: String = String::new();
    string.increment_mut();
    assert_eq!(string, "(1)");
}

#[test]
fn normal_string() {
    let mut string: String = "normal".to_string();
    string.increment_mut();
    assert_eq!(string, "normal(1)");
}

#[test]
fn incremented_string() {
    let mut string: String = "incremented(1)".to_string();
    string.increment_mut();
    assert_eq!(string, "incremented(2)");
}

#[test]
fn parenthesis_string() {
    let mut string: String = "(parenthesis(1)".to_string();
    string.increment_mut();
    assert_eq!(string, "(parenthesis(2)");
}

#[test]
fn nine_string() {
    let mut string: String = "nine(9)".to_string();
    string.increment_mut();
    assert_eq!(string, "nine(10)");
}

#[test]
fn increment_keeps_original() {
    let number = 13_i32;
    assert_eq!(number.increment(), 14);
    assert_eq!(number, 13);
}

#[test]
fn unsigned_wraparound() {
    let mut max = u32::MAX;
    max.increment_mut();
    assert_eq!(max, 0);
    assert_eq!(255_u8.increment(), 0);
    assert_eq!(u64::MAX.increment(), 0);
}

#[test]
fn long_counter_string() {
    assert_eq!("item(99)".to_string().increment(), "item(100)");
    assert_eq!("(7)".to_string().increment(), "(8)");
    assert_eq!("weird)".to_string().increment(), "weird)(1)");
    assert_eq!("open(12".to_string().increment(), "open(12(1)");
}

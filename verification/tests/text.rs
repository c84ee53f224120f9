use enaa::text::{chars_of, push_decimal};

#[test]
fn chars_of_gives_the_characters_in_order() {
    assert_eq!(chars_of(""), Vec::<char>::new());
    assert_eq!(chars_of("abc"), vec!['a', 'b', 'c']);
    assert_eq!(chars_of("é€\u{10FFFF}"), vec!['é', '€', '\u{10FFFF}']);
}

#[test]
fn push_decimal_appends_the_digits() {
    let mut text = String::from("n = ");
    push_decimal(&mut text, 0);
    assert_eq!(text, "n = 0");
    push_decimal(&mut text, 9);
    push_decimal(&mut text, 10);
    assert_eq!(text, "n = 0910");
    let mut text = String::new();
    push_decimal(&mut text, 1234567890);
    assert_eq!(text, "1234567890");
    let mut text = String::new();
    push_decimal(&mut text, u32::MAX);
    assert_eq!(text, "4294967295");
}

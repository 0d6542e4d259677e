use myu::text::chars_of;
use myu::text::compare;
use myu::text::failure_text;
use myu::text::read_number;
use myu::text::skip_spaces;
use myu::text::space;
use myu::text::string_of;
use myu::text::Order;

#[test]
fn white_space_is_that_of_unicode() {
    for code in 0..=0x10ffff_u32 {
        if let Some(c) = char::from_u32(code) {
            assert_eq!(space(c), c.is_whitespace(), "U+{:04X}", code);
        }
    }
}

#[test]
fn texts_are_ordered_as_in_the_dictionary() {
    let words = ["", "a", "aa", "ab", "b", "ba", "tau", "taut", "\u{e9}", "z\u{0}"];
    for a in words {
        for b in words {
            let expected = if a < b {
                1
            } else if a == b {
                2
            } else {
                3
            };
            let found = match compare(&chars_of(a), &chars_of(b)) {
                Order::Before => 1,
                Order::Same => 2,
                Order::After => 3,
            };
            assert_eq!(found, expected, "{:?} and {:?}", a, b);
        }
    }
}

#[test]
fn characters_and_strings() {
    let v = chars_of("a\u{e9}\u{1f600}b");
    assert_eq!(v, vec!['a', '\u{e9}', '\u{1f600}', 'b']);
    assert_eq!(string_of(&v, 1, 3), "\u{e9}\u{1f600}");
    assert_eq!(string_of(&v, 2, 2), "");
    assert_eq!(string_of(&v, 0, 4), "a\u{e9}\u{1f600}b");
}

#[test]
fn numbers_are_read() {
    let read = |s: &str, at: usize| read_number(&chars_of(s), at);
    assert_eq!(read("0", 0), Some((0, 1)));
    assert_eq!(read("007x", 0), Some((7, 3)));
    assert_eq!(read("a123,", 1), Some((123, 4)));
    assert_eq!(read("4294967295", 0), Some((4294967295, 10)));
    assert_eq!(read("4294967296", 0), None);
    assert_eq!(read("99999999999999999999", 0), None);
    assert_eq!(read("", 0), None);
    assert_eq!(read("x1", 0), None);
    assert_eq!(read("+1", 0), None);
    assert_eq!(read("12", 2), None);
}

#[test]
fn white_space_is_skipped() {
    let v = chars_of("  \t\n x  ");
    assert_eq!(skip_spaces(&v, 0), 5);
    assert_eq!(skip_spaces(&v, 5), 5);
    assert_eq!(skip_spaces(&v, 6), 8);
    assert_eq!(skip_spaces(&v, 8), 8);
}

#[test]
fn failures_are_put_in_words() {
    assert_eq!(failure_text("an edge", 0), "expected an edge at offset 0");
    assert_eq!(failure_text("a formula", 9), "expected a formula at offset 9");
    assert_eq!(failure_text("x", 1203), "expected x at offset 1203");
    assert_eq!(
        failure_text("", usize::MAX),
        format!("expected  at offset {}", usize::MAX)
    );
}

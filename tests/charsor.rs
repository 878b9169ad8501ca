use dungers::Charsor;
use std::ops::Range;

const INPUT: &str = "こんにちは";
const INPUT_CHARS: &[char] = &['こ', 'ん', 'に', 'ち', 'は'];

#[test]
fn test_peek() {
    let mut cc = Charsor::new(INPUT);
    assert_eq!(cc.peek(), Some(INPUT_CHARS[0]));
    assert_eq!(cc.next(), Some(INPUT_CHARS[0]));
}

#[test]
fn test_next() {
    let mut cc = Charsor::new(INPUT);
    for ch in INPUT_CHARS.iter().cloned() {
        assert_eq!(cc.next(), Some(ch));
    }
}

#[test]
fn test_prev() {
    let mut cc = Charsor::new(INPUT);
    assert_eq!(cc.prev(), None);
    assert_eq!(cc.next(), Some(INPUT_CHARS[0]));
    assert_eq!(cc.prev(), Some(INPUT_CHARS[0]));
}

#[test]
fn test_eat_while() {
    const PREFIX: &str = "    ";
    let input = format!("{PREFIX}{INPUT}");
    let mut cc = Charsor::new(&input);
    cc.eat_while(|ch| ch.is_whitespace());
    assert_eq!(cc.offset(), PREFIX.len());
}

#[test]
fn test_offset() {
    let mut cc = Charsor::new(INPUT);
    let _ = cc.next();
    assert_eq!(cc.offset(), INPUT_CHARS[0].len_utf8());
    let _ = cc.next();
    assert_eq!(
        cc.offset(),
        INPUT_CHARS[0].len_utf8() + INPUT_CHARS[1].len_utf8()
    );
}

#[test]
fn test_prev_offset() {
    let mut cc = Charsor::new(INPUT);
    assert_eq!(cc.prev_offset(), 0);
    let _ = cc.next();
    assert_eq!(cc.prev_offset(), 0);
    let _ = cc.next();
    assert_eq!(cc.prev_offset(), INPUT_CHARS[0].len_utf8());
}

#[test]
fn test_slice_range() {
    let cc = Charsor::new(INPUT);
    let range = Range {
        start: 0,
        end: INPUT_CHARS[0].len_utf8(),
    };
    assert_eq!(cc.slice_range(range), INPUT_CHARS[0].to_string());
}

#[test]
fn mixed_widths_and_end_of_input() {
    let mut cc = Charsor::new("a\u{e9}\u{20ac}\u{1f600}");
    assert_eq!(cc.eat_while(|c| c.is_ascii()), 1);
    assert_eq!(cc.offset(), 1);
    assert_eq!(cc.next(), Some('\u{e9}'));
    assert_eq!(cc.offset(), 3);
    assert_eq!(cc.next(), Some('\u{20ac}'));
    assert_eq!(cc.prev_offset(), 3);
    assert_eq!(cc.offset(), 6);
    assert_eq!(cc.eat_while(|_| true), 1);
    assert_eq!(cc.offset(), 10);
    assert_eq!(cc.peek(), None);
    assert_eq!(cc.next(), None);
    assert_eq!(cc.prev(), Some('\u{1f600}'));
    assert_eq!(cc.prev_offset(), 6);
    assert_eq!(cc.slice_range(3..10), "\u{20ac}\u{1f600}");
}

#[test]
fn empty_input() {
    let mut cc = Charsor::new("");
    assert_eq!(cc.peek(), None);
    assert_eq!(cc.prev(), None);
    assert_eq!(cc.eat_while(|_| true), 0);
    assert_eq!(cc.offset(), 0);
    assert_eq!(cc.prev_offset(), 0);
    assert_eq!(cc.slice_range(0..0), "");
}

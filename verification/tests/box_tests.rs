use xob::control_backspace;
use xob::subtract_wrap;
use xob::xob::{boxify, colorize, TextPosition};

fn backspaced(s: &str) -> String {
    let mut v: Vec<char> = s.chars().collect();
    control_backspace(&mut v);
    v.into_iter().collect()
}

#[test]
fn subtract_wrap_steps_back_and_wraps() {
    assert_eq!(subtract_wrap(0, 5), 4);
    assert_eq!(subtract_wrap(3, 5), 2);
    assert_eq!(subtract_wrap(0, 1), 0);
}

#[test]
fn subtract_wrap_undoes_a_forward_step() {
    for len in 1..6usize {
        for i in 0..len {
            assert_eq!(subtract_wrap((i + 1) % len, len), i);
        }
    }
}

#[test]
fn control_backspace_deletes_last_word() {
    assert_eq!(backspaced("hello world"), "hello");
    assert_eq!(backspaced("one two three"), "one two");
}

#[test]
fn control_backspace_deletes_trailing_punctuation_run() {
    assert_eq!(backspaced("hello world!"), "hello world");
    assert_eq!(backspaced("wait what??"), "wait what");
}

#[test]
fn control_backspace_without_space_clears() {
    assert_eq!(backspaced("hello"), "");
    assert_eq!(backspaced("end.."), "");
    assert_eq!(backspaced(""), "");
}

#[test]
fn control_backspace_keeps_buffer_of_one_repeated_char() {
    assert_eq!(backspaced("   "), "   ");
}

#[test]
fn control_backspace_stops_at_space_run() {
    assert_eq!(backspaced("a  b"), "a");
    assert_eq!(backspaced("hi. there"), "hi.");
}

#[test]
fn control_backspace_result_is_prefix() {
    for s in ["hello world", "a.b c?d", "x  y  z", "   ", "no"] {
        let r = backspaced(s);
        assert!(s.starts_with(&r));
    }
}

#[test]
fn boxify_single_line() {
    let b = boxify("hello", &TextPosition::Left, None, &TextPosition::Left, None, &TextPosition::Left, None);
    assert_eq!(b, "┌─────┐\n│hello│\n└─────┘");
}

#[test]
fn boxify_title_widens_box() {
    let b = boxify("hi", &TextPosition::Left, Some("title"), &TextPosition::Center, None, &TextPosition::Left, None);
    assert_eq!(b, "┌title┐\n│hi   │\n└─────┘");
}

#[test]
fn boxify_title_positions() {
    let l = boxify("abcdef", &TextPosition::Left, Some("ab"), &TextPosition::Left, None, &TextPosition::Left, None);
    assert_eq!(l, "┌ab────┐\n│abcdef│\n└──────┘");
    let r = boxify("abcdef", &TextPosition::Left, Some("ab"), &TextPosition::Right, None, &TextPosition::Left, None);
    assert_eq!(r, "┌────ab┐\n│abcdef│\n└──────┘");
    let c = boxify("abcde", &TextPosition::Left, Some("ab"), &TextPosition::Center, Some("f"), &TextPosition::Right, None);
    assert_eq!(c, "┌─ab──┐\n│abcde│\n└────f┘");
}

#[test]
fn boxify_wraps_to_width() {
    let b = boxify("aaa bbb ccc", &TextPosition::Left, None, &TextPosition::Left, None, &TextPosition::Left, Some(7));
    assert_eq!(b, "┌───────┐\n│aaa bbb│\n│ccc    │\n└───────┘");
}

#[test]
fn boxify_row_alignment() {
    let r = boxify("ab\nabcd", &TextPosition::Right, None, &TextPosition::Left, None, &TextPosition::Left, None);
    assert_eq!(r, "┌────┐\n│  ab│\n│abcd│\n└────┘");
    let c = boxify("a\nabcd", &TextPosition::Center, None, &TextPosition::Left, None, &TextPosition::Left, None);
    assert_eq!(c, "┌────┐\n│ a  │\n│abcd│\n└────┘");
}

#[test]
fn boxify_center_allows_long_words() {
    let c = boxify("abcdef", &TextPosition::Center, None, &TextPosition::Left, None, &TextPosition::Left, Some(3));
    assert_eq!(c, "┌───┐\n│abcdef│\n└───┘");
}

#[test]
fn boxify_empty_input() {
    let b = boxify("", &TextPosition::Left, None, &TextPosition::Left, None, &TextPosition::Left, None);
    assert_eq!(b, "┌┐\n\n└┘");
}

#[test]
fn boxify_collapses_whitespace() {
    let b = boxify("a   b\t c", &TextPosition::Left, None, &TextPosition::Left, None, &TextPosition::Left, None);
    assert_eq!(b, "┌────────┐\n│a b c   │\n└────────┘");
}

#[test]
fn boxify_counts_utf8_bytes() {
    let b = boxify("é", &TextPosition::Left, None, &TextPosition::Left, None, &TextPosition::Left, None);
    // "é" takes two bytes, so the box is two wide and the row has no padding.
    assert_eq!(b, "┌──┐\n│é│\n└──┘");
}

#[test]
fn boxify_line_endings() {
    let b = boxify("ab\r\ncd\n", &TextPosition::Left, None, &TextPosition::Left, None, &TextPosition::Left, None);
    assert_eq!(b, "┌──┐\n│ab│\n│cd│\n└──┘");
    let e = boxify("ab\n\ncd", &TextPosition::Left, None, &TextPosition::Left, None, &TextPosition::Left, None);
    assert_eq!(e, "┌──┐\n│ab│\n│cd│\n└──┘");
}

#[test]
fn boxify_keeps_every_word_in_order() {
    let text = "the quick brown fox jumps over the lazy dog";
    let b = boxify(text, &TextPosition::Left, None, &TextPosition::Left, None, &TextPosition::Left, Some(10));
    let words: Vec<&str> = b
        .lines()
        .filter(|l| l.starts_with('│'))
        .flat_map(|l| l.trim_matches('│').split_whitespace())
        .collect();
    assert_eq!(words, text.split_whitespace().collect::<Vec<_>>());
}

#[test]
fn boxify_ascii_box_is_a_rectangle() {
    let b = boxify("some words to wrap here", &TextPosition::Center, Some("t"), &TextPosition::Right, None, &TextPosition::Left, Some(9));
    let widths: Vec<usize> = b.lines().map(|l| l.chars().count()).collect();
    assert!(widths.iter().all(|w| *w == 11));
}

#[test]
fn colorize_known_and_unknown_codes() {
    assert_eq!(colorize('B'), "\x1b[30m");
    assert_eq!(colorize('r'), "\x1b[31m");
    assert_eq!(colorize('g'), "\x1b[32m");
    assert_eq!(colorize('y'), "\x1b[33m");
    assert_eq!(colorize('b'), "\x1b[34m");
    assert_eq!(colorize('m'), "\x1b[35m");
    assert_eq!(colorize('c'), "\x1b[36m");
    assert_eq!(colorize('G'), "\x1b[37m");
    assert_eq!(colorize('w'), "\x1b[39m");
    assert_eq!(colorize('R'), "\x1b[0m");
    assert_eq!(colorize('A'), "");
    assert_eq!(colorize('z'), "");
}

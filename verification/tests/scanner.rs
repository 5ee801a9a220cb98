use biblatex::scanner::{is_id_continue, is_id_start, is_newline, utf8_width, Scanner};

// One, two, four and one byte: offsets 0, 1, 3, 7, and 8 for the end.
const MIXED: &str = "a\u{e9}\u{1F600}b";

#[test]
fn new_starts_at_zero() {
    let s = Scanner::new(MIXED);
    assert_eq!(s.index(), 0);
    assert_eq!(s.src(), MIXED);
    assert!(!s.eof());
    assert_eq!(s.peek(), Some('a'));
}

#[test]
fn empty_text_is_at_its_end() {
    let mut s = Scanner::new("");
    assert!(s.eof());
    assert_eq!(s.peek(), None);
    assert_eq!(s.eat(), None);
    assert_eq!(s.index(), 0);
    assert_eq!(s.rest(), "");
    assert_eq!(s.eaten(), "");
}

#[test]
fn eat_advances_by_whole_characters() {
    let mut s = Scanner::new(MIXED);
    assert_eq!(s.eat(), Some('a'));
    assert_eq!(s.index(), 1);
    assert_eq!(s.eat(), Some('\u{e9}'));
    assert_eq!(s.index(), 3);
    assert_eq!(s.eat(), Some('\u{1F600}'));
    assert_eq!(s.index(), 7);
    assert_eq!(s.eat(), Some('b'));
    assert_eq!(s.index(), 8);
    assert!(s.eof());
    assert_eq!(s.eat(), None);
    assert_eq!(s.index(), 8);
}

#[test]
fn peek_does_not_consume() {
    let s = Scanner::new("xy");
    assert_eq!(s.peek(), Some('x'));
    assert_eq!(s.peek(), Some('x'));
    assert_eq!(s.index(), 0);
}

#[test]
fn eat_if_consumes_only_the_given_character() {
    let mut s = Scanner::new("\u{e9}x");
    assert!(!s.eat_if('x'));
    assert_eq!(s.index(), 0);
    assert!(s.eat_if('\u{e9}'));
    assert_eq!(s.index(), 2);
    assert!(s.eat_if('x'));
    assert!(!s.eat_if('x'));
    assert_eq!(s.index(), 3);
}

#[test]
fn eat_assert_consumes_the_expected_character() {
    let mut s = Scanner::new("ab");
    s.eat_assert('a');
    assert_eq!(s.index(), 1);
    assert_eq!(s.peek(), Some('b'));
}

#[test]
fn eat_while_returns_the_run() {
    let mut s = Scanner::new("abc123");
    assert_eq!(s.eat_while(|c| c.is_alphabetic()), "abc");
    assert_eq!(s.index(), 3);
    assert_eq!(s.eat_while(|c| c.is_alphabetic()), "");
    assert_eq!(s.eat_while(|c| c.is_numeric()), "123");
    assert!(s.eof());
}

#[test]
fn eat_until_stops_before_the_match() {
    let mut s = Scanner::new("k\u{e9}y = v");
    assert_eq!(s.eat_until(|c| c == '='), "k\u{e9}y ");
    assert_eq!(s.peek(), Some('='));
    assert_eq!(s.eat_until(|c| c == '#'), "= v");
    assert!(s.eof());
}

#[test]
fn skip_ws_stops_at_the_first_other_character() {
    let mut s = Scanner::new("  \t\n x ");
    s.skip_ws();
    assert_eq!(s.index(), 5);
    assert_eq!(s.peek(), Some('x'));
    s.skip_ws();
    assert_eq!(s.index(), 5);
}

#[test]
fn skip_trivia_passes_every_line_end() {
    let mut s = Scanner::new(" \n\x0B\x0C\r\u{85}\u{2028}\u{2029}x");
    s.skip_trivia();
    assert_eq!(s.peek(), Some('x'));
    assert_eq!(s.rest(), "x");
}

#[test]
fn uneat_goes_back_one_character() {
    let mut s = Scanner::new(MIXED);
    s.uneat();
    assert_eq!(s.index(), 0);
    s.eat();
    s.eat();
    s.eat();
    assert_eq!(s.index(), 7);
    s.uneat();
    assert_eq!(s.index(), 3);
    s.uneat();
    assert_eq!(s.index(), 1);
    assert_eq!(s.peek(), Some('\u{e9}'));
}

#[test]
fn prev_counts_back_from_the_cursor() {
    let mut s = Scanner::new(MIXED);
    assert_eq!(s.prev(0), None);
    s.eat();
    s.eat();
    s.eat();
    assert_eq!(s.prev(0), Some('\u{1F600}'));
    assert_eq!(s.prev(1), Some('\u{e9}'));
    assert_eq!(s.prev(2), Some('a'));
    assert_eq!(s.prev(3), None);
    assert_eq!(s.prev(usize::MAX), None);
}

#[test]
fn check_or_uses_the_default_at_the_end() {
    let mut s = Scanner::new("a");
    assert!(s.check_or(false, |c| c == 'a'));
    assert!(!s.check_or(true, |c| c == 'b'));
    s.eat();
    assert!(s.check_or(true, |c| c == 'a'));
    assert!(!s.check_or(false, |c| c == 'a'));
}

#[test]
fn last_index_is_the_start_of_the_last_character() {
    let mut s = Scanner::new(MIXED);
    assert_eq!(s.last_index(), 0);
    s.eat();
    assert_eq!(s.last_index(), 0);
    s.eat();
    assert_eq!(s.last_index(), 1);
    s.eat();
    assert_eq!(s.last_index(), 3);
    s.eat();
    assert_eq!(s.last_index(), 7);
}

#[test]
fn here_is_the_empty_span_at_the_cursor() {
    let mut s = Scanner::new(MIXED);
    s.eat();
    s.eat();
    assert_eq!(s.here(), 3..3);
}

#[test]
fn jump_moves_to_a_boundary() {
    let mut s = Scanner::new(MIXED);
    s.jump(3);
    assert_eq!(s.index(), 3);
    assert_eq!(s.peek(), Some('\u{1F600}'));
    s.jump(8);
    assert!(s.eof());
    s.jump(0);
    assert_eq!(s.peek(), Some('a'));
}

#[test]
fn jump_behind_a_two_byte_character() {
    let mut s = Scanner::new("\u{e9}b");
    assert!(!s.src().is_char_boundary(1));
    assert!(!s.src().is_char_boundary(4));
    s.jump(2);
    assert_eq!(s.index(), 2);
    assert_eq!(s.peek(), Some('b'));
    s.jump(3);
    assert_eq!(s.index(), 3);
    assert!(s.eof());
}

#[test]
fn jump_target_is_tested_first() {
    let mut s = Scanner::new(MIXED);
    let mut reached = Vec::new();
    for index in 0..12 {
        if s.src().is_char_boundary(index) {
            s.jump(index);
            assert_eq!(s.index(), index);
            reached.push(index);
        }
    }
    assert_eq!(reached, vec![0, 1, 3, 7, 8]);
}

#[test]
fn get_slices_between_boundaries() {
    let s = Scanner::new(MIXED);
    assert_eq!(s.get(0..8), MIXED);
    assert_eq!(s.get(1..3), "\u{e9}");
    assert_eq!(s.get(3..8), "\u{1F600}b");
    assert_eq!(s.get(3..3), "");
}

#[test]
fn get_is_empty_for_an_invalid_range() {
    let s = Scanner::new(MIXED);
    assert_eq!(s.get(2..3), "");
    assert_eq!(s.get(1..2), "");
    assert_eq!(s.get(3..1), "");
    assert_eq!(s.get(0..9), "");
    assert_eq!(s.get(9..12), "");
}

#[test]
fn rest_and_eaten_split_the_text() {
    let mut s = Scanner::new(MIXED);
    s.eat();
    s.eat();
    assert_eq!(s.eaten(), "a\u{e9}");
    assert_eq!(s.rest(), "\u{1F600}b");
}

#[test]
fn eaten_from_slices_up_to_the_cursor() {
    let mut s = Scanner::new(MIXED);
    s.eat();
    s.eat();
    s.eat();
    assert_eq!(s.eaten_from(1), "\u{e9}\u{1F600}");
    assert_eq!(s.eaten_from(7), "");
    assert_eq!(s.eaten_from(2), "");
    assert_eq!(s.eaten_from(8), "");
}

#[test]
fn scanner_is_copied_by_value() {
    let mut s = Scanner::new("ab");
    let t = s;
    s.eat();
    assert_eq!(s.index(), 1);
    assert_eq!(t.index(), 0);
}

#[test]
fn newline_set() {
    for c in ['\n', '\x0B', '\x0C', '\r', '\u{85}', '\u{2028}', '\u{2029}'] {
        assert!(is_newline(c));
    }
    for c in [' ', '\t', 'n', '\u{a0}', '\u{2027}'] {
        assert!(!is_newline(c));
    }
}

#[test]
fn id_continue_excludes_the_reserved_set() {
    for c in ['@', '{', '}', '"', '#', '\'', '(', ')', ',', '=', '%', '\\', '~'] {
        assert!(!is_id_continue(c));
        assert!(!is_id_start(c));
    }
    for c in [' ', '\t', '\n', '\u{85}', '\u{2028}', '\u{7}', '\u{7f}', '\u{a0}'] {
        assert!(!is_id_continue(c));
        assert!(!is_id_start(c));
    }
}

#[test]
fn id_start_excludes_inner_punctuation() {
    for c in [':', '<', '-', '>', '_'] {
        assert!(is_id_continue(c));
        assert!(!is_id_start(c));
    }
    for c in ['a', 'Z', '1', '.', '\u{e9}', '+'] {
        assert!(is_id_continue(c));
        assert!(is_id_start(c));
    }
}

#[test]
fn width_of_each_encoding_length() {
    assert_eq!(utf8_width('a'), 1);
    assert_eq!(utf8_width('\u{7f}'), 1);
    assert_eq!(utf8_width('\u{80}'), 2);
    assert_eq!(utf8_width('\u{7ff}'), 2);
    assert_eq!(utf8_width('\u{800}'), 3);
    assert_eq!(utf8_width('\u{ffff}'), 3);
    assert_eq!(utf8_width('\u{10000}'), 4);
    assert_eq!(utf8_width('\u{10ffff}'), 4);
    for c in ['a', '\u{e9}', '\u{20ac}', '\u{1F600}'] {
        assert_eq!(utf8_width(c), c.len_utf8());
    }
}

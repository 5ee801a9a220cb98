use biblatex::grammar::{BlockKind, Verdict};
use biblatex::scanner::{is_id_continue, is_id_start};
use biblatex::syntax::{block_kind, is_ident, BiblatexParser, Delimiters};
use biblatex::text::same_text;

#[test]
fn ident_rejects_reserved_characters() {
    for c in ['@', '"', '#', '\'', '(', ')', ',', '=', '{', '}', '%', '\\', '~'] {
        assert!(!is_ident(c, true));
        assert!(!is_ident(c, false));
    }
}

#[test]
fn ident_takes_inner_punctuation_only_later() {
    for c in [':', '<', '-', '>', '_'] {
        assert!(!is_ident(c, true));
        assert!(is_ident(c, false));
    }
}

#[test]
fn ident_follows_the_rules_of_the_cursor() {
    for c in ['a', 'Z', '2', '.', '/', '+', '\u{e9}', '\u{25b3}', '\u{301}'] {
        assert!(is_ident(c, true));
        assert!(is_ident(c, false));
    }
    for c in [' ', '\t', '\n', '\r', '\u{b}', '\u{c}', '\u{85}', '\u{a0}', '\u{2028}', '\u{2029}',
        '\u{3000}', '\u{0}', '\u{7}', '\u{1f}', '\u{7f}', '\u{9f}']
    {
        assert!(!is_ident(c, true));
        assert!(!is_ident(c, false));
    }
    for c in ['a', '2', '.', ':', '_', '@', ' ', '\u{e9}', '\u{85}', '{'] {
        assert_eq!(is_ident(c, true), is_id_start(c));
        assert_eq!(is_ident(c, false), is_id_continue(c));
    }
}

#[test]
fn kind_of_lowercase_type() {
    assert_eq!(block_kind("string", true), BlockKind::Macro);
    assert_eq!(block_kind("preamble", true), BlockKind::Preamble);
    assert_eq!(block_kind("article", true), BlockKind::Entry);
    assert_eq!(block_kind("", true), BlockKind::Entry);
    assert_eq!(block_kind("strings", true), BlockKind::Entry);
    assert_eq!(block_kind("String", true), BlockKind::Entry);
    assert_eq!(block_kind("string", false), BlockKind::Entry);
    assert_eq!(block_kind("preamble", false), BlockKind::Entry);
}

#[test]
fn same_text_compares_contents() {
    assert!(same_text("", ""));
    assert!(same_text("ab\u{e9}", "ab\u{e9}"));
    assert!(!same_text("ab", "abc"));
    assert!(!same_text("abc", "abd"));
    assert!(!same_text("e", "\u{e9}"));
}

#[test]
fn separator_and_block_end_outside_delimiters() {
    let mut d = Delimiters::new();
    assert_eq!(d.feed('x'), Verdict::Accepted);
    assert_eq!(d.feed(','), Verdict::Separator);
    assert_eq!(d.feed('}'), Verdict::BlockEnd);
    assert_eq!(d.depth(), 0);
}

#[test]
fn braces_nest() {
    let mut d = Delimiters::new();
    assert_eq!(d.feed('{'), Verdict::Accepted);
    assert_eq!(d.feed('{'), Verdict::Accepted);
    assert_eq!(d.depth(), 2);
    assert_eq!(d.feed(','), Verdict::Accepted);
    assert_eq!(d.feed('"'), Verdict::Accepted);
    assert_eq!(d.depth(), 2);
    assert_eq!(d.feed('}'), Verdict::Accepted);
    assert_eq!(d.feed('}'), Verdict::Accepted);
    assert_eq!(d.depth(), 0);
    assert_eq!(d.feed('}'), Verdict::BlockEnd);
}

#[test]
fn quotes_open_only_outside_delimiters() {
    let mut d = Delimiters::new();
    assert_eq!(d.feed('"'), Verdict::Accepted);
    assert_eq!(d.depth(), 1);
    assert_eq!(d.feed(','), Verdict::Accepted);
    assert_eq!(d.feed('{'), Verdict::Accepted);
    assert_eq!(d.feed('"'), Verdict::Accepted);
    assert_eq!(d.depth(), 2);
    assert_eq!(d.feed('}'), Verdict::Accepted);
    assert_eq!(d.feed('"'), Verdict::Accepted);
    assert_eq!(d.depth(), 0);
}

#[test]
fn brace_cannot_close_a_quote() {
    let mut d = Delimiters::new();
    assert_eq!(d.feed('"'), Verdict::Accepted);
    assert_eq!(d.feed('}'), Verdict::Mismatch);
    assert_eq!(d.depth(), 1);
}

#[test]
fn backslash_protects_one_delimiter() {
    let mut d = Delimiters::new();
    assert_eq!(d.feed('{'), Verdict::Accepted);
    assert_eq!(d.feed('\\'), Verdict::Pending);
    assert_eq!(d.feed('}'), Verdict::Accepted);
    assert_eq!(d.depth(), 1);
    assert_eq!(d.feed('\\'), Verdict::Pending);
    assert_eq!(d.feed('{'), Verdict::Accepted);
    assert_eq!(d.depth(), 1);
    assert_eq!(d.feed('\\'), Verdict::Pending);
    assert_eq!(d.feed('"'), Verdict::Accepted);
    assert_eq!(d.depth(), 1);
    assert_eq!(d.feed('\\'), Verdict::Pending);
    assert_eq!(d.feed('x'), Verdict::Accepted);
    assert_eq!(d.feed('}'), Verdict::Accepted);
    assert_eq!(d.depth(), 0);
}

#[test]
fn backslash_does_not_protect_a_separator() {
    let mut d = Delimiters::new();
    assert_eq!(d.feed('\\'), Verdict::Pending);
    assert_eq!(d.feed(','), Verdict::Separator);
    let mut d = Delimiters::new();
    assert_eq!(d.feed('\\'), Verdict::Pending);
    assert_eq!(d.feed('\\'), Verdict::Pending);
    assert_eq!(d.feed('}'), Verdict::Accepted);
}

#[test]
fn parser_steps_by_hand() {
    let mut p = BiblatexParser::new("  % c\n x = {1}, y = \"2}\"", true);
    assert_eq!(p.peek(), Some(' '));
    p.skip_ws();
    assert_eq!(p.peek(), Some('x'));
    assert_eq!(p.read_prop(), Ok(("x", "{1}")));
    assert_eq!(p.read_prop(), Err(()));
    assert_eq!(p.eat(), Some('"'));
    assert_eq!(p.eat(), None);
}

#[test]
fn read_prop_at_the_end_is_empty() {
    let mut p = BiblatexParser::new("", true);
    assert_eq!(p.read_prop(), Ok(("", "")));
    let mut p = BiblatexParser::new("name", true);
    assert_eq!(p.read_prop(), Ok(("name", "")));
    let mut p = BiblatexParser::new("name = value", true);
    assert_eq!(p.read_prop(), Ok(("name", "value")));
}

#[test]
fn parse_entry_reads_one_block() {
    let mut p = BiblatexParser::new("a{k, x = 1} @b{l, y = 2}", true);
    p.parse_entry();
    assert_eq!(p.peek(), Some(' '));
    let file = p.parse();
    assert_eq!(file.entries.len(), 2);
    assert_eq!(file.entries[0].cite_key, "k");
    assert_eq!(file.entries[1].cite_key, "l");
}

use biblatex::syntax::{parse_file, BiblatexFile, BiblatexParser};

fn parse(src: &str, allow_bibtex: bool) -> BiblatexFile<'_> {
    BiblatexParser::new(src, allow_bibtex).parse()
}

fn test_prop(key: &str, value: &str) -> String {
    let test = format!("@article{{test, {}={}}}", key, value);
    let bt = parse(&test, true);
    let article = &bt.entries[0];
    article.fields.get(key).expect("fail").to_string()
}

#[test]
fn test_parse_article() {
    let file = "@article{haug2020,
            title = \"Great proceedings\\{\",
            year=2002,
            author={Haug, {Martin} and Haug, Gregor}}";

    let bt = parse(file, true);
    let article = &bt.entries[0];

    assert_eq!(article.entry_type, "article");
    assert_eq!(article.fields.get("title"), Some(&"\"Great proceedings\\{\""));
    assert_eq!(article.fields.get("year"), Some(&"2002"));
    assert_eq!(article.fields.get("author"), Some(&"{Haug, {Martin} and Haug, Gregor}"));
}

#[test]
fn test_resolve_string() {
    let bt = parse("@string{BT = \"bibtex\"}", true);
    assert_eq!(bt.strings.get("BT"), Some(&"\"bibtex\""));
}

#[test]
fn test_escape() {
    assert_eq!(test_prop("author", "{Mister A\\}\"B\"}"), "{Mister A\\}\"B\"}");
}

#[test]
fn parse_file_agrees_with_parser() {
    let bt = parse_file("@book{k, a = 1}", true);
    assert_eq!(bt.entries.len(), 1);
    assert_eq!(bt.entries[0].cite_key, "k");
    assert_eq!(bt.entries[0].entry_type, "book");
    assert_eq!(bt.entries[0].fields.get("a"), Some(&"1"));
}

#[test]
fn quoted_value_keeps_quotes_and_escaped_brace() {
    let bt = parse("@article{k, title = \"Great proceedings\\{\"}", true);
    assert_eq!(bt.entries.len(), 1);
    assert_eq!(bt.entries[0].fields.get("title"), Some(&"\"Great proceedings\\{\""));
    assert_eq!(bt.entries[0].fields.len(), 1);
}

#[test]
fn braced_value_keeps_outer_braces() {
    let bt = parse("@article{k, author={Haug, {Martin} and Haug, Gregor}, year=2002}", true);
    let fields = &bt.entries[0].fields;
    assert_eq!(fields.len(), 2);
    assert_eq!(fields.get("author"), Some(&"{Haug, {Martin} and Haug, Gregor}"));
    assert_eq!(fields.get("year"), Some(&"2002"));
}

#[test]
fn string_block_fills_macros_only() {
    let bt = parse("@string{BT = \"bibtex\"}", true);
    assert_eq!(bt.strings.len(), 1);
    assert_eq!(bt.strings.get("BT"), Some(&"\"bibtex\""));
    assert_eq!(bt.entries.len(), 0);
    assert_eq!(bt.preamble, "");
}

#[test]
fn string_block_with_several_macros() {
    let bt = parse("@string{a = \"x\", b = {y}}", true);
    assert_eq!(bt.strings.len(), 2);
    assert_eq!(bt.strings.get("a"), Some(&"\"x\""));
    assert_eq!(bt.strings.get("b"), Some(&"{y}"));
    assert_eq!(bt.entries.len(), 0);
}

#[test]
fn block_kind_ignores_case() {
    let bt = parse("@STRING{BT = \"bibtex\"} @PreAmble{\"x\"} @Article{Key, Title = {T}}", true);
    assert_eq!(bt.strings.get("BT"), Some(&"\"bibtex\""));
    assert_eq!(bt.preamble, "x");
    assert_eq!(bt.entries.len(), 1);
    assert_eq!(bt.entries[0].entry_type, "Article");
    assert_eq!(bt.entries[0].cite_key, "Key");
    assert_eq!(bt.entries[0].fields.get("Title"), Some(&"{T}"));
    assert_eq!(bt.entries[0].fields.get("title"), None);
}

#[test]
fn escaped_delimiters_do_not_nest_or_end_the_value() {
    assert_eq!(test_prop("a", "{x\\}y}"), "{x\\}y}");
    assert_eq!(test_prop("a", "\"x\\\"y\""), "\"x\\\"y\"");
    assert_eq!(test_prop("a", "x\\}y"), "x\\}y");
    assert_eq!(test_prop("a", "{x\\{y}"), "{x\\{y}");
}

#[test]
fn quote_inside_braces_is_literal() {
    assert_eq!(test_prop("a", "{x\"y}"), "{x\"y}");
    assert_eq!(test_prop("a", "{x,y}"), "{x,y}");
    assert_eq!(test_prop("a", "\"x,{y}\""), "\"x,{y}\"");
}

#[test]
fn later_duplicate_field_wins() {
    let bt = parse("@article{k, x = 1, y = 2, x = 3}", true);
    let fields = &bt.entries[0].fields;
    assert_eq!(fields.len(), 2);
    assert_eq!(fields.get("x"), Some(&"3"));
    assert_eq!(fields.get("y"), Some(&"2"));
}

#[test]
fn later_duplicate_macro_wins() {
    let bt = parse("@string{m = 1} @string{m = 2}", true);
    assert_eq!(bt.strings.len(), 1);
    assert_eq!(bt.strings.get("m"), Some(&"2"));
}

#[test]
fn comment_between_fields_is_skipped() {
    let bt = parse("@article{k,\n a = 1, % note, b = 9\n c = 3}", true);
    let fields = &bt.entries[0].fields;
    assert_eq!(fields.len(), 2);
    assert_eq!(fields.get("a"), Some(&"1"));
    assert_eq!(fields.get("c"), Some(&"3"));
    assert_eq!(fields.get("b"), None);
}

#[test]
fn comment_ends_at_carriage_return() {
    let bt = parse("@article{k, a = 1,% x\r b = 2}", true);
    assert_eq!(bt.entries[0].fields.get("b"), Some(&"2"));
}

#[test]
fn commented_block_is_not_read() {
    let bt = parse("% @article{k, a = 1}\n@book{b, c = 2}", true);
    assert_eq!(bt.entries.len(), 1);
    assert_eq!(bt.entries[0].entry_type, "book");
    assert_eq!(bt.entries[0].cite_key, "b");
}

#[test]
fn source_without_blocks_is_empty() {
    for src in ["", "just text, no blocks {} = \"", "% @a{k}", "line\n% c\n"] {
        let bt = parse(src, true);
        assert_eq!(bt.entries.len(), 0);
        assert_eq!(bt.strings.len(), 0);
        assert_eq!(bt.preamble, "");
    }
}

#[test]
fn parsing_twice_gives_the_same_file() {
    let src = "@string{s = {x}} @preamble{\"p\"} @a{k, f = 1, g = {2}} @b{l, h = \"3\"}";
    let one = parse(src, true);
    let two = parse(src, true);
    assert_eq!(one.preamble, two.preamble);
    assert_eq!(one.strings.len(), two.strings.len());
    assert_eq!(one.strings.get("s"), two.strings.get("s"));
    assert_eq!(one.entries.len(), 2);
    assert_eq!(one.entries.len(), two.entries.len());
    for i in 0..one.entries.len() {
        assert_eq!(one.entries[i].cite_key, two.entries[i].cite_key);
        assert_eq!(one.entries[i].entry_type, two.entries[i].entry_type);
        assert_eq!(one.entries[i].fields.len(), two.entries[i].fields.len());
    }
    assert_eq!(one.entries[0].fields.get("g"), two.entries[0].fields.get("g"));
    assert_eq!(one.entries[1].fields.get("h"), Some(&"\"3\""));
}

#[test]
fn entries_keep_their_order() {
    let bt = parse("@a{one, x=1}\n@b{two, x=2}\n@c{three, x=3}", true);
    assert_eq!(bt.entries.len(), 3);
    assert_eq!(bt.entries[0].cite_key, "one");
    assert_eq!(bt.entries[1].cite_key, "two");
    assert_eq!(bt.entries[2].cite_key, "three");
    assert_eq!(bt.entries[2].entry_type, "c");
}

#[test]
fn preamble_is_copied_verbatim() {
    let bt = parse("@preamble{\"\\newcommand{\\x}{y}\"}", true);
    assert_eq!(bt.preamble, "\\newcommand{\\x}{y}");
    assert_eq!(bt.entries.len(), 0);
    assert_eq!(bt.strings.len(), 0);
}

#[test]
fn preamble_after_blank_text() {
    let bt = parse("@preamble{ % c\n \"a\" }", true);
    assert_eq!(bt.preamble, "a");
}

#[test]
fn preambles_are_joined() {
    let bt = parse("@preamble{\"a\"} @preamble{\"b\"}", true);
    assert_eq!(bt.preamble, "ab");
}

#[test]
fn preamble_without_quote_is_empty() {
    let bt = parse("@preamble{x} @a{k, f=1}", true);
    assert_eq!(bt.preamble, "");
    assert_eq!(bt.entries.len(), 1);
}

#[test]
fn preamble_without_closing_quote_runs_to_the_end() {
    let bt = parse("@preamble{\"ab} @a{k}", true);
    assert_eq!(bt.preamble, "ab} @a{k}");
    assert_eq!(bt.entries.len(), 0);
}

#[test]
fn legacy_blocks_are_entries_when_not_allowed() {
    let bt = parse("@string{BT = \"bibtex\"} @preamble{\"x\"} @a{k, f = 1}", false);
    assert_eq!(bt.strings.len(), 0);
    assert_eq!(bt.preamble, "");
    assert_eq!(bt.entries.len(), 1);
    assert_eq!(bt.entries[0].cite_key, "k");

    let bt = parse("@string{key, f = 1}", false);
    assert_eq!(bt.entries.len(), 1);
    assert_eq!(bt.entries[0].entry_type, "string");
    assert_eq!(bt.entries[0].fields.get("f"), Some(&"1"));
}

#[test]
fn malformed_type_drops_the_block() {
    let bt = parse("@article(k, a = 1}\n@book{b, c = 2}", true);
    assert_eq!(bt.entries.len(), 1);
    assert_eq!(bt.entries[0].cite_key, "b");
}

#[test]
fn malformed_key_drops_the_block() {
    let bt = parse("@article{k = 1}\n@book{b, c = 2}", true);
    assert_eq!(bt.entries.len(), 1);
    assert_eq!(bt.entries[0].entry_type, "book");
}

#[test]
fn block_may_start_inside_a_dropped_header() {
    let bt = parse("@foo@bar{k, a = 1}", true);
    assert_eq!(bt.entries.len(), 1);
    assert_eq!(bt.entries[0].entry_type, "bar");
}

#[test]
fn brace_inside_quotes_drops_the_block() {
    let bt = parse("@article{a, t = \"x}y\", u = 1}\n@book{b, v = 2}", true);
    assert_eq!(bt.entries.len(), 1);
    assert_eq!(bt.entries[0].cite_key, "b");
    assert_eq!(bt.entries[0].fields.get("v"), Some(&"2"));
}

#[test]
fn macros_before_a_mismatch_stay() {
    let bt = parse("@string{a = 1, b = \"x}\", c = 3}", true);
    assert_eq!(bt.strings.len(), 1);
    assert_eq!(bt.strings.get("a"), Some(&"1"));
    assert_eq!(bt.entries.len(), 0);
}

#[test]
fn unclosed_block_gives_no_entry() {
    for src in ["@article", "@article{", "@article{k", "@article{k,", "@article{k, a = {x}",
        "@article{k, a = {x", "@article{k, a = 1, "]
    {
        let bt = parse(src, true);
        assert_eq!(bt.entries.len(), 0);
    }
}

#[test]
fn closing_brace_after_separator() {
    let bt = parse("@article{k, a = 1, }", true);
    assert_eq!(bt.entries.len(), 1);
    assert_eq!(bt.entries[0].fields.len(), 1);
    assert_eq!(bt.entries[0].fields.get("a"), Some(&"1"));
}

#[test]
fn entry_without_fields() {
    let bt = parse("@article{k,}", true);
    assert_eq!(bt.entries.len(), 1);
    assert_eq!(bt.entries[0].cite_key, "k");
    assert_eq!(bt.entries[0].fields.len(), 0);
}

#[test]
fn value_keeps_inner_and_trailing_whitespace() {
    let bt = parse("@article{k, a =  x y , b = 2}", true);
    assert_eq!(bt.entries[0].fields.get("a"), Some(&"x y "));
    assert_eq!(bt.entries[0].fields.get("b"), Some(&"2"));
}

#[test]
fn backslash_before_the_terminator_is_left_out() {
    let bt = parse("@string{x = a\\, y = b}", true);
    assert_eq!(bt.strings.get("x"), Some(&"a"));
    assert_eq!(bt.strings.get("y"), Some(&"b"));
}

#[test]
fn whitespace_in_the_header_is_skipped() {
    let bt = parse("@article {key , a = 1}", true);
    assert_eq!(bt.entries.len(), 1);
    assert_eq!(bt.entries[0].entry_type, "article");
    assert_eq!(bt.entries[0].cite_key, "key");
}

#[test]
fn header_spans_start_behind_the_opening_character() {
    let bt = parse("@ article{ key, a = 1}", true);
    assert_eq!(bt.entries.len(), 1);
    assert_eq!(bt.entries[0].entry_type, " article");
    assert_eq!(bt.entries[0].cite_key, " key");
}

#[test]
fn names_beyond_ascii() {
    let bt = parse("@article{m\u{fc}ller2020, t\u{ed}tulo = {\u{1F600} x}, a-b:c = 1}", true);
    assert_eq!(bt.entries.len(), 1);
    assert_eq!(bt.entries[0].cite_key, "m\u{fc}ller2020");
    assert_eq!(bt.entries[0].fields.get("t\u{ed}tulo"), Some(&"{\u{1F600} x}"));
    assert_eq!(bt.entries[0].fields.get("a-b:c"), Some(&"1"));
}

#[test]
fn key_may_start_with_a_digit() {
    let bt = parse("@article{2020haug, a = 1}", true);
    assert_eq!(bt.entries.len(), 1);
    assert_eq!(bt.entries[0].cite_key, "2020haug");
    assert_eq!(bt.entries[0].fields.get("a"), Some(&"1"));
}

#[test]
fn key_may_hold_dots_and_slashes() {
    let bt = parse("@article{doi/10.1000.x, a.b = 1}", true);
    assert_eq!(bt.entries.len(), 1);
    assert_eq!(bt.entries[0].cite_key, "doi/10.1000.x");
    assert_eq!(bt.entries[0].fields.get("a.b"), Some(&"1"));
}

#[test]
fn key_may_not_start_with_inner_punctuation() {
    let bt = parse("@article{-k, a = 1} @article{k-l, a = 1}", true);
    assert_eq!(bt.entries.len(), 1);
    assert_eq!(bt.entries[0].cite_key, "k-l");
}

#[test]
fn entry_written_without_blank_text() {
    let bt = parse("@Book{k1,n1=v1,n2={a {b} c}}", true);
    assert_eq!(bt.entries.len(), 1);
    assert_eq!(bt.entries[0].entry_type, "Book");
    assert_eq!(bt.entries[0].cite_key, "k1");
    assert_eq!(bt.entries[0].fields.len(), 2);
    assert_eq!(bt.entries[0].fields.get("n1"), Some(&"v1"));
    assert_eq!(bt.entries[0].fields.get("n2"), Some(&"{a {b} c}"));
}

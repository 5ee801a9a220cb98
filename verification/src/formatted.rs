//! Entries that are written without blank text, from words of ASCII letters
//! and digits: what the parser returns for them, stated over the text
//! itself.

use crate::chars::lowercase_of;
use crate::grammar::{
    block_kind_of, feed, fresh_tracker, ident_char, parse_spec, scan_value, skip_blank, BlockKind,
    EntryView, FileView, Symbols, Tracker, ValueEnd, ValueSpan, Verdict,
};
use crate::laws::{
    entry_as_written, entry_written, ident_span, lemma_single_entry, properties_at, written_at,
    written_fields, Written, WrittenEntry,
};
use vstd::prelude::*;

verus! {

/// The ASCII letters.
pub open spec fn letter(c: char) -> bool {
    ('a' <= c && c <= 'z') || ('A' <= c && c <= 'Z')
}

/// The ASCII letters and digits.
pub open spec fn letter_or_digit(c: char) -> bool {
    letter(c) || ('0' <= c && c <= '9')
}

/// A word: ASCII letters and digits, the first of them a letter.
pub open spec fn is_word(w: Seq<char>) -> bool {
    &&& w.len() > 0
    &&& letter(w[0])
    &&& forall|i: int| 0 <= i < w.len() ==> letter_or_digit(#[trigger] w[i])
}

/// A run of ASCII letters and digits.
pub open spec fn is_run(v: Seq<char>) -> bool {
    forall|i: int| 0 <= i < v.len() ==> letter_or_digit(#[trigger] v[i])
}

/// How many more `{` than `}` stand among the first `i` characters of `v`.
pub open spec fn depth(v: Seq<char>, i: int) -> int
    decreases i,
{
    if i <= 0 {
        0
    } else {
        depth(v, i - 1) + (if v[i - 1] == '{' {
            1int
        } else if v[i - 1] == '}' {
            -1
        } else {
            0
        })
    }
}

/// A group in braces: it starts with `{`, the brace that closes this one is
/// its last character, and it holds neither a backslash nor a quote.
pub open spec fn is_group(v: Seq<char>) -> bool {
    &&& v.len() >= 2
    &&& v[0] == '{'
    &&& forall|i: int| 0 <= i < v.len() ==> #[trigger] v[i] != '\\' && v[i] != '"'
    &&& forall|i: int| 0 < i < v.len() ==> #[trigger] depth(v, i) > 0
    &&& depth(v, v.len() as int) == 0
}

/// A value that is a run of letters and digits, or a group in braces.
pub open spec fn simple_value(v: Seq<char>) -> bool {
    is_run(v) || is_group(v)
}

/// The text `v` holds neither a backslash nor a quote, every `}` in it
/// closes a `{` of it, every `{` of it is closed, and no `,` stands outside
/// of its braces.
pub open spec fn closes_itself(v: Seq<char>) -> bool {
    &&& forall|i: int| 0 <= i < v.len() ==> #[trigger] v[i] != '\\' && v[i] != '"'
    &&& forall|i: int|
        0 <= i < v.len() ==> #[trigger] depth(v, i) >= 0 && (depth(v, i) == 0 ==> v[i] != ','
            && v[i] != '}')
    &&& depth(v, v.len() as int) == 0
}

/// A run of letters and digits holds no brace.
proof fn lemma_run_is_flat(v: Seq<char>, i: int)
    requires
        is_run(v),
        0 <= i <= v.len(),
    ensures
        depth(v, i) == 0,
    decreases i,
{
    if i > 0 {
        lemma_run_is_flat(v, i - 1);
        assert(letter_or_digit(v[i - 1]));
    }
}

/// A simple value closes itself and does not start with blank text.
pub proof fn lemma_simple_value_closes_itself(v: Seq<char>)
    requires
        simple_value(v),
    ensures
        closes_itself(v),
        v.len() > 0 ==> v[0] == '{' || letter_or_digit(v[0]),
{
    if is_run(v) {
        assert forall|i: int| 0 <= i <= v.len() implies #[trigger] depth(v, i) == 0 by {
            lemma_run_is_flat(v, i);
        }
        assert forall|i: int| 0 <= i < v.len() implies #[trigger] v[i] != '\\' && v[i] != '"'
            && v[i] != ',' && v[i] != '}' by {
            assert(letter_or_digit(v[i]));
        }
    } else {
        assert(depth(v, 0) == 0);
    }
}

/// As many open braces as `n` says.
pub open spec fn braces(n: int) -> Seq<Symbols> {
    Seq::new(n as nat, |i: int| Symbols::Braces)
}

/// A value that closes itself and is followed by `,` or `}` is read as a
/// whole, and nothing more.
proof fn lemma_value_is_scanned(s: Seq<char>, a: int, v: Seq<char>, i: int)
    requires
        0 <= a,
        a + v.len() < s.len(),
        s.subrange(a, a + v.len()) == v,
        closes_itself(v),
        0 <= i <= v.len(),
        s[a + v.len()] == ',' || s[a + v.len()] == '}',
    ensures
        scan_value(s, a + i, a + i, Tracker { stack: braces(depth(v, i)), escape: false }) == (
        ValueSpan {
            end: a + v.len(),
            next: a + v.len() + 1,
            how: if s[a + v.len()] == ',' {
                ValueEnd::Separator
            } else {
                ValueEnd::BlockEnd
            },
        }),
    decreases v.len() - i,
{
    let t = Tracker { stack: braces(depth(v, i)), escape: false };
    if i < v.len() {
        let c = v[i];
        assert(s[a + i] == s.subrange(a, a + v.len())[i]);
        assert(v[i] != '\\' && v[i] != '"');
        assert(depth(v, i) >= 0);
        let after = Tracker { stack: braces(depth(v, i + 1)), escape: false };
        if c == '{' {
            assert(t.stack.push(Symbols::Braces) =~= after.stack);
        } else if c == '}' {
            assert(depth(v, i) > 0);
            assert(t.stack.last() == Symbols::Braces);
            assert(t.stack.drop_last() =~= after.stack);
        } else {
            assert(t.stack =~= after.stack);
        }
        assert(feed(t, s[a + i]) == (after, Verdict::Accepted));
        lemma_value_is_scanned(s, a, v, i + 1);
    } else {
        assert(t.stack.len() == 0);
    }
}

/// A word that stands in the source is an identifier there, and no blank
/// text stands at its start.
proof fn lemma_word_is_identifier(s: Seq<char>, a: int, w: Seq<char>)
    requires
        0 <= a,
        a + w.len() <= s.len(),
        s.subrange(a, a + w.len()) == w,
        is_word(w),
    ensures
        ident_span(s, a, a + w.len()),
        skip_blank(s, a, false) == a,
        s[a] != '}',
{
    assert forall|k: int| a <= k < a + w.len() implies ident_char(#[trigger] s[k], k == a) by {
        assert(s[k] == s.subrange(a, a + w.len())[k - a]);
        assert(letter_or_digit(w[k - a]));
    }
    assert(s[a] == s.subrange(a, a + w.len())[0]);
}

/// A property written as a word, `=`, a simple value and `,` or `}` is
/// written in the sense of the laws.
proof fn lemma_property_is_written(s: Seq<char>, start: int, name: Seq<char>, v: Seq<char>)
    requires
        0 <= start,
        start + name.len() + 1 + v.len() < s.len(),
        s.subrange(start, start + name.len()) == name,
        s[start + name.len()] == '=',
        s.subrange(start + name.len() + 1, start + name.len() + 1 + v.len()) == v,
        s[start + name.len() + 1 + v.len()] == ',' || s[start + name.len() + 1 + v.len()] == '}',
        is_word(name),
        simple_value(v),
    ensures
        written_at(
            s,
            start,
            Written {
                name_start: start,
                name_end: start + name.len(),
                equals: start + name.len(),
                value_start: start + name.len() + 1,
                value_end: start + name.len() + 1 + v.len(),
                end: start + name.len() + 1 + v.len(),
            },
        ),
{
    let at = start + name.len() + 1;
    lemma_word_is_identifier(s, start, name);
    lemma_simple_value_closes_itself(v);
    lemma_value_is_scanned(s, at, v, 0);
    assert(braces(depth(v, 0)) =~= fresh_tracker().stack);
    if v.len() > 0 {
        assert(s[at] == s.subrange(at, at + v.len())[0]);
    }
    assert(skip_blank(s, at, false) == at);
}

/// The text of an entry with two fields, written without blank text.
pub open spec fn formatted_entry(
    ty: Seq<char>,
    key: Seq<char>,
    n1: Seq<char>,
    v1: Seq<char>,
    n2: Seq<char>,
    v2: Seq<char>,
) -> Seq<char> {
    seq!['@'] + ty + seq!['{'] + key + seq![','] + n1 + seq!['='] + v1 + seq![','] + n2 + seq![
        '=',
    ] + v2 + seq!['}']
}

/// The entry with the given type and key and the two given fields.
pub open spec fn entry_with_two_fields(
    ty: Seq<char>,
    key: Seq<char>,
    n1: Seq<char>,
    v1: Seq<char>,
    n2: Seq<char>,
    v2: Seq<char>,
) -> EntryView {
    EntryView {
        cite_key: key,
        entry_type: ty,
        fields: Map::<Seq<char>, Seq<char>>::empty().insert(n1, v1).insert(n2, v2),
    }
}

/// An entry with two fields that is written without blank text, with
/// words for its type, its key and its names, and simple values, is parsed
/// into exactly that entry: type, key, names and values as they were
/// written. The type must not announce a macro block or a preamble.
pub proof fn lemma_formatted_entry(
    ty: Seq<char>,
    key: Seq<char>,
    n1: Seq<char>,
    v1: Seq<char>,
    n2: Seq<char>,
    v2: Seq<char>,
    allow_bibtex: bool,
)
    requires
        is_word(ty),
        is_word(key),
        is_word(n1),
        is_word(n2),
        simple_value(v1),
        simple_value(v2),
        block_kind_of(lowercase_of(ty), allow_bibtex) == BlockKind::Entry,
    ensures
        parse_spec(formatted_entry(ty, key, n1, v1, n2, v2), allow_bibtex) == (FileView {
            preamble: Seq::empty(),
            entries: seq![entry_with_two_fields(ty, key, n1, v1, n2, v2)],
            macros: Map::empty(),
        }),
        n1 != n2 ==> entry_with_two_fields(ty, key, n1, v1, n2, v2).fields.len() == 2,
{
    let s = formatted_entry(ty, key, n1, v1, n2, v2);
    let type_end: int = ty.len() as int + 1;
    let key_end: int = type_end + 1 + key.len();
    let first: int = key_end + 1;
    let first_equals: int = first + n1.len();
    let first_end: int = first_equals + 1 + v1.len();
    let second: int = first_end + 1;
    let second_equals: int = second + n2.len();
    let second_end: int = second_equals + 1 + v2.len();
    assert(s.len() == second_end + 1);
    assert(s[0] == '@');
    assert(s.subrange(1, type_end) =~= ty);
    assert(s[type_end] == '{');
    assert(s.subrange(type_end + 1, key_end) =~= key);
    assert(s[key_end] == ',');
    assert(s.subrange(first, first_equals) =~= n1);
    assert(s[first_equals] == '=');
    assert(s.subrange(first_equals + 1, first_end) =~= v1);
    assert(s[first_end] == ',');
    assert(s.subrange(second, second_equals) =~= n2);
    assert(s[second_equals] == '=');
    assert(s.subrange(second_equals + 1, second_end) =~= v2);
    assert(s[second_end] == '}');

    let w1 = Written {
        name_start: first,
        name_end: first_equals,
        equals: first_equals,
        value_start: first_equals + 1,
        value_end: first_end,
        end: first_end,
    };
    let w2 = Written {
        name_start: second,
        name_end: second_equals,
        equals: second_equals,
        value_start: second_equals + 1,
        value_end: second_end,
        end: second_end,
    };
    let props = seq![w1, w2];
    let e = WrittenEntry { at: 0, type_end, key_end, props, close: second_end };
    lemma_word_is_identifier(s, 1, ty);
    lemma_word_is_identifier(s, type_end + 1, key);
    lemma_property_is_written(s, first, n1, v1);
    lemma_property_is_written(s, second, n2, v2);
    assert(props.drop_first() =~= seq![w2]);
    assert(properties_at(s, second, seq![w2], second_end));
    assert(properties_at(s, first, props, second_end));
    assert(entry_written(s, allow_bibtex, e));
    lemma_single_entry(s, allow_bibtex, e);

    let empty = Map::<Seq<char>, Seq<char>>::empty();
    assert(seq![w2].drop_first() =~= Seq::<Written>::empty());
    assert(written_fields(s, seq![w2], empty.insert(n1, v1)) == empty.insert(n1, v1).insert(
        n2,
        v2,
    )) by {
        reveal_with_fuel(written_fields, 2);
    }
    assert(written_fields(s, props, empty) == empty.insert(n1, v1).insert(n2, v2));
    assert(entry_as_written(s, e) == entry_with_two_fields(ty, key, n1, v1, n2, v2));
    if n1 != n2 {
        assert(empty.insert(n1, v1).insert(n2, v2).dom() =~= set![n1, n2]);
    }
}

} // verus!

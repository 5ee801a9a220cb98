//! What holds of every parse.

use crate::chars::{control_code, lowercase_of, white_space};
use crate::grammar::{
    after_equals, block_in_bounds, block_kind_of, block_step, commit, empty_file, entry_of,
    entry_step, feed, fresh_tracker, ident_char, ident_end, left, lemma_block_step_bounds,
    lemma_read_property_bounds, lemma_run_block_bounds, lemma_scan_value_bounds,
    lemma_skip_blank_bounds, lemma_skip_blank_idempotent, line_end, open_block, parse_from,
    parse_spec, preamble_word, read_property, record_property, run_block, scan_value, skip_blank,
    string_word, type_step, Block, BlockKind, EntryView, FileView, ParseMode, Property, Tracker,
    ValueEnd, ValueSpan, Verdict,
};
use crate::scanner::{id_continue, id_start, inner_punctuation, newline, reserved};
use crate::syntax::BiblatexFile;
use vstd::prelude::*;

verus! {

/// Where no `@` stands at or after `pos`, nothing more is read.
pub proof fn lemma_no_block_ahead(
    s: Seq<char>,
    allow_bibtex: bool,
    pos: int,
    comment: bool,
    file: FileView,
)
    requires
        0 <= pos,
        forall|i: int| pos <= i < s.len() ==> s[i] != '@',
    ensures
        parse_from(s, allow_bibtex, pos, comment, file) == file,
    decreases s.len() - pos,
{
    if pos < s.len() {
        if s[pos] == '%' {
            lemma_no_block_ahead(s, allow_bibtex, pos + 1, true, file);
        } else if line_end(s[pos]) {
            lemma_no_block_ahead(s, allow_bibtex, pos + 1, false, file);
        } else {
            lemma_no_block_ahead(s, allow_bibtex, pos + 1, comment, file);
        }
    }
}

/// A source without any `@` yields no entries, no macros and an empty
/// preamble.
pub proof fn lemma_source_without_blocks(s: Seq<char>, allow_bibtex: bool)
    requires
        forall|i: int| 0 <= i < s.len() ==> s[i] != '@',
    ensures
        parse_spec(s, allow_bibtex) == empty_file(),
        parse_spec(s, allow_bibtex).entries.len() == 0,
        parse_spec(s, allow_bibtex).macros == Map::<Seq<char>, Seq<char>>::empty(),
        parse_spec(s, allow_bibtex).preamble.len() == 0,
{
    lemma_no_block_ahead(s, allow_bibtex, 0, false, empty_file());
}

/// Two parses of the same text with the same option yield the same file:
/// what a parse returns depends on nothing else.
pub proof fn lemma_parse_is_repeatable(
    first: BiblatexFile<'_>,
    second: BiblatexFile<'_>,
    src: &str,
    again: &str,
    allow_bibtex: bool,
)
    requires
        src@ == again@,
        first@ == parse_spec(src@, allow_bibtex),
        second@ == parse_spec(again@, allow_bibtex),
    ensures
        first@ == second@,
        first@.preamble == second@.preamble,
        first@.entries == second@.entries,
        first@.macros == second@.macros,
{
}

/// A `{`, `}` or `"` behind a backslash is an ordinary character of the
/// value: it opens and closes nothing, and it does not end the value.
pub proof fn lemma_escaped_delimiter_is_literal(t: Tracker, c: char)
    requires
        t.escape,
        c == '{' || c == '}' || c == '"',
    ensures
        feed(t, c).1 == Verdict::Accepted,
        feed(t, c).0.stack == t.stack,
        !feed(t, c).0.escape,
{
}

/// A backslash followed by `{`, `}` or `"` is passed over as a whole: the
/// value goes on behind the pair, which belongs to it, with the same
/// delimiters open as before.
pub proof fn lemma_escaped_pair_is_passed(s: Seq<char>, pos: int, end: int, t: Tracker)
    requires
        0 <= pos,
        pos + 1 < s.len(),
        s[pos] == '\\',
        s[pos + 1] == '{' || s[pos + 1] == '}' || s[pos + 1] == '"',
    ensures
        scan_value(s, pos, end, t) == scan_value(
            s,
            pos + 2,
            pos + 2,
            Tracker { stack: t.stack, escape: false },
        ),
{
    let held = Tracker { stack: t.stack, escape: true };
    assert(feed(t, s[pos]) == (held, Verdict::Pending));
    assert(scan_value(s, pos, end, t) == scan_value(s, pos + 1, end, held));
    lemma_escaped_delimiter_is_literal(held, s[pos + 1]);
    assert(feed(held, s[pos + 1]).0 == (Tracker { stack: t.stack, escape: false }));
}

/// The name of a property, as the source has it.
pub open spec fn name_of(s: Seq<char>, p: Property) -> Seq<char> {
    s.subrange(p.name_start, p.name_end)
}

/// The raw value of a property, as the source has it.
pub open spec fn value_of(s: Seq<char>, p: Property) -> Seq<char> {
    s.subrange(p.value_start, p.value_end)
}

/// A property that has been read is found under its name afterwards,
/// whatever stood under that name before, and nothing else changes.
pub proof fn lemma_property_is_recorded(s: Seq<char>, b: Block, p: Property)
    requires
        p.how != ValueEnd::Mismatch,
    ensures
        b.is_string ==> record_property(s, b, p).macros == b.macros.insert(
            name_of(s, p),
            value_of(s, p),
        ) && record_property(s, b, p).fields == b.fields,
        !b.is_string ==> record_property(s, b, p).fields == b.fields.insert(
            name_of(s, p),
            value_of(s, p),
        ) && record_property(s, b, p).macros == b.macros,
        !b.is_string ==> record_property(s, b, p).fields[name_of(s, p)] == value_of(s, p),
        b.is_string ==> record_property(s, b, p).macros[name_of(s, p)] == value_of(s, p),
{
}

/// Of two properties with the same name in one block, the value of the
/// later one is kept.
pub proof fn lemma_later_duplicate_wins(s: Seq<char>, b: Block, earlier: Property, later: Property)
    requires
        earlier.how != ValueEnd::Mismatch,
        later.how != ValueEnd::Mismatch,
        name_of(s, earlier) == name_of(s, later),
    ensures
        !b.is_string ==> record_property(s, record_property(s, b, earlier), later).fields
            == b.fields.insert(name_of(s, later), value_of(s, later)),
        b.is_string ==> record_property(s, record_property(s, b, earlier), later).macros
            == b.macros.insert(name_of(s, later), value_of(s, later)),
{
    let name = name_of(s, later);
    assert(b.fields.insert(name, value_of(s, earlier)).insert(name, value_of(s, later))
        =~= b.fields.insert(name, value_of(s, later)));
    assert(b.macros.insert(name, value_of(s, earlier)).insert(name, value_of(s, later))
        =~= b.macros.insert(name, value_of(s, later)));
}

/// The span `from .. to` holds a line comment: it starts with `%` and no
/// line ends inside it.
pub open spec fn comment_at(s: Seq<char>, from: int, to: int) -> bool {
    &&& 0 <= from < to <= s.len()
    &&& s[from] == '%'
    &&& forall|k: int| from <= k < to ==> !line_end(#[trigger] s[k])
}

/// What stands inside a comment makes no difference to where blank text
/// ends.
pub proof fn lemma_inside_comment(s: Seq<char>, pos: int, to: int)
    requires
        0 <= pos <= to <= s.len(),
        forall|k: int| pos <= k < to ==> !line_end(#[trigger] s[k]),
    ensures
        skip_blank(s, pos, true) == skip_blank(s, to, true),
    decreases to - pos,
{
    if pos < to {
        lemma_inside_comment(s, pos + 1, to);
    }
}

/// Whitespace and line ends before a comment, and the comment itself, are
/// blank text: skipping from `pos` is skipping from the end of the comment.
pub proof fn lemma_comment_is_blank(s: Seq<char>, pos: int, from: int, to: int)
    requires
        0 <= pos <= from,
        forall|k: int|
            pos <= k < from ==> s[k] != '%' && (white_space(#[trigger] s[k]) || line_end(s[k])),
        comment_at(s, from, to),
    ensures
        skip_blank(s, pos, false) == skip_blank(s, to, true),
        to <= skip_blank(s, pos, false) <= s.len(),
    decreases from - pos,
{
    if pos < from {
        lemma_comment_is_blank(s, pos + 1, from, to);
    } else {
        lemma_inside_comment(s, from + 1, to);
        lemma_skip_blank_bounds(s, to, true);
    }
}

/// A comment between two properties belongs to neither: the value before
/// it ends before the separator, and name and value of the property after
/// it start behind the end of the comment.
pub proof fn lemma_comment_between_properties(s: Seq<char>, pos: int, from: int, to: int)
    requires
        0 <= pos,
        read_property(s, pos).how == ValueEnd::Separator,
        read_property(s, pos).next <= from,
        forall|k: int|
            read_property(s, pos).next <= k < from ==> s[k] != '%' && (white_space(
                #[trigger] s[k],
            ) || line_end(s[k])),
        comment_at(s, from, to),
    ensures
        read_property(s, pos).value_end < read_property(s, pos).next <= from,
        to <= read_property(s, read_property(s, pos).next).name_start,
        to <= read_property(s, read_property(s, pos).next).value_start,
        read_property(s, read_property(s, pos).next).value_start <= read_property(
            s,
            read_property(s, pos).next,
        ).value_end,
{
    let next = read_property(s, pos).next;
    if pos <= s.len() {
        lemma_read_property_bounds(s, pos);
    } else {
        assert(skip_blank(s, pos, false) == pos);
    }
    lemma_comment_is_blank(s, next, from, to);
    lemma_read_property_bounds(s, next);
}

/// Every character of `start .. end` may stand at its place in an
/// identifier that starts at `start`.
pub open spec fn ident_span(s: Seq<char>, start: int, end: int) -> bool {
    &&& 0 <= start <= end <= s.len()
    &&& forall|k: int| start <= k < end ==> ident_char(#[trigger] s[k], k == start)
}

/// A property as it is written: a name, an `=`, a value, and the character
/// that ends the value.
pub struct Written {
    pub name_start: int,
    pub name_end: int,
    pub equals: int,
    pub value_start: int,
    pub value_end: int,
    pub end: int,
}

/// The property `w` is written at `start`: after blank text stands its
/// name, an identifier; the next `=` stands at `w.equals`; after more blank
/// text its value starts, which is ended by the `,` or `}` at `w.end`.
pub open spec fn written_at(s: Seq<char>, start: int, w: Written) -> bool {
    &&& 0 <= start
    &&& skip_blank(s, start, false) == w.name_start
    &&& ident_span(s, w.name_start, w.name_end)
    &&& w.name_end <= w.equals < w.end < s.len()
    &&& s[w.name_start] != '}'
    &&& !ident_char(s[w.name_end], w.name_end == w.name_start)
    &&& s[w.equals] == '='
    &&& forall|k: int| w.name_end <= k < w.equals ==> s[k] != '='
    &&& skip_blank(s, w.equals + 1, false) == w.value_start
    &&& s[w.end] == ',' || s[w.end] == '}'
    &&& scan_value(s, w.value_start, w.value_start, fresh_tracker()) == (ValueSpan {
        end: w.value_end,
        next: w.end + 1,
        how: if s[w.end] == ',' {
            ValueEnd::Separator
        } else {
            ValueEnd::BlockEnd
        },
    })
}

/// The properties `props` are written one after the other from `start` on,
/// each but the last ended by a `,`, and the block is closed by the `}` at
/// `close`: either the one that ends the last value, or one that follows
/// the last `,` after blank text.
pub open spec fn properties_at(s: Seq<char>, start: int, props: Seq<Written>, close: int) -> bool
    decreases props.len(),
{
    if props.len() == 0 {
        0 <= start <= close < s.len() && skip_blank(s, start, false) == close && s[close] == '}'
    } else {
        &&& written_at(s, start, props[0])
        &&& if s[props[0].end] == ',' {
            properties_at(s, props[0].end + 1, props.drop_first(), close)
        } else {
            props.len() == 1 && close == props[0].end
        }
    }
}

/// The fields after the properties `props` have been recorded in turn, on
/// top of `fields`.
pub open spec fn written_fields(
    s: Seq<char>,
    props: Seq<Written>,
    fields: Map<Seq<char>, Seq<char>>,
) -> Map<Seq<char>, Seq<char>>
    decreases props.len(),
{
    if props.len() == 0 {
        fields
    } else {
        written_fields(
            s,
            props.drop_first(),
            fields.insert(
                s.subrange(props[0].name_start, props[0].name_end),
                s.subrange(props[0].value_start, props[0].value_end),
            ),
        )
    }
}

/// An entry as it is written: `@`, a type, `{`, a key, `,`, properties and
/// the closing `}`.
pub struct WrittenEntry {
    pub at: int,
    pub type_end: int,
    pub key_end: int,
    pub props: Seq<Written>,
    pub close: int,
}

/// The entry `e` is written in `s`: behind the `@` at `e.at` stands a type,
/// an identifier that announces an entry, then `{`, a key, which is an
/// identifier too, then `,` and the properties up to the closing `}`.
pub open spec fn entry_written(s: Seq<char>, allow_bibtex: bool, e: WrittenEntry) -> bool {
    &&& 0 <= e.at < e.type_end < e.key_end < s.len()
    &&& s[e.at] == '@'
    &&& ident_span(s, e.at + 1, e.type_end)
    &&& s[e.type_end] == '{'
    &&& block_kind_of(lowercase_of(s.subrange(e.at + 1, e.type_end)), allow_bibtex)
        == BlockKind::Entry
    &&& ident_span(s, e.type_end + 1, e.key_end)
    &&& s[e.key_end] == ','
    &&& properties_at(s, e.key_end + 1, e.props, e.close)
}

/// What the parser returns for a written entry: type, key and names as
/// they stand in the source, and each value as it stands there.
pub open spec fn entry_as_written(s: Seq<char>, e: WrittenEntry) -> EntryView {
    EntryView {
        cite_key: s.subrange(e.type_end + 1, e.key_end),
        entry_type: s.subrange(e.at + 1, e.type_end),
        fields: written_fields(s, e.props, Map::empty()),
    }
}

/// An identifier that stands at `start .. end` and is not continued at
/// `end` is read as exactly that span.
pub proof fn lemma_identifier_is_read(s: Seq<char>, pos: int, start: int, end: int)
    requires
        ident_span(s, start, end),
        start <= pos <= end,
        end == s.len() || !ident_char(s[end], end == start),
    ensures
        ident_end(s, pos, start) == end,
    decreases end - pos,
{
    if pos < end {
        lemma_identifier_is_read(s, pos + 1, start, end);
    }
}

/// Where the next `=` stands at `equals`, the search for it ends behind
/// that place.
pub proof fn lemma_equals_is_found(s: Seq<char>, pos: int, equals: int)
    requires
        0 <= pos <= equals < s.len(),
        s[equals] == '=',
        forall|k: int| pos <= k < equals ==> s[k] != '=',
    ensures
        after_equals(s, pos) == equals + 1,
    decreases equals - pos,
{
    if pos < equals {
        lemma_equals_is_found(s, pos + 1, equals);
    }
}

/// A written property is read as it is written.
pub proof fn lemma_written_is_read(s: Seq<char>, start: int, w: Written)
    requires
        written_at(s, start, w),
        start <= s.len(),
    ensures
        read_property(s, w.name_start) == (Property {
            name_start: w.name_start,
            name_end: w.name_end,
            value_start: w.value_start,
            value_end: w.value_end,
            next: w.end + 1,
            how: if s[w.end] == ',' {
                ValueEnd::Separator
            } else {
                ValueEnd::BlockEnd
            },
        }),
        start <= w.name_start,
{
    lemma_skip_blank_bounds(s, start, false);
    lemma_skip_blank_idempotent(s, start, false);
    lemma_identifier_is_read(s, w.name_start, w.name_start, w.name_end);
    lemma_equals_is_found(s, w.name_end, w.equals);
}

/// The block machine reads a type that is written as an identifier
/// followed by `{` as exactly that identifier, and goes on behind the `{`.
pub proof fn lemma_type_is_read(s: Seq<char>, allow_bibtex: bool, b: Block, end: int)
    requires
        b.mode == ParseMode::Type,
        block_in_bounds(s, b),
        b.type_end == b.pos,
        ident_span(s, b.type_start, end),
        b.pos <= end < s.len(),
        s[end] == '{',
    ensures
        run_block(s, allow_bibtex, b) == run_block(
            s,
            allow_bibtex,
            type_step(s, allow_bibtex, Block { pos: end, type_end: end, ..b }),
        ),
    decreases end - b.pos,
{
    if b.pos < end {
        let next = Block { pos: b.pos + 1, type_end: b.pos + 1, ..b };
        assert(block_step(s, allow_bibtex, b) == next);
        lemma_type_is_read(s, allow_bibtex, next, end);
    } else {
        assert(b == Block { pos: end, type_end: end, ..b });
    }
}

/// The block machine reads a key that is written as an identifier
/// followed by `,` as exactly that identifier, and goes on behind the `,`.
pub proof fn lemma_key_is_read(s: Seq<char>, allow_bibtex: bool, b: Block, end: int)
    requires
        b.mode == ParseMode::KeyMode,
        block_in_bounds(s, b),
        b.key_end == b.pos,
        ident_span(s, b.key_start, end),
        b.pos <= end < s.len(),
        s[end] == ',',
    ensures
        run_block(s, allow_bibtex, b) == run_block(
            s,
            allow_bibtex,
            Block { pos: end + 1, key_end: end, mode: ParseMode::EntryMode, ..b },
        ),
    decreases end - b.pos,
{
    if b.pos < end {
        let next = Block { pos: b.pos + 1, key_end: b.pos + 1, ..b };
        assert(block_step(s, allow_bibtex, b) == next);
        lemma_key_is_read(s, allow_bibtex, next, end);
    } else {
        assert(block_step(s, allow_bibtex, b) == Block {
            pos: end + 1,
            key_end: end,
            mode: ParseMode::EntryMode,
            ..b
        });
    }
}

/// The block machine reads written properties as they are written, puts
/// them to the fields of the entry, or to the macros of the file in a block
/// of macro definitions, and closes the block at its `}`.
pub proof fn lemma_properties_are_read(
    s: Seq<char>,
    allow_bibtex: bool,
    b: Block,
    props: Seq<Written>,
    close: int,
)
    requires
        b.mode == ParseMode::EntryMode,
        block_in_bounds(s, b),
        properties_at(s, b.pos, props, close),
    ensures
        run_block(s, allow_bibtex, b) == (Block {
            mode: ParseMode::Outside,
            pos: close + 1,
            closed: true,
            fields: if b.is_string {
                b.fields
            } else {
                written_fields(s, props, b.fields)
            },
            macros: if b.is_string {
                written_fields(s, props, b.macros)
            } else {
                b.macros
            },
            ..b
        }),
    decreases props.len(),
{
    lemma_skip_blank_bounds(s, b.pos, false);
    if props.len() == 0 {
        let next = Block { mode: ParseMode::Outside, pos: close + 1, closed: true, ..b };
        assert(block_step(s, allow_bibtex, b) == next);
        assert(run_block(s, allow_bibtex, b) == run_block(s, allow_bibtex, next));
    } else {
        let w = props[0];
        lemma_written_is_read(s, b.pos, w);
        let name = s.subrange(w.name_start, w.name_end);
        let value = s.subrange(w.value_start, w.value_end);
        let next = record_property(s, b, read_property(s, w.name_start));
        assert(written_fields(s, props, b.fields) == written_fields(
            s,
            props.drop_first(),
            b.fields.insert(name, value),
        ));
        assert(written_fields(s, props, b.macros) == written_fields(
            s,
            props.drop_first(),
            b.macros.insert(name, value),
        ));
        assert(entry_step(s, b) == next);
        assert(block_step(s, allow_bibtex, b) == next);
        assert(next.pos == w.end + 1);
        assert(run_block(s, allow_bibtex, b) == run_block(s, allow_bibtex, next));
        if s[w.end] == ',' {
            lemma_properties_are_read(s, allow_bibtex, next, props.drop_first(), close);
        } else {
            assert(props.drop_first().len() == 0);
            assert(run_block(s, allow_bibtex, next) == next);
        }
    }
}

/// A block of macro definitions as it is written: `@`, a type, `{`,
/// properties and the closing `}`.
pub struct WrittenMacros {
    pub at: int,
    pub type_end: int,
    pub props: Seq<Written>,
    pub close: int,
}

/// The macro definitions `m` are written in `s`: behind the `@` at `m.at`
/// stands a type, an identifier that announces macro definitions, then `{`
/// and the properties up to the closing `}`.
pub open spec fn macros_written(s: Seq<char>, allow_bibtex: bool, m: WrittenMacros) -> bool {
    &&& 0 <= m.at < m.type_end < s.len()
    &&& s[m.at] == '@'
    &&& ident_span(s, m.at + 1, m.type_end)
    &&& s[m.type_end] == '{'
    &&& block_kind_of(lowercase_of(s.subrange(m.at + 1, m.type_end)), allow_bibtex)
        == BlockKind::Macro
    &&& properties_at(s, m.type_end + 1, m.props, m.close)
}

/// Macro definitions that are written in the source are read as they are
/// written: each name gets its raw value in the macros of the file, and no
/// entry is added.
pub proof fn lemma_written_macros_are_read(
    s: Seq<char>,
    allow_bibtex: bool,
    file: FileView,
    m: WrittenMacros,
)
    requires
        macros_written(s, allow_bibtex, m),
    ensures
        commit(s, file, run_block(s, allow_bibtex, open_block(m.at + 1, file))) == (FileView {
            macros: written_fields(s, m.props, file.macros),
            ..file
        }),
        parse_from(s, allow_bibtex, m.at, false, file) == parse_from(
            s,
            allow_bibtex,
            m.close + 1,
            false,
            FileView { macros: written_fields(s, m.props, file.macros), ..file },
        ),
{
    let first = open_block(m.at + 1, file);
    lemma_type_is_read(s, allow_bibtex, first, m.type_end);
    let body = Block {
        pos: m.type_end + 1,
        type_end: m.type_end,
        mode: ParseMode::EntryMode,
        is_string: true,
        ..first
    };
    assert(type_step(s, allow_bibtex, Block { pos: m.type_end, type_end: m.type_end, ..first })
        == body);
    lemma_properties_are_read(s, allow_bibtex, body, m.props, m.close);
    lemma_properties_close_ahead(s, m.type_end + 1, m.props, m.close);
}

/// An entry that is written in the source is read as it is written: the
/// block machine closes it at its `}` with the type, the key, the names and
/// the raw values that stand in the source.
pub proof fn lemma_written_entry_is_read(
    s: Seq<char>,
    allow_bibtex: bool,
    file: FileView,
    e: WrittenEntry,
)
    requires
        entry_written(s, allow_bibtex, e),
    ensures
        run_block(s, allow_bibtex, open_block(e.at + 1, file)).pos == e.close + 1,
        run_block(s, allow_bibtex, open_block(e.at + 1, file)).mode == ParseMode::Outside,
        commit(s, file, run_block(s, allow_bibtex, open_block(e.at + 1, file))) == (FileView {
            entries: file.entries.push(entry_as_written(s, e)),
            ..file
        }),
        parse_from(s, allow_bibtex, e.at, false, file) == parse_from(
            s,
            allow_bibtex,
            e.close + 1,
            false,
            FileView { entries: file.entries.push(entry_as_written(s, e)), ..file },
        ),
{
    let first = open_block(e.at + 1, file);
    lemma_type_is_read(s, allow_bibtex, first, e.type_end);
    let key = Block {
        pos: e.type_end + 1,
        type_end: e.type_end,
        mode: ParseMode::KeyMode,
        key_start: e.type_end + 1,
        key_end: e.type_end + 1,
        ..first
    };
    assert(type_step(s, allow_bibtex, Block { pos: e.type_end, type_end: e.type_end, ..first })
        == key);
    lemma_key_is_read(s, allow_bibtex, key, e.key_end);
    let body = Block { pos: e.key_end + 1, key_end: e.key_end, mode: ParseMode::EntryMode, ..key };
    lemma_properties_are_read(s, allow_bibtex, body, e.props, e.close);
    lemma_properties_close_ahead(s, e.key_end + 1, e.props, e.close);
}

/// The closing `}` of written properties stands at or behind their start,
/// inside the source.
pub proof fn lemma_properties_close_ahead(s: Seq<char>, start: int, props: Seq<Written>, close: int)
    requires
        0 <= start <= s.len(),
        properties_at(s, start, props, close),
    ensures
        start <= close < s.len(),
    decreases props.len(),
{
    if props.len() > 0 {
        lemma_skip_blank_bounds(s, start, false);
        if s[props[0].end] == ',' {
            lemma_properties_close_ahead(s, props[0].end + 1, props.drop_first(), close);
        }
    }
}

/// A source that holds one written entry at its start, and no `@` behind
/// it, is parsed into exactly that entry: its type, its key and the names
/// of its fields as written, with each value as it stands in the source.
pub proof fn lemma_single_entry(s: Seq<char>, allow_bibtex: bool, e: WrittenEntry)
    requires
        entry_written(s, allow_bibtex, e),
        e.at == 0,
        forall|i: int| e.close < i < s.len() ==> s[i] != '@',
    ensures
        parse_spec(s, allow_bibtex) == (FileView {
            preamble: Seq::empty(),
            entries: seq![entry_as_written(s, e)],
            macros: Map::empty(),
        }),
{
    let file = empty_file();
    lemma_written_entry_is_read(s, allow_bibtex, file, e);
    let after = FileView { entries: file.entries.push(entry_as_written(s, e)), ..file };
    lemma_no_block_ahead(s, allow_bibtex, e.close + 1, false, after);
    assert(file.entries.push(entry_as_written(s, e)) =~= seq![entry_as_written(s, e)]);
}

/// The raw value is the text from its start up to the character that ends
/// it, unless backslashes stand directly before that character: those are
/// left out.
pub proof fn lemma_value_reaches_its_end(s: Seq<char>, pos: int, end: int, t: Tracker)
    requires
        0 <= end <= pos <= s.len(),
        forall|k: int| end <= k < pos ==> s[k] == '\\',
        scan_value(s, pos, end, t).how != ValueEnd::Exhausted,
    ensures
        forall|k: int|
            scan_value(s, pos, end, t).end <= k < scan_value(s, pos, end, t).next - 1 ==> s[k]
                == '\\',
    decreases s.len() - pos,
{
    if pos < s.len() {
        let (after, verdict) = feed(t, s[pos]);
        match verdict {
            Verdict::Pending => lemma_value_reaches_its_end(s, pos + 1, end, after),
            Verdict::Accepted => lemma_value_reaches_its_end(s, pos + 1, pos + 1, after),
            _ => {},
        }
    }
}

/// The raw value of a written property is the text between the blank text
/// behind `=` and the character that ends the value, where no backslash
/// stands directly before that character.
pub proof fn lemma_written_value_is_whole(s: Seq<char>, start: int, w: Written)
    requires
        written_at(s, start, w),
        w.end == w.value_start || s[w.end - 1] != '\\',
        0 <= w.value_start <= s.len(),
    ensures
        w.value_end == w.end,
{
    lemma_value_reaches_its_end(s, w.value_start, w.value_start, fresh_tracker());
    lemma_scan_value_bounds(s, w.value_start, w.value_start, fresh_tracker());
}

/// The two rules for identifiers of the cursor, and nothing else, decide
/// which characters the parser takes into a type, a key or a name. So no
/// reserved character, no control code, no whitespace and no line end
/// stands in one, and inner punctuation does not start one.
pub proof fn lemma_identifier_rules(c: char)
    ensures
        ident_char(c, true) == id_start(c),
        ident_char(c, false) == id_continue(c),
        reserved(c) || control_code(c) || white_space(c) || newline(c) ==> !ident_char(c, true)
            && !ident_char(c, false),
        inner_punctuation(c) ==> !ident_char(c, true) && ident_char(c, false),
{
}

/// A block of macro definitions never yields an entry: once properties go
/// to the macros of the file, they do so to the end of the block.
pub proof fn lemma_macro_block_gives_no_entry(
    s: Seq<char>,
    allow_bibtex: bool,
    file: FileView,
    b: Block,
)
    requires
        b.is_string,
    ensures
        run_block(s, allow_bibtex, b).is_string,
        run_block(s, allow_bibtex, b).fields == b.fields,
        commit(s, file, run_block(s, allow_bibtex, b)).entries == file.entries,
    decreases left(s, b.pos),
{
    if b.mode != ParseMode::Outside && 0 <= b.pos < s.len() {
        let next = block_step(s, allow_bibtex, b);
        if next.pos > b.pos {
            lemma_macro_block_gives_no_entry(s, allow_bibtex, file, next);
        }
    }
}

/// A preamble block yields no entry and leaves fields and macros as they
/// were.
pub proof fn lemma_preamble_block_gives_no_entry(
    s: Seq<char>,
    allow_bibtex: bool,
    file: FileView,
    b: Block,
)
    requires
        b.mode == ParseMode::PreambleMode,
        !b.closed,
    ensures
        !run_block(s, allow_bibtex, b).closed,
        run_block(s, allow_bibtex, b).fields == b.fields,
        run_block(s, allow_bibtex, b).macros == b.macros,
        commit(s, file, run_block(s, allow_bibtex, b)).entries == file.entries,
{
    if 0 <= b.pos < s.len() {
        let next = block_step(s, allow_bibtex, b);
        assert(next.mode == ParseMode::Outside);
        assert(run_block(s, allow_bibtex, next) == next);
        assert(run_block(s, allow_bibtex, b) == next);
    }
}

/// A block whose header is malformed is dropped: where a character that
/// belongs neither to the type nor to the key sends the block machine back
/// outside, the file stays as it was and reading goes on at that character.
pub proof fn lemma_malformed_header_is_dropped(
    s: Seq<char>,
    allow_bibtex: bool,
    file: FileView,
    b: Block,
)
    requires
        b.mode == ParseMode::Type || b.mode == ParseMode::KeyMode,
        0 <= b.pos < s.len(),
        !b.closed,
        b.preamble == file.preamble,
        b.macros == file.macros,
        block_step(s, allow_bibtex, b).mode == ParseMode::Outside,
    ensures
        run_block(s, allow_bibtex, b).pos == b.pos,
        commit(s, file, run_block(s, allow_bibtex, b)) == file,
{
}

/// The text `t` stands in the source `s` as it is: it is what `s` holds
/// between two of its positions.
pub open spec fn is_span(s: Seq<char>, t: Seq<char>) -> bool {
    exists|from: int, to: int| 0 <= from <= to <= s.len() && t == #[trigger] s.subrange(from, to)
}

/// Every name of the map, and every text under a name, stands in the
/// source as it is.
pub open spec fn made_of_spans(s: Seq<char>, m: Map<Seq<char>, Seq<char>>) -> bool {
    forall|name: Seq<char>| #[trigger]
        m.contains_key(name) ==> is_span(s, name) && is_span(s, m[name])
}

/// Type, key, names and raw values of the entry stand in the source as
/// they are.
pub open spec fn entry_made_of_spans(s: Seq<char>, e: EntryView) -> bool {
    &&& is_span(s, e.cite_key)
    &&& is_span(s, e.entry_type)
    &&& made_of_spans(s, e.fields)
}

/// Everything in the file but its preamble stands in the source as it is.
pub open spec fn file_made_of_spans(s: Seq<char>, file: FileView) -> bool {
    &&& made_of_spans(s, file.macros)
    &&& forall|i: int|
        0 <= i < file.entries.len() ==> entry_made_of_spans(s, #[trigger] file.entries[i])
}

/// What lies between two positions of the source stands in it as it is.
pub proof fn lemma_subrange_is_span(s: Seq<char>, from: int, to: int)
    requires
        0 <= from <= to <= s.len(),
    ensures
        is_span(s, s.subrange(from, to)),
{
}

/// The block machine takes names and raw values from the source as they
/// are.
pub proof fn lemma_block_is_made_of_spans(s: Seq<char>, allow_bibtex: bool, b: Block)
    requires
        block_in_bounds(s, b),
        made_of_spans(s, b.fields),
        made_of_spans(s, b.macros),
    ensures
        made_of_spans(s, run_block(s, allow_bibtex, b).fields),
        made_of_spans(s, run_block(s, allow_bibtex, b).macros),
    decreases left(s, b.pos),
{
    if b.mode != ParseMode::Outside && b.pos < s.len() {
        let next = block_step(s, allow_bibtex, b);
        lemma_block_step_bounds(s, allow_bibtex, b);
        if b.mode == ParseMode::EntryMode {
            lemma_skip_blank_bounds(s, b.pos, false);
            let p = read_property(s, skip_blank(s, b.pos, false));
            lemma_read_property_bounds(s, skip_blank(s, b.pos, false));
            lemma_subrange_is_span(s, p.name_start, p.name_end);
            lemma_subrange_is_span(s, p.value_start, p.value_end);
        }
        assert(made_of_spans(s, next.fields));
        assert(made_of_spans(s, next.macros));
        if next.pos > b.pos {
            lemma_block_is_made_of_spans(s, allow_bibtex, next);
        }
    }
}

/// Reading on from `pos` adds to the file only what stands in the source
/// as it is.
pub proof fn lemma_parse_keeps_spans(
    s: Seq<char>,
    allow_bibtex: bool,
    pos: int,
    comment: bool,
    file: FileView,
)
    requires
        0 <= pos,
        file_made_of_spans(s, file),
    ensures
        file_made_of_spans(s, parse_from(s, allow_bibtex, pos, comment, file)),
    decreases left(s, pos),
{
    if pos < s.len() {
        if s[pos] == '@' && !comment {
            let first = open_block(pos + 1, file);
            assert(made_of_spans(s, first.fields));
            let b = run_block(s, allow_bibtex, first);
            lemma_run_block_bounds(s, allow_bibtex, first);
            lemma_block_is_made_of_spans(s, allow_bibtex, first);
            let after = commit(s, file, b);
            lemma_subrange_is_span(s, b.key_start, b.key_end);
            lemma_subrange_is_span(s, b.type_start, b.type_end);
            assert(entry_made_of_spans(s, entry_of(s, b)));
            assert(file_made_of_spans(s, after));
            if b.pos > pos {
                lemma_parse_keeps_spans(s, allow_bibtex, b.pos, false, after);
            }
        } else if s[pos] == '%' {
            lemma_parse_keeps_spans(s, allow_bibtex, pos + 1, true, file);
        } else if line_end(s[pos]) {
            lemma_parse_keeps_spans(s, allow_bibtex, pos + 1, false, file);
        } else {
            lemma_parse_keeps_spans(s, allow_bibtex, pos + 1, comment, file);
        }
    }
}

/// Whatever the source holds, every citation key, every type, every name
/// and every raw value of the file that it describes stands in the source
/// as it is: nothing is unescaped, cut or put together.
pub proof fn lemma_result_is_made_of_spans(s: Seq<char>, allow_bibtex: bool)
    ensures
        file_made_of_spans(s, parse_spec(s, allow_bibtex)),
{
    lemma_parse_keeps_spans(s, allow_bibtex, 0, false, empty_file());
}

/// No piece of the source is, in lowercase, the word `string` or the word
/// `preamble`.
pub open spec fn no_legacy_type(s: Seq<char>) -> bool {
    forall|from: int, to: int|
        0 <= from <= to <= s.len() ==> lowercase_of(#[trigger] s.subrange(from, to))
            != string_word() && lowercase_of(s.subrange(from, to)) != preamble_word()
}

/// Where no type announces a macro block or a preamble, the block machine
/// runs the same whether the legacy constructs are allowed or not.
pub proof fn lemma_flag_is_idle_in_block(s: Seq<char>, b: Block)
    requires
        no_legacy_type(s),
        block_in_bounds(s, b),
    ensures
        run_block(s, true, b) == run_block(s, false, b),
    decreases left(s, b.pos),
{
    if b.mode != ParseMode::Outside && b.pos < s.len() {
        let next = block_step(s, true, b);
        if b.mode == ParseMode::Type {
            let lower = lowercase_of(s.subrange(b.type_start, b.type_end));
            assert(lower != string_word() && lower != preamble_word());
        }
        assert(next == block_step(s, false, b));
        lemma_block_step_bounds(s, true, b);
        if next.pos > b.pos {
            lemma_flag_is_idle_in_block(s, next);
        }
    }
}

/// Where no type announces a macro block or a preamble, reading on from
/// `pos` gives the same file whether the legacy constructs are allowed or
/// not.
pub proof fn lemma_flag_is_idle_from(s: Seq<char>, pos: int, comment: bool, file: FileView)
    requires
        no_legacy_type(s),
        0 <= pos,
    ensures
        parse_from(s, true, pos, comment, file) == parse_from(s, false, pos, comment, file),
    decreases left(s, pos),
{
    if pos < s.len() {
        if s[pos] == '@' && !comment {
            let first = open_block(pos + 1, file);
            lemma_flag_is_idle_in_block(s, first);
            let b = run_block(s, true, first);
            if b.pos > pos {
                lemma_flag_is_idle_from(s, b.pos, false, commit(s, file, b));
            }
        } else if s[pos] == '%' {
            lemma_flag_is_idle_from(s, pos + 1, true, file);
        } else if line_end(s[pos]) {
            lemma_flag_is_idle_from(s, pos + 1, false, file);
        } else {
            lemma_flag_is_idle_from(s, pos + 1, comment, file);
        }
    }
}

/// The option changes nothing for a source in which no type announces a
/// macro block or a preamble.
pub proof fn lemma_flag_changes_nothing(s: Seq<char>)
    requires
        no_legacy_type(s),
    ensures
        parse_spec(s, true) == parse_spec(s, false),
{
    lemma_flag_is_idle_from(s, 0, false, empty_file());
}

} // verus!

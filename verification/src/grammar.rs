//! What a bibliography source means: the grammar of blocks, as functions on
//! sequences of characters.
//!
//! Positions here count characters. A piece of text that the parser hands
//! out is always a span `start .. end` of the source, so the result of a
//! parse is described by spans and by the source itself.
//!
//! A source is read front to back. Outside of a block only three
//! characters matter: `@` opens a block, `%` opens a comment that lasts to
//! the end of the line, and a line end closes such a comment. A block is
//! read by a machine with four working modes, one step per visit of a
//! character, until it comes back to [`ParseMode::Outside`] or the source
//! ends.

use crate::chars::{lowercase_of, white_space};
use crate::scanner::{id_continue, id_start};
use vstd::prelude::*;

verus! {

/// The modes of the block machine.
#[derive(Debug, Clone, Copy, PartialEq, Eq, Structural)]
pub enum ParseMode {
    /// Between blocks.
    Outside,
    /// Reading the type that follows `@`.
    Type,
    /// Reading the citation key.
    KeyMode,
    /// Reading the text of a preamble.
    PreambleMode,
    /// Reading the properties of an entry or of a macro block.
    EntryMode,
}

/// The delimiters that can be open inside a value.
#[derive(Debug, Clone, Copy, PartialEq, Eq, Structural)]
pub enum Symbols {
    /// A `"` that waits for its closing `"`.
    Quotes,
    /// A `{` that waits for its closing `}`.
    Braces,
}

/// The three kinds of block.
#[derive(Debug, Clone, Copy, PartialEq, Eq, Structural)]
pub enum BlockKind {
    /// An ordinary entry, with a citation key and fields.
    Entry,
    /// A block of macro definitions.
    Macro,
    /// A preamble.
    Preamble,
}

/// What one character does to a value that is being read.
#[derive(Debug, Clone, Copy, PartialEq, Eq, Structural)]
pub enum Verdict {
    /// The character, and any backslash held back before it, belongs to the
    /// value.
    Accepted,
    /// The character is a backslash; whether it belongs to the value is
    /// decided by what follows.
    Pending,
    /// The character ends the value and separates it from the next
    /// property.
    Separator,
    /// The character ends the value and the block with it.
    BlockEnd,
    /// The character is a `}` while a quote is the innermost open delimiter.
    Mismatch,
}

/// How the reading of a value ended.
#[derive(Debug, Clone, Copy, PartialEq, Eq, Structural)]
pub enum ValueEnd {
    /// At a `,` outside of all delimiters.
    Separator,
    /// At a `}` outside of all delimiters, which also closes the block.
    BlockEnd,
    /// At a `}` that would have closed a quote.
    Mismatch,
    /// At the end of the source.
    Exhausted,
}

/// The delimiters open inside a value, innermost last, and whether the
/// previous character was a backslash.
pub struct Tracker {
    pub stack: Seq<Symbols>,
    pub escape: bool,
}

/// The text `string`.
pub open spec fn string_word() -> Seq<char> {
    seq!['s', 't', 'r', 'i', 'n', 'g']
}

/// The text `preamble`.
pub open spec fn preamble_word() -> Seq<char> {
    seq!['p', 'r', 'e', 'a', 'm', 'b', 'l', 'e']
}

/// The kind of block that a type announces, given the type in lowercase.
/// Macro and preamble blocks exist only where the legacy constructs are
/// allowed; everywhere else every type announces an entry.
pub open spec fn block_kind_of(lower: Seq<char>, allow_bibtex: bool) -> BlockKind {
    if allow_bibtex && lower == string_word() {
        BlockKind::Macro
    } else if allow_bibtex && lower == preamble_word() {
        BlockKind::Preamble
    } else {
        BlockKind::Entry
    }
}

/// Whether `c` may stand in an identifier, as its first character or as a
/// later one: the two rules of the cursor.
pub open spec fn ident_char(c: char, first: bool) -> bool {
    if first {
        id_start(c)
    } else {
        id_continue(c)
    }
}

/// Whether `c` ends a line for the purpose of comments.
pub open spec fn line_end(c: char) -> bool {
    c == '\n' || c == '\r'
}

/// The first position at or after `pos` that holds neither whitespace nor
/// part of a comment; `comment` says whether `pos` lies inside a comment.
pub open spec fn skip_blank(s: Seq<char>, pos: int, comment: bool) -> int
    decreases s.len() - pos,
{
    if pos < 0 || pos >= s.len() {
        pos
    } else if s[pos] == '%' {
        skip_blank(s, pos + 1, true)
    } else if line_end(s[pos]) {
        skip_blank(s, pos + 1, false)
    } else if comment || white_space(s[pos]) {
        skip_blank(s, pos + 1, comment)
    } else {
        pos
    }
}

/// The end of the identifier that starts at `start`, when it has been read
/// up to `pos`.
pub open spec fn ident_end(s: Seq<char>, pos: int, start: int) -> int
    decreases s.len() - pos,
{
    if 0 <= pos < s.len() && ident_char(s[pos], pos == start) {
        ident_end(s, pos + 1, start)
    } else {
        pos
    }
}

/// The position after the first `=` at or after `pos`, or the end of the
/// source where there is none.
pub open spec fn after_equals(s: Seq<char>, pos: int) -> int
    decreases s.len() - pos,
{
    if pos < 0 || pos >= s.len() {
        pos
    } else if s[pos] == '=' {
        pos + 1
    } else {
        after_equals(s, pos + 1)
    }
}

/// The position of the first `"` at or after `pos`, or the end of the
/// source where there is none.
pub open spec fn quote_end(s: Seq<char>, pos: int) -> int
    decreases s.len() - pos,
{
    if pos < 0 || pos >= s.len() || s[pos] == '"' {
        pos
    } else {
        quote_end(s, pos + 1)
    }
}

/// What the character `c` does to a value, and how the open delimiters
/// stand after it.
pub open spec fn feed(t: Tracker, c: char) -> (Tracker, Verdict) {
    if c == '\\' {
        (Tracker { stack: t.stack, escape: true }, Verdict::Pending)
    } else if t.escape && (c == '{' || c == '}' || c == '"') {
        (Tracker { stack: t.stack, escape: false }, Verdict::Accepted)
    } else if c == ',' && t.stack.len() == 0 {
        (t, Verdict::Separator)
    } else if c == '}' && t.stack.len() == 0 {
        (t, Verdict::BlockEnd)
    } else if c == '"' && t.stack.len() > 0 && t.stack.last() == Symbols::Quotes {
        (Tracker { stack: t.stack.drop_last(), escape: false }, Verdict::Accepted)
    } else if c == '"' && t.stack.len() == 0 {
        (Tracker { stack: t.stack.push(Symbols::Quotes), escape: false }, Verdict::Accepted)
    } else if c == '{' {
        (Tracker { stack: t.stack.push(Symbols::Braces), escape: false }, Verdict::Accepted)
    } else if c == '}' {
        if t.stack.last() == Symbols::Braces {
            (Tracker { stack: t.stack.drop_last(), escape: false }, Verdict::Accepted)
        } else {
            (t, Verdict::Mismatch)
        }
    } else {
        (Tracker { stack: t.stack, escape: false }, Verdict::Accepted)
    }
}

/// A value that has been read: it ends before `end`, reading stopped for
/// the reason `how`, and goes on at `next`.
pub struct ValueSpan {
    pub end: int,
    pub next: int,
    pub how: ValueEnd,
}

/// Reads a value from `pos` on, where `end` is the end of what has been
/// accepted so far.
pub open spec fn scan_value(s: Seq<char>, pos: int, end: int, t: Tracker) -> ValueSpan
    decreases s.len() - pos,
{
    if pos < 0 || pos >= s.len() {
        ValueSpan { end, next: pos, how: ValueEnd::Exhausted }
    } else {
        let (after, verdict) = feed(t, s[pos]);
        match verdict {
            Verdict::Pending => scan_value(s, pos + 1, end, after),
            Verdict::Accepted => scan_value(s, pos + 1, pos + 1, after),
            Verdict::Separator => ValueSpan { end, next: pos + 1, how: ValueEnd::Separator },
            Verdict::BlockEnd => ValueSpan { end, next: pos + 1, how: ValueEnd::BlockEnd },
            Verdict::Mismatch => ValueSpan { end, next: pos + 1, how: ValueEnd::Mismatch },
        }
    }
}

/// A property that has been read: the spans of its name and of its raw
/// value, why the value ended, and where reading goes on.
pub struct Property {
    pub name_start: int,
    pub name_end: int,
    pub value_start: int,
    pub value_end: int,
    pub next: int,
    pub how: ValueEnd,
}

/// No delimiter open, no backslash seen.
pub open spec fn fresh_tracker() -> Tracker {
    Tracker { stack: Seq::empty(), escape: false }
}

/// Reads one property at `pos`: blank text, a name, everything up to and
/// including the next `=`, blank text, and a value.
pub open spec fn read_property(s: Seq<char>, pos: int) -> Property {
    let name_start = skip_blank(s, pos, false);
    let name_end = ident_end(s, name_start, name_start);
    let value_start = skip_blank(s, after_equals(s, name_end), false);
    let value = scan_value(s, value_start, value_start, fresh_tracker());
    Property {
        name_start,
        name_end,
        value_start,
        value_end: value.end,
        next: value.next,
        how: value.how,
    }
}

/// One entry: its citation key, its type, and its fields by name.
pub struct EntryView {
    pub cite_key: Seq<char>,
    pub entry_type: Seq<char>,
    pub fields: Map<Seq<char>, Seq<char>>,
}

/// One parsed source: the preamble text, the entries in the order in which
/// their blocks closed, and the macros by name.
pub struct FileView {
    pub preamble: Seq<char>,
    pub entries: Seq<EntryView>,
    pub macros: Map<Seq<char>, Seq<char>>,
}

/// The result of parsing nothing.
pub open spec fn empty_file() -> FileView {
    FileView { preamble: Seq::empty(), entries: Seq::empty(), macros: Map::empty() }
}

/// A block that is being read.
pub struct Block {
    /// The mode of the machine.
    pub mode: ParseMode,
    /// The position of the next character.
    pub pos: int,
    /// The span of the type.
    pub type_start: int,
    pub type_end: int,
    /// The span of the citation key.
    pub key_start: int,
    pub key_end: int,
    /// Whether properties go to the macros of the file.
    pub is_string: bool,
    /// Whether the block has been closed by its `}`.
    pub closed: bool,
    /// The fields read so far.
    pub fields: Map<Seq<char>, Seq<char>>,
    /// The preamble of the file, as far as it has been read.
    pub preamble: Seq<char>,
    /// The macros of the file, as far as they have been read.
    pub macros: Map<Seq<char>, Seq<char>>,
}

/// The block that starts at `pos`, just behind an `@`.
pub open spec fn open_block(pos: int, file: FileView) -> Block {
    Block {
        mode: ParseMode::Type,
        pos,
        type_start: pos,
        type_end: pos,
        key_start: 0,
        key_end: 0,
        is_string: false,
        closed: false,
        fields: Map::empty(),
        preamble: file.preamble,
        macros: file.macros,
    }
}

/// One step while the type is read.
pub open spec fn type_step(s: Seq<char>, allow_bibtex: bool, b: Block) -> Block {
    let c = s[b.pos];
    if ident_char(c, b.type_start == b.type_end) {
        Block { pos: b.pos + 1, type_end: b.pos + 1, ..b }
    } else if c == '{' {
        match block_kind_of(lowercase_of(s.subrange(b.type_start, b.type_end)), allow_bibtex) {
            BlockKind::Macro => Block {
                pos: b.pos + 1,
                mode: ParseMode::EntryMode,
                is_string: true,
                ..b
            },
            BlockKind::Preamble => Block { pos: b.pos + 1, mode: ParseMode::PreambleMode, ..b },
            BlockKind::Entry => Block {
                pos: b.pos + 1,
                mode: ParseMode::KeyMode,
                key_start: b.pos + 1,
                key_end: b.pos + 1,
                ..b
            },
        }
    } else if white_space(c) {
        Block { pos: b.pos + 1, ..b }
    } else {
        Block { mode: ParseMode::Outside, ..b }
    }
}

/// One step while the citation key is read.
pub open spec fn key_step(s: Seq<char>, b: Block) -> Block {
    let c = s[b.pos];
    if ident_char(c, b.key_start == b.key_end) {
        Block { pos: b.pos + 1, key_end: b.pos + 1, ..b }
    } else if c == ',' {
        Block { pos: b.pos + 1, mode: ParseMode::EntryMode, ..b }
    } else if white_space(c) {
        Block { pos: b.pos + 1, ..b }
    } else {
        Block { mode: ParseMode::Outside, ..b }
    }
}

/// The text of the preamble that is written at `pos`: after blank text, a
/// `"` opens the text, which then runs to the next `"` or to the end of the
/// source. Where no `"` follows the blank text, there is no text.
pub open spec fn preamble_text(s: Seq<char>, pos: int) -> Seq<char> {
    let open = skip_blank(s, pos, false);
    if 0 <= open < s.len() && s[open] == '"' {
        s.subrange(open + 1, quote_end(s, open + 1))
    } else {
        Seq::empty()
    }
}

/// Where reading goes on behind the preamble that is written at `pos`:
/// behind the closing `"`, or where the blank text ends if no `"` follows
/// it.
pub open spec fn preamble_next(s: Seq<char>, pos: int) -> int {
    let open = skip_blank(s, pos, false);
    if 0 <= open < s.len() && s[open] == '"' {
        let close = quote_end(s, open + 1);
        if close < s.len() {
            close + 1
        } else {
            close
        }
    } else {
        open
    }
}

/// The step that reads the text of a preamble and adds it to the preamble
/// of the file.
pub open spec fn preamble_step(s: Seq<char>, b: Block) -> Block {
    Block {
        mode: ParseMode::Outside,
        pos: preamble_next(s, b.pos),
        preamble: b.preamble + preamble_text(s, b.pos),
        ..b
    }
}

/// The block after the property `p` has been read in it.
pub open spec fn record_property(s: Seq<char>, b: Block, p: Property) -> Block {
    let name = s.subrange(p.name_start, p.name_end);
    let value = s.subrange(p.value_start, p.value_end);
    let kept = if b.is_string {
        Block { macros: b.macros.insert(name, value), ..b }
    } else {
        Block { fields: b.fields.insert(name, value), ..b }
    };
    match p.how {
        ValueEnd::Mismatch => Block { mode: ParseMode::Outside, pos: p.next, ..b },
        ValueEnd::Separator => Block { pos: p.next, ..kept },
        ValueEnd::Exhausted => Block { pos: p.next, ..kept },
        ValueEnd::BlockEnd => Block {
            mode: ParseMode::Outside,
            pos: p.next,
            closed: true,
            ..kept
        },
    }
}

/// One step inside the braces of an entry or of a macro block: after blank
/// text either the closing `}` or one property.
pub open spec fn entry_step(s: Seq<char>, b: Block) -> Block {
    let at = skip_blank(s, b.pos, false);
    if 0 <= at < s.len() && s[at] == '}' {
        Block { mode: ParseMode::Outside, pos: at + 1, closed: true, ..b }
    } else {
        record_property(s, b, read_property(s, at))
    }
}

/// One step of the block machine, at a character of the source.
pub open spec fn block_step(s: Seq<char>, allow_bibtex: bool, b: Block) -> Block {
    match b.mode {
        ParseMode::Outside => b,
        ParseMode::Type => type_step(s, allow_bibtex, b),
        ParseMode::KeyMode => key_step(s, b),
        ParseMode::PreambleMode => preamble_step(s, b),
        ParseMode::EntryMode => entry_step(s, b),
    }
}

/// How many characters of `s` lie at or after `pos`.
pub open spec fn left(s: Seq<char>, pos: int) -> nat {
    if pos < s.len() {
        (s.len() - pos) as nat
    } else {
        0
    }
}

/// The block machine, run until it is back outside or the source ends.
pub open spec fn run_block(s: Seq<char>, allow_bibtex: bool, b: Block) -> Block
    decreases left(s, b.pos),
{
    if b.mode == ParseMode::Outside || b.pos < 0 || b.pos >= s.len() {
        b
    } else {
        let next = block_step(s, allow_bibtex, b);
        if next.pos > b.pos {
            run_block(s, allow_bibtex, next)
        } else {
            next
        }
    }
}

/// The entry that a block holds.
pub open spec fn entry_of(s: Seq<char>, b: Block) -> EntryView {
    EntryView {
        cite_key: s.subrange(b.key_start, b.key_end),
        entry_type: s.subrange(b.type_start, b.type_end),
        fields: b.fields,
    }
}

/// The file after the block `b` has been read. Its entry is added only if
/// the block was closed and is no macro block.
pub open spec fn commit(s: Seq<char>, file: FileView, b: Block) -> FileView {
    FileView {
        preamble: b.preamble,
        entries: if b.closed && !b.is_string {
            file.entries.push(entry_of(s, b))
        } else {
            file.entries
        },
        macros: b.macros,
    }
}

/// The file that results from reading `s` from `pos` on, where `file` holds
/// what was read before and `comment` says whether `pos` lies in a comment.
pub open spec fn parse_from(
    s: Seq<char>,
    allow_bibtex: bool,
    pos: int,
    comment: bool,
    file: FileView,
) -> FileView
    decreases left(s, pos),
{
    if pos < 0 || pos >= s.len() {
        file
    } else if s[pos] == '@' && !comment {
        let b = run_block(s, allow_bibtex, open_block(pos + 1, file));
        if b.pos > pos {
            parse_from(s, allow_bibtex, b.pos, false, commit(s, file, b))
        } else {
            commit(s, file, b)
        }
    } else if s[pos] == '%' {
        parse_from(s, allow_bibtex, pos + 1, true, file)
    } else if line_end(s[pos]) {
        parse_from(s, allow_bibtex, pos + 1, false, file)
    } else {
        parse_from(s, allow_bibtex, pos + 1, comment, file)
    }
}

/// The file that the source `s` describes.
pub open spec fn parse_spec(s: Seq<char>, allow_bibtex: bool) -> FileView {
    parse_from(s, allow_bibtex, 0, false, empty_file())
}

/// Skipping blank text moves forward and stays inside the source.
pub proof fn lemma_skip_blank_bounds(s: Seq<char>, pos: int, comment: bool)
    requires
        0 <= pos <= s.len(),
    ensures
        pos <= skip_blank(s, pos, comment) <= s.len(),
    decreases s.len() - pos,
{
    if pos < s.len() {
        if s[pos] == '%' {
            lemma_skip_blank_bounds(s, pos + 1, true);
        } else if line_end(s[pos]) {
            lemma_skip_blank_bounds(s, pos + 1, false);
        } else if comment || white_space(s[pos]) {
            lemma_skip_blank_bounds(s, pos + 1, comment);
        }
    }
}

/// An identifier ends at or after the place up to which it has been read,
/// inside the source.
pub proof fn lemma_ident_end_bounds(s: Seq<char>, pos: int, start: int)
    requires
        0 <= pos <= s.len(),
    ensures
        pos <= ident_end(s, pos, start) <= s.len(),
    decreases s.len() - pos,
{
    if pos < s.len() && ident_char(s[pos], pos == start) {
        lemma_ident_end_bounds(s, pos + 1, start);
    }
}

/// The search for `=` moves forward and stays inside the source.
pub proof fn lemma_after_equals_bounds(s: Seq<char>, pos: int)
    requires
        0 <= pos <= s.len(),
    ensures
        pos <= after_equals(s, pos) <= s.len(),
        pos < s.len() ==> pos < after_equals(s, pos),
    decreases s.len() - pos,
{
    if pos < s.len() && s[pos] != '=' {
        lemma_after_equals_bounds(s, pos + 1);
    }
}

/// The search for `"` moves forward and stays inside the source.
pub proof fn lemma_quote_end_bounds(s: Seq<char>, pos: int)
    requires
        0 <= pos <= s.len(),
    ensures
        pos <= quote_end(s, pos) <= s.len(),
    decreases s.len() - pos,
{
    if pos < s.len() && s[pos] != '"' {
        lemma_quote_end_bounds(s, pos + 1);
    }
}

/// A value ends inside the source, before the place where reading goes on;
/// unless the source ran out, that place is behind the character that
/// ended the value.
pub proof fn lemma_scan_value_bounds(s: Seq<char>, pos: int, end: int, t: Tracker)
    requires
        0 <= end <= pos <= s.len(),
    ensures
        end <= scan_value(s, pos, end, t).end <= scan_value(s, pos, end, t).next <= s.len(),
        pos <= scan_value(s, pos, end, t).next,
        scan_value(s, pos, end, t).how == ValueEnd::Exhausted ==> scan_value(s, pos, end, t).next
            == s.len(),
        scan_value(s, pos, end, t).how != ValueEnd::Exhausted ==> pos < scan_value(
            s,
            pos,
            end,
            t,
        ).next && scan_value(s, pos, end, t).end < scan_value(s, pos, end, t).next,
    decreases s.len() - pos,
{
    if pos < s.len() {
        let (after, verdict) = feed(t, s[pos]);
        match verdict {
            Verdict::Pending => lemma_scan_value_bounds(s, pos + 1, end, after),
            Verdict::Accepted => lemma_scan_value_bounds(s, pos + 1, pos + 1, after),
            _ => {},
        }
    }
}

/// The spans of a property follow each other inside the source.
pub proof fn lemma_read_property_bounds(s: Seq<char>, pos: int)
    requires
        0 <= pos <= s.len(),
    ensures
        pos <= read_property(s, pos).name_start <= read_property(s, pos).name_end
            <= read_property(s, pos).value_start <= read_property(s, pos).value_end
            <= read_property(s, pos).next <= s.len(),
        read_property(s, pos).how == ValueEnd::Exhausted ==> read_property(s, pos).next
            == s.len(),
        read_property(s, pos).how != ValueEnd::Exhausted ==> read_property(s, pos).value_end
            < read_property(s, pos).next,
{
    let name_start = skip_blank(s, pos, false);
    lemma_skip_blank_bounds(s, pos, false);
    let name_end = ident_end(s, name_start, name_start);
    lemma_ident_end_bounds(s, name_start, name_start);
    lemma_after_equals_bounds(s, name_end);
    lemma_skip_blank_bounds(s, after_equals(s, name_end), false);
    let value_start = skip_blank(s, after_equals(s, name_end), false);
    lemma_scan_value_bounds(s, value_start, value_start, fresh_tracker());
}

/// The spans of a block lie inside the source, before its position.
pub open spec fn block_in_bounds(s: Seq<char>, b: Block) -> bool {
    &&& 0 <= b.type_start <= b.type_end <= b.pos <= s.len()
    &&& 0 <= b.key_start <= b.key_end <= b.pos
}

/// A step of the block machine keeps the spans in order, never moves back,
/// and either moves forward or leaves the block.
pub proof fn lemma_block_step_bounds(s: Seq<char>, allow_bibtex: bool, b: Block)
    requires
        block_in_bounds(s, b),
        b.pos < s.len(),
        b.mode != ParseMode::Outside,
    ensures
        block_in_bounds(s, block_step(s, allow_bibtex, b)),
        b.pos <= block_step(s, allow_bibtex, b).pos,
        b.pos < block_step(s, allow_bibtex, b).pos || block_step(s, allow_bibtex, b).mode
            == ParseMode::Outside,
{
    match b.mode {
        ParseMode::PreambleMode => {
            lemma_skip_blank_bounds(s, b.pos, false);
            let open = skip_blank(s, b.pos, false);
            if open < s.len() {
                lemma_quote_end_bounds(s, open + 1);
            }
        },
        ParseMode::EntryMode => {
            lemma_skip_blank_bounds(s, b.pos, false);
            let at = skip_blank(s, b.pos, false);
            lemma_read_property_bounds(s, at);
        },
        _ => {},
    }
}

/// The block machine stops inside the source, at or behind the place where
/// it started, and it stops only outside of the block or at the end of the
/// source.
pub proof fn lemma_run_block_bounds(s: Seq<char>, allow_bibtex: bool, b: Block)
    requires
        block_in_bounds(s, b),
    ensures
        block_in_bounds(s, run_block(s, allow_bibtex, b)),
        b.pos <= run_block(s, allow_bibtex, b).pos,
        run_block(s, allow_bibtex, b).mode == ParseMode::Outside || run_block(
            s,
            allow_bibtex,
            b,
        ).pos == s.len(),
    decreases s.len() - b.pos,
{
    if b.mode != ParseMode::Outside && b.pos < s.len() {
        lemma_block_step_bounds(s, allow_bibtex, b);
        let next = block_step(s, allow_bibtex, b);
        if next.pos > b.pos {
            lemma_run_block_bounds(s, allow_bibtex, next);
        }
    }
}

/// Where blank text has been skipped, there is no blank text to skip.
pub proof fn lemma_skip_blank_idempotent(s: Seq<char>, pos: int, comment: bool)
    requires
        0 <= pos <= s.len(),
    ensures
        skip_blank(s, skip_blank(s, pos, comment), false) == skip_blank(s, pos, comment),
    decreases s.len() - pos,
{
    if pos < s.len() {
        if s[pos] == '%' {
            lemma_skip_blank_idempotent(s, pos + 1, true);
        } else if line_end(s[pos]) {
            lemma_skip_blank_idempotent(s, pos + 1, false);
        } else if comment || white_space(s[pos]) {
            lemma_skip_blank_idempotent(s, pos + 1, comment);
        }
    }
}

/// The character at `pos`, if there is one.
pub open spec fn char_at(s: Seq<char>, pos: int) -> Option<char> {
    if 0 <= pos < s.len() {
        Some(s[pos])
    } else {
        None
    }
}

} // verus!

//! The parser: from source text to entries, macros and a preamble.

use crate::grammar::{
    after_equals, block_in_bounds, block_kind_of, block_step, char_at, commit, empty_file, entry_of,
    entry_step, feed, fresh_tracker, ident_char, ident_end, key_step, lemma_block_step_bounds,
    lemma_read_property_bounds, lemma_run_block_bounds, lemma_skip_blank_bounds,
    lemma_skip_blank_idempotent, open_block, parse_from, parse_spec, preamble_next, preamble_step,
    preamble_text, preamble_word, quote_end, read_property, run_block, scan_value, skip_blank,
    string_word, type_step, Block, BlockKind, EntryView, FileView, ParseMode, Symbols, Tracker,
    ValueEnd, Verdict,
};
use crate::scanner::{is_id_continue, is_id_start, Scanner};
use crate::table::RawTable;
use crate::text::{lemma_offset_is_boundary, lemma_offset_monotonic, offset_of, same_text};
use vstd::prelude::*;

verus! {

/// A Bib(La)TeX file's most literal representation, with strings not yet
/// parsed.
#[derive(Debug, Clone)]
pub struct BiblatexFile<'s> {
    /// TeX commands to be prepended to the document, only supported by
    /// BibTeX.
    pub preamble: String,
    /// The collection of citation keys and bibliography entries.
    pub entries: Vec<BiblatexEntry<'s>>,
    /// Map of reusable strings, only supported by BibTeX.
    pub strings: RawTable<'s>,
}

/// A directly extracted Bib(La)TeX file entry, with strings not yet parsed.
#[derive(Debug, Clone)]
pub struct BiblatexEntry<'s> {
    /// The citation key.
    pub cite_key: &'s str,
    /// Denotes the type of bibliography item (e.g. `article`).
    pub entry_type: &'s str,
    /// Maps from field names to their associated values.
    pub fields: RawTable<'s>,
}

impl<'s> BiblatexEntry<'s> {
    /// No field name stands twice.
    pub open spec fn wf(self) -> bool {
        self.fields.wf()
    }
}

impl<'s> BiblatexFile<'s> {
    /// No macro name stands twice, and no field name stands twice in an
    /// entry.
    pub open spec fn wf(self) -> bool {
        &&& self.strings.wf()
        &&& forall|i: int| 0 <= i < self.entries@.len() ==> (#[trigger] self.entries@[i]).wf()
    }
}

impl<'s> View for BiblatexEntry<'s> {
    type V = EntryView;

    open spec fn view(&self) -> EntryView {
        EntryView {
            cite_key: self.cite_key@,
            entry_type: self.entry_type@,
            fields: self.fields@,
        }
    }
}

/// The entries of a file, each as what it says.
pub open spec fn entry_views<'s>(entries: Seq<BiblatexEntry<'s>>) -> Seq<EntryView> {
    Seq::new(entries.len(), |i: int| entries[i]@)
}

impl<'s> View for BiblatexFile<'s> {
    type V = FileView;

    open spec fn view(&self) -> FileView {
        FileView {
            preamble: self.preamble@,
            entries: entry_views(self.entries@),
            macros: self.strings@,
        }
    }
}

/// The delimiters open inside the value that is being read.
pub struct Delimiters {
    stack: Vec<Symbols>,
    escape: bool,
}

impl View for Delimiters {
    type V = Tracker;

    closed spec fn view(&self) -> Tracker {
        Tracker { stack: self.stack@, escape: self.escape }
    }
}

impl Delimiters {
    /// No delimiter open, no backslash seen.
    pub fn new() -> (d: Self)
        ensures
            d@ == (Tracker { stack: Seq::empty(), escape: false }),
    {
        Delimiters { stack: Vec::new(), escape: false }
    }

    /// How many delimiters are open.
    pub fn depth(&self) -> (n: usize)
        ensures
            n == self@.stack.len(),
    {
        self.stack.len()
    }

    /// Takes the next character of the value and says what it does.
    pub fn feed(&mut self, c: char) -> (verdict: Verdict)
        ensures
            (final(self)@, verdict) == feed(old(self)@, c),
    {
        let depth = self.stack.len();
        let top_is_quote = depth > 0 && self.stack[depth - 1] == Symbols::Quotes;
        if c == '\\' {
            self.escape = true;
            Verdict::Pending
        } else if self.escape && (c == '{' || c == '}' || c == '"') {
            self.escape = false;
            Verdict::Accepted
        } else if c == ',' && depth == 0 {
            Verdict::Separator
        } else if c == '}' && depth == 0 {
            Verdict::BlockEnd
        } else if c == '"' && top_is_quote {
            let _ = self.stack.pop();
            self.escape = false;
            proof {
                assert(self.stack@ =~= old(self).stack@.drop_last());
            }
            Verdict::Accepted
        } else if c == '"' && depth == 0 {
            self.stack.push(Symbols::Quotes);
            self.escape = false;
            Verdict::Accepted
        } else if c == '{' {
            self.stack.push(Symbols::Braces);
            self.escape = false;
            Verdict::Accepted
        } else if c == '}' {
            if top_is_quote {
                Verdict::Mismatch
            } else {
                let _ = self.stack.pop();
                self.escape = false;
                proof {
                    assert(self.stack@ =~= old(self).stack@.drop_last());
                }
                Verdict::Accepted
            }
        } else {
            self.escape = false;
            Verdict::Accepted
        }
    }
}

/// Characters allowable in identifiers like cite keys, as the first
/// character or as a later one.
pub fn is_ident(c: char, first: bool) -> (r: bool)
    ensures
        r == ident_char(c, first),
{
    if first {
        is_id_start(c)
    } else {
        is_id_continue(c)
    }
}

/// The kind of block that a type announces, given the type in lowercase.
pub fn block_kind(lower_type: &str, allow_bibtex: bool) -> (kind: BlockKind)
    ensures
        kind == block_kind_of(lower_type@, allow_bibtex),
{
    proof {
        reveal_strlit("string");
        reveal_strlit("preamble");
        assert("string"@ =~= string_word());
        assert("preamble"@ =~= preamble_word());
    }
    if allow_bibtex && same_text(lower_type, "string") {
        BlockKind::Macro
    } else if allow_bibtex && same_text(lower_type, "preamble") {
        BlockKind::Preamble
    } else {
        BlockKind::Entry
    }
}

/// What a parser holds: the source and the position in it, the options,
/// whether the position lies inside a comment, the mode of the block
/// machine, the file as far as it has been read, and whether that file
/// holds every name once.
pub struct ParserView {
    pub text: Seq<char>,
    pub pos: int,
    pub allow_bibtex: bool,
    pub comment: bool,
    pub mode: ParseMode,
    pub file: FileView,
    pub unique: bool,
}

/// Backing struct for parsing a Bib(La)TeX file into a `BiblatexFile`
/// struct.
pub struct BiblatexParser<'s> {
    allow_bibtex: bool,
    scanner: Scanner<'s>,
    mode: ParseMode,
    comment: bool,
    res: BiblatexFile<'s>,
}

impl<'s> View for BiblatexParser<'s> {
    type V = ParserView;

    closed spec fn view(&self) -> ParserView {
        ParserView {
            text: self.scanner.text(),
            pos: self.scanner.pos(),
            allow_bibtex: self.allow_bibtex,
            comment: self.comment,
            mode: self.mode,
            file: self.res@,
            unique: self.res.wf(),
        }
    }
}

impl<'s> BiblatexParser<'s> {
    /// Constructs a new parser.
    pub fn new(src: &'s str, allow_bibtex: bool) -> (parser: Self)
        ensures
            parser@ == (ParserView {
                text: src@,
                pos: 0,
                allow_bibtex,
                comment: false,
                mode: ParseMode::Outside,
                file: empty_file(),
                unique: true,
            }),
    {
        let parser = Self {
            allow_bibtex,
            scanner: Scanner::new(src),
            mode: ParseMode::Outside,
            comment: false,
            res: BiblatexFile {
                preamble: String::new(),
                entries: Vec::new(),
                strings: RawTable::new(),
            },
        };
        proof {
            assert(parser.res@.entries =~= Seq::<EntryView>::empty());
            assert(parser.res@.macros =~= Map::<Seq<char>, Seq<char>>::empty());
        }
        parser
    }

    /// Get the next character without advancing.
    pub fn peek(&self) -> (r: Option<char>)
        ensures
            r == char_at(self@.text, self@.pos),
            0 <= self@.pos <= self@.text.len(),
    {
        proof {
            use_type_invariant(&self.scanner);
            self.scanner.lemma_position();
        }
        self.scanner.peek()
    }

    /// Advance by one character and return the consumed character.
    pub fn eat(&mut self) -> (r: Option<char>)
        ensures
            r == char_at(old(self)@.text, old(self)@.pos),
            final(self)@ == (ParserView {
                pos: old(self)@.pos + (if r is Some { 1int } else { 0 }),
                ..old(self)@
            }),
            0 <= final(self)@.pos <= final(self)@.text.len(),
    {
        let r = self.scanner.eat();
        proof {
            use_type_invariant(&self.scanner);
            self.scanner.lemma_position();
        }
        r
    }

    /// The byte offset of the position.
    fn offset(&self) -> (i: usize)
        ensures
            i == offset_of(self@.text, self@.pos),
            0 <= self@.pos <= self@.text.len(),
    {
        self.scanner.index()
    }

    /// The text between two positions, given by their byte offsets.
    fn span(&self, start: usize, end: usize, Ghost(j): Ghost<int>, Ghost(k): Ghost<int>) -> (r:
        &'s str)
        requires
            0 <= j <= k <= self@.text.len(),
            start == offset_of(self@.text, j),
            end == offset_of(self@.text, k),
        ensures
            r@ == self@.text.subrange(j, k),
    {
        proof {
            lemma_offset_is_boundary(self@.text, j);
            lemma_offset_is_boundary(self@.text, k);
            lemma_offset_monotonic(self@.text, j, k);
        }
        self.scanner.get(start..end)
    }

    /// Advance to the next character that is neither whitespace nor part of
    /// a comment.
    pub fn skip_ws(&mut self)
        ensures
            final(self)@ == (ParserView {
                pos: skip_blank(old(self)@.text, old(self)@.pos, false),
                ..old(self)@
            }),
            old(self)@.pos <= final(self)@.pos <= final(self)@.text.len(),
    {
        let mut comment = false;
        proof {
            use_type_invariant(&self.scanner);
            self.scanner.lemma_position();
        }
        loop
            invariant
                self@ == (ParserView { pos: self@.pos, ..old(self)@ }),
                old(self)@.pos <= self@.pos <= self@.text.len(),
                skip_blank(self@.text, self@.pos, comment) == skip_blank(
                    old(self)@.text,
                    old(self)@.pos,
                    false,
                ),
            ensures
                self@ == (ParserView { pos: self@.pos, ..old(self)@ }),
                old(self)@.pos <= self@.pos <= self@.text.len(),
                self@.pos == skip_blank(old(self)@.text, old(self)@.pos, false),
            decreases self@.text.len() - self@.pos,
        {
            match self.peek() {
                None => {
                    break ;
                },
                Some(c) => {
                    if c == '%' {
                        comment = true;
                    } else if c == '\n' || c == '\r' {
                        comment = false;
                    } else if comment || c.is_whitespace() {
                    } else {
                        break ;
                    }
                    let _ = self.eat();
                },
            }
        }
    }
}

impl<'s> BiblatexParser<'s> {
    /// Read a property: its name and its raw value, both as they stand in
    /// the source. Fails where a `}` would have closed a quote.
    pub fn read_prop(&mut self) -> (r: Result<(&'s str, &'s str), ()>)
        ensures
            final(self)@ == (ParserView {
                pos: read_property(old(self)@.text, old(self)@.pos).next,
                mode: if read_property(old(self)@.text, old(self)@.pos).how
                    == ValueEnd::BlockEnd {
                    ParseMode::Outside
                } else {
                    old(self)@.mode
                },
                ..old(self)@
            }),
            r is Err <==> read_property(old(self)@.text, old(self)@.pos).how
                == ValueEnd::Mismatch,
            r matches Ok(pair) ==> {
                &&& pair.0@ == old(self)@.text.subrange(
                    read_property(old(self)@.text, old(self)@.pos).name_start,
                    read_property(old(self)@.text, old(self)@.pos).name_end,
                )
                &&& pair.1@ == old(self)@.text.subrange(
                    read_property(old(self)@.text, old(self)@.pos).value_start,
                    read_property(old(self)@.text, old(self)@.pos).value_end,
                )
            },
    {
        let ghost s = self@.text;
        let ghost p = read_property(s, self@.pos);
        proof {
            use_type_invariant(&self.scanner);
            self.scanner.lemma_position();
            lemma_read_property_bounds(s, self@.pos);
            lemma_skip_blank_bounds(s, self@.pos, false);
        }
        self.skip_ws();

        let start = self.offset();
        let mut end = start;
        let ghost name_start = self@.pos;
        loop
            invariant_except_break
                self@ == (ParserView { pos: self@.pos, ..old(self)@ }),
                s == old(self)@.text,
                p == read_property(s, old(self)@.pos),
                0 <= old(self)@.pos <= s.len(),
                name_start <= self@.pos <= s.len(),
                0 <= name_start,
                start == offset_of(s, name_start),
                end == offset_of(s, self@.pos),
                ident_end(s, self@.pos, name_start) == p.name_end,
            ensures
                s == old(self)@.text,
                p == read_property(s, old(self)@.pos),
                self@ == (ParserView { pos: p.name_end, ..old(self)@ }),
                name_start <= self@.pos <= s.len(),
                end == offset_of(s, self@.pos),
            decreases s.len() - self@.pos,
        {
            proof {
                if name_start < self@.pos {
                    lemma_offset_monotonic(s, name_start, self@.pos);
                }
            }
            match self.peek() {
                None => {
                    break ;
                },
                Some(c) => {
                    if is_ident(c, start == end) {
                        let _ = self.eat();
                        end = self.offset();
                    } else {
                        break ;
                    }
                },
            }
        }
        let name = self.span(start, end, Ghost(name_start), Ghost(p.name_end));

        loop
            invariant_except_break
                self@ == (ParserView { pos: self@.pos, ..old(self)@ }),
                s == old(self)@.text,
                p == read_property(s, old(self)@.pos),
                0 <= old(self)@.pos <= s.len(),
                0 <= self@.pos <= s.len(),
                after_equals(s, self@.pos) == after_equals(s, p.name_end),
            ensures
                s == old(self)@.text,
                p == read_property(s, old(self)@.pos),
                self@ == (ParserView { pos: after_equals(s, p.name_end), ..old(self)@ }),
                0 <= self@.pos <= s.len(),
            decreases s.len() - self@.pos,
        {
            match self.eat() {
                None => {
                    break ;
                },
                Some(c) => {
                    if c == '=' {
                        break ;
                    }
                },
            }
        }
        self.skip_ws();

        let mut stack = Delimiters::new();
        let val_start = self.offset();
        let mut val_end = val_start;
        let ghost value_end = p.value_start;
        loop
            invariant_except_break
                self@ == (ParserView { pos: self@.pos, ..old(self)@ }),
                s == old(self)@.text,
                p == read_property(s, old(self)@.pos),
                0 <= old(self)@.pos <= s.len(),
                0 <= p.value_start <= value_end <= self@.pos <= s.len(),
                val_start == offset_of(s, p.value_start),
                val_end == offset_of(s, value_end),
                scan_value(s, self@.pos, value_end, stack@) == scan_value(
                    s,
                    p.value_start,
                    p.value_start,
                    fresh_tracker(),
                ),
            ensures
                s == old(self)@.text,
                p == read_property(s, old(self)@.pos),
                self@ == (ParserView {
                    pos: p.next,
                    mode: if p.how == ValueEnd::BlockEnd {
                        ParseMode::Outside
                    } else {
                        old(self)@.mode
                    },
                    ..old(self)@
                }),
                0 <= p.value_start <= value_end <= s.len(),
                val_end == offset_of(s, value_end),
                value_end == p.value_end,
                p.how != ValueEnd::Mismatch,
            decreases s.len() - self@.pos,
        {
            match self.eat() {
                None => {
                    break ;
                },
                Some(c) => {
                    match stack.feed(c) {
                        Verdict::Pending => {},
                        Verdict::Accepted => {
                            val_end = self.offset();
                            proof {
                                value_end = self@.pos;
                            }
                        },
                        Verdict::Separator => {
                            break ;
                        },
                        Verdict::BlockEnd => {
                            self.mode = ParseMode::Outside;
                            break ;
                        },
                        Verdict::Mismatch => {
                            return Err(());
                        },
                    }
                },
            }
        }
        let value = self.span(val_start, val_end, Ghost(p.value_start), Ghost(value_end));
        Ok((name, value))
    }
}

/// The spans and flags of the block that is being read, with spans in byte
/// offsets, and the fields read so far.
struct Working<'s> {
    type_start: usize,
    type_end: usize,
    key_start: usize,
    key_end: usize,
    is_string: bool,
    closed: bool,
    fields: RawTable<'s>,
}

impl<'s> BiblatexParser<'s> {
    /// The parser and the working state `w` stand where the block `b`
    /// stands, in a parse that began the block from `base`.
    spec fn tracks(self, w: Working<'s>, b: Block, base: ParserView) -> bool {
        &&& self@ == (ParserView {
            pos: b.pos,
            mode: b.mode,
            file: FileView {
                preamble: b.preamble,
                entries: base.file.entries,
                macros: b.macros,
            },
            ..base
        })
        &&& block_in_bounds(base.text, b)
        &&& w.type_start == offset_of(base.text, b.type_start)
        &&& w.type_end == offset_of(base.text, b.type_end)
        &&& w.key_start == offset_of(base.text, b.key_start)
        &&& w.key_end == offset_of(base.text, b.key_end)
        &&& w.is_string == b.is_string
        &&& w.closed == b.closed
        &&& w.fields@ == b.fields
        &&& w.fields.wf()
    }

    /// One step while the type is read.
    fn type_mode(
        &mut self,
        c: char,
        w: &mut Working<'s>,
        Ghost(b): Ghost<Block>,
        Ghost(base): Ghost<ParserView>,
    )
        requires
            old(self).tracks(*old(w), b, base),
            b.mode == ParseMode::Type,
            char_at(base.text, b.pos) == Some(c),
        ensures
            final(self).tracks(*final(w), type_step(base.text, base.allow_bibtex, b), base),
    {
        proof {
            if b.type_start < b.type_end {
                lemma_offset_monotonic(base.text, b.type_start, b.type_end);
            }
        }
        if is_ident(c, w.type_start == w.type_end) {
            let _ = self.eat();
            w.type_end = self.offset();
        } else if c == '{' {
            let _ = self.eat();
            let lower_type = self.span(
                w.type_start,
                w.type_end,
                Ghost(b.type_start),
                Ghost(b.type_end),
            ).to_lowercase();
            match block_kind(lower_type.as_str(), self.allow_bibtex) {
                BlockKind::Macro => {
                    self.mode = ParseMode::EntryMode;
                    w.is_string = true;
                },
                BlockKind::Preamble => {
                    self.mode = ParseMode::PreambleMode;
                },
                BlockKind::Entry => {
                    w.key_start = self.offset();
                    w.key_end = w.key_start;
                    self.mode = ParseMode::KeyMode;
                },
            }
        } else if c.is_whitespace() {
            let _ = self.eat();
        } else {
            self.mode = ParseMode::Outside;
        }
    }

    /// One step while the citation key is read.
    fn key_mode(
        &mut self,
        c: char,
        w: &mut Working<'s>,
        Ghost(b): Ghost<Block>,
        Ghost(base): Ghost<ParserView>,
    )
        requires
            old(self).tracks(*old(w), b, base),
            b.mode == ParseMode::KeyMode,
            char_at(base.text, b.pos) == Some(c),
        ensures
            final(self).tracks(*final(w), key_step(base.text, b), base),
    {
        proof {
            if b.key_start < b.key_end {
                lemma_offset_monotonic(base.text, b.key_start, b.key_end);
            }
        }
        if is_ident(c, w.key_start == w.key_end) {
            let _ = self.eat();
            w.key_end = self.offset();
        } else if c == ',' {
            let _ = self.eat();
            self.mode = ParseMode::EntryMode;
        } else if c.is_whitespace() {
            let _ = self.eat();
        } else {
            self.mode = ParseMode::Outside;
        }
    }

    /// The step that reads the text of a preamble.
    fn preamble_mode(
        &mut self,
        w: &mut Working<'s>,
        Ghost(b): Ghost<Block>,
        Ghost(base): Ghost<ParserView>,
    )
        requires
            old(self).tracks(*old(w), b, base),
            b.mode == ParseMode::PreambleMode,
            b.pos < base.text.len(),
        ensures
            final(self).tracks(*final(w), preamble_step(base.text, b), base),
    {
        proof {
            lemma_block_step_bounds(base.text, base.allow_bibtex, b);
        }
        self.read_preamble();
        self.mode = ParseMode::Outside;
    }

    /// One step inside the braces of an entry or of a macro block.
    fn entry_mode(
        &mut self,
        w: &mut Working<'s>,
        Ghost(b): Ghost<Block>,
        Ghost(base): Ghost<ParserView>,
    )
        requires
            old(self).tracks(*old(w), b, base),
            b.mode == ParseMode::EntryMode,
            b.pos < base.text.len(),
        ensures
            final(self).tracks(*final(w), entry_step(base.text, b), base),
    {
        let ghost s = base.text;
        proof {
            lemma_block_step_bounds(s, base.allow_bibtex, b);
            lemma_skip_blank_bounds(s, b.pos, false);
            lemma_skip_blank_idempotent(s, b.pos, false);
            lemma_read_property_bounds(s, skip_blank(s, b.pos, false));
        }
        self.skip_ws();
        let at_end = match self.peek() {
            Some(d) => d == '}',
            None => false,
        };
        if at_end {
            let _ = self.eat();
            w.closed = true;
            self.mode = ParseMode::Outside;
        } else {
            match self.read_prop() {
                Ok((name, value)) => {
                    if w.is_string {
                        self.res.strings.insert(name, value);
                        proof {
                            assert(self.res.strings@ =~= b.macros.insert(name@, value@));
                        }
                    } else {
                        w.fields.insert(name, value);
                        proof {
                            assert(w.fields@ =~= b.fields.insert(name@, value@));
                        }
                    }
                    if self.mode == ParseMode::Outside {
                        w.closed = true;
                    }
                },
                Err(_) => {
                    self.mode = ParseMode::Outside;
                },
            }
        }
    }

    /// Parse one block, from behind its `@` to the place where the text
    /// between blocks goes on.
    pub fn parse_entry(&mut self)
        ensures
            final(self)@ == (ParserView {
                pos: run_block(
                    old(self)@.text,
                    old(self)@.allow_bibtex,
                    open_block(old(self)@.pos, old(self)@.file),
                ).pos,
                mode: ParseMode::Outside,
                file: commit(
                    old(self)@.text,
                    old(self)@.file,
                    run_block(
                        old(self)@.text,
                        old(self)@.allow_bibtex,
                        open_block(old(self)@.pos, old(self)@.file),
                    ),
                ),
                ..old(self)@
            }),
            old(self)@.pos <= final(self)@.pos <= final(self)@.text.len(),
    {
        let ghost base = self@;
        self.mode = ParseMode::Type;
        let type_start = self.offset();
        let mut w = Working {
            type_start,
            type_end: type_start,
            key_start: 0,
            key_end: 0,
            is_string: false,
            closed: false,
            fields: RawTable::new(),
        };

        let ghost s = base.text;
        let ghost allow = base.allow_bibtex;
        let ghost first = open_block(base.pos, base.file);
        let ghost b = first;
        proof {
            assert(s.take(0) =~= Seq::<char>::empty());
            assert(w.fields@ =~= b.fields);
        }

        loop
            invariant
                base == old(self)@,
                s == base.text,
                allow == base.allow_bibtex,
                first == open_block(base.pos, base.file),
                self.tracks(w, b, base),
                run_block(s, allow, b) == run_block(s, allow, first),
            ensures
                run_block(s, allow, first) == b,
            decreases s.len() - b.pos, if b.mode == ParseMode::Outside { 0int } else { 1 },
        {
            let c = match self.peek() {
                Some(c) => c,
                None => {
                    break ;
                },
            };
            proof {
                if b.mode != ParseMode::Outside {
                    lemma_block_step_bounds(s, allow, b);
                }
            }
            match self.mode {
                ParseMode::Outside => {
                    break ;
                },
                ParseMode::Type => {
                    self.type_mode(c, &mut w, Ghost(b), Ghost(base));
                },
                ParseMode::KeyMode => {
                    self.key_mode(c, &mut w, Ghost(b), Ghost(base));
                },
                ParseMode::PreambleMode => {
                    self.preamble_mode(&mut w, Ghost(b), Ghost(base));
                },
                ParseMode::EntryMode => {
                    self.entry_mode(&mut w, Ghost(b), Ghost(base));
                },
            }
            proof {
                b = block_step(s, allow, b);
            }
        }

        proof {
            lemma_run_block_bounds(s, allow, first);
        }
        if w.closed && !w.is_string {
            let cite_key = self.span(
                w.key_start,
                w.key_end,
                Ghost(b.key_start),
                Ghost(b.key_end),
            );
            let entry_type = self.span(
                w.type_start,
                w.type_end,
                Ghost(b.type_start),
                Ghost(b.type_end),
            );
            let entry = BiblatexEntry { cite_key, entry_type, fields: w.fields };
            let ghost earlier = self.res.entries@;
            proof {
                assert(entry@ == entry_of(s, b));
            }
            self.res.entries.push(entry);
            proof {
                assert(entry_views(self.res.entries@) =~= base.file.entries.push(entry@));
                assert(self.res.entries@ =~= earlier.push(entry));
                if base.unique {
                    assert forall|i: int| 0 <= i < self.res.entries@.len() implies (
                    #[trigger] self.res.entries@[i]).wf() by {
                        if i < earlier.len() {
                            assert(self.res.entries@[i] == earlier[i]);
                        }
                    }
                }
                if self.res.wf() {
                    assert forall|i: int| 0 <= i < earlier.len() implies (#[trigger] earlier[i])
                        .wf() by {
                        assert(self.res.entries@[i] == earlier[i]);
                    }
                }
            }
        }
        self.mode = ParseMode::Outside;
    }

    /// Read the text of a preamble: after blank text, what stands between
    /// a `"` and the next `"`.
    fn read_preamble(&mut self)
        ensures
            final(self)@ == (ParserView {
                pos: preamble_next(old(self)@.text, old(self)@.pos),
                file: FileView {
                    preamble: old(self)@.file.preamble + preamble_text(
                        old(self)@.text,
                        old(self)@.pos,
                    ),
                    ..old(self)@.file
                },
                ..old(self)@
            }),
    {
        let ghost s = self@.text;
        proof {
            assert(self@.file.preamble + Seq::<char>::empty() =~= self@.file.preamble);
        }
        self.skip_ws();
        let ghost open = self@.pos;
        let opens = match self.peek() {
            Some(c) => c == '"',
            None => false,
        };
        if opens {
            let _ = self.eat();
            let start = self.offset();
            loop
                invariant_except_break
                    s == old(self)@.text,
                    self@ == (ParserView { pos: self@.pos, ..old(self)@ }),
                    open + 1 <= self@.pos <= s.len(),
                    quote_end(s, self@.pos) == quote_end(s, open + 1),
                ensures
                    s == old(self)@.text,
                    self@ == (ParserView { pos: quote_end(s, open + 1), ..old(self)@ }),
                    open + 1 <= self@.pos <= s.len(),
                decreases s.len() - self@.pos,
            {
                match self.peek() {
                    None => {
                        break ;
                    },
                    Some(c) => {
                        if c == '"' {
                            break ;
                        }
                        let _ = self.eat();
                    },
                }
            }
            let end = self.offset();
            let text = self.span(start, end, Ghost(open + 1), Ghost(self@.pos));
            self.res.preamble.append(text);
            let _ = self.eat();
        }
    }

    /// Parses the file, consuming the parser in the process.
    pub fn parse(self) -> (file: BiblatexFile<'s>)
        ensures
            file@ == parse_from(
                self@.text,
                self@.allow_bibtex,
                self@.pos,
                self@.comment,
                self@.file,
            ),
            self@.unique ==> file.wf(),
    {
        let mut parser = self;
        proof {
            use_type_invariant(&parser.scanner);
            parser.scanner.lemma_position();
        }
        loop
            invariant_except_break
                parser@.text == self@.text,
                parser@.allow_bibtex == self@.allow_bibtex,
                parser@.unique == self@.unique,
                0 <= parser@.pos <= parser@.text.len(),
                parse_from(
                    parser@.text,
                    parser@.allow_bibtex,
                    parser@.pos,
                    parser@.comment,
                    parser@.file,
                ) == parse_from(
                    self@.text,
                    self@.allow_bibtex,
                    self@.pos,
                    self@.comment,
                    self@.file,
                ),
            ensures
                parser@.unique == self@.unique,
                parser@.file == parse_from(
                    self@.text,
                    self@.allow_bibtex,
                    self@.pos,
                    self@.comment,
                    self@.file,
                ),
            decreases parser@.text.len() - parser@.pos,
        {
            match parser.eat() {
                None => {
                    break ;
                },
                Some(c) => {
                    if c == '@' && !parser.comment {
                        parser.parse_entry();
                    } else if c == '%' {
                        parser.comment = true;
                    } else if c == '\n' || c == '\r' {
                        parser.comment = false;
                    }
                },
            }
        }
        parser.res
    }
}

/// Parse a biblatex file from a source string.
pub fn parse_file(src: &str, allow_bibtex: bool) -> (file: BiblatexFile<'_>)
    ensures
        file@ == parse_spec(src@, allow_bibtex),
        file.wf(),
{
    BiblatexParser::new(src, allow_bibtex).parse()
}

} // verus!

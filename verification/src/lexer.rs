//! The tokenizer: from text to tokens, one at a time.
//!
//! The rules are stated as functions of a text and a character position;
//! [`Lexer::next`] computes them and reports spans as byte offsets.

use vstd::prelude::*;
use vstd::slice::slice_subrange;

use crate::chars::{
    blank_char, is_blank, is_quote, is_space, is_word_char, quote_char, space_char, word_char,
};
use crate::text::{
    byte_offset, char_width, collect_chars, lemma_byte_offset_monotonic, lemma_byte_offset_step,
    push_char,
};
use crate::token::{ParseError, Token, TokenView};

verus! {

/// The kinds of character run that the tokenizer reads in one go.
#[derive(Debug, Clone, Copy, PartialEq, Eq, Structural)]
pub enum Run {
    /// White space of any kind.
    Space,
    /// Characters of a name or of an unquoted value.
    Word,
    /// Anything up to the end of the line.
    Line,
}

/// Whether `c` continues a run of kind `run`.
pub open spec fn in_run(run: Run, c: char) -> bool {
    match run {
        Run::Space => is_space(c),
        Run::Word => is_word_char(c),
        Run::Line => c != '\n',
    }
}

/// Where the run of kind `run` that starts at `pos` ends: the first position
/// from `pos` on whose character does not continue it, or the end of `text`.
pub open spec fn run_end(text: Seq<char>, run: Run, pos: int) -> int
    decreases text.len() - pos,
{
    if 0 <= pos < text.len() && in_run(run, text[pos]) {
        run_end(text, run, pos + 1)
    } else {
        pos
    }
}

/// Where the next token starts: `pos` moved past white space within the line
/// and past a comment, which runs from `#` up to the line's end.
pub open spec fn skip_blank(text: Seq<char>, pos: int) -> int
    decreases text.len() - pos,
{
    if pos < 0 || pos >= text.len() {
        pos
    } else if text[pos] == '#' {
        run_end(text, Run::Line, pos)
    } else if is_blank(text[pos]) {
        skip_blank(text, pos + 1)
    } else {
        pos
    }
}

/// Whether the character at `pos` closes the quoted value opened at `open`:
/// it is the opening quote again and no backslash stands before it.
pub open spec fn closes_quote(text: Seq<char>, open: int, pos: int) -> bool {
    text[pos] == text[open] && (pos == open + 1 || text[pos - 1] != '\\')
}

/// Position of the quote that closes the value opened at `open`, searched
/// from `pos` on, or the length of `text` if there is none.
pub open spec fn closing_quote(text: Seq<char>, open: int, pos: int) -> int
    decreases text.len() - pos,
{
    if pos < 0 || pos >= text.len() {
        text.len() as int
    } else if closes_quote(text, open, pos) {
        pos
    } else {
        closing_quote(text, open, pos + 1)
    }
}

/// The characters of `content` with escapes resolved: a backslash before
/// `quote` gives `quote`, a backslash before `n` gives a line break, and
/// everything else stands for itself.
pub open spec fn unescape(content: Seq<char>, quote: char) -> Seq<char>
    decreases content.len(),
{
    if content.len() == 0 {
        Seq::empty()
    } else if content[0] == '\\' && content.len() > 1 && content[1] == quote {
        seq![quote] + unescape(content.skip(2), quote)
    } else if content[0] == '\\' && content.len() > 1 && content[1] == 'n' {
        seq!['\n'] + unescape(content.skip(2), quote)
    } else {
        seq![content[0]] + unescape(content.skip(1), quote)
    }
}

/// The value of a quoted slice: what stands between its first and its last
/// character, unescaped for the quote that it starts with.
pub open spec fn unquote(slice: Seq<char>) -> Seq<char> {
    if slice.len() <= 2 {
        Seq::empty()
    } else {
        unescape(slice.subrange(1, slice.len() - 1), slice[0])
    }
}

/// Whether `word` can stand as a name or as an unquoted value: it is not
/// empty, holds no white space and no delimiter, and is not the keyword
/// `export`.
pub open spec fn is_name(word: Seq<char>) -> bool {
    &&& word.len() > 0
    &&& forall|i: int| 0 <= i < word.len() ==> is_word_char(#[trigger] word[i])
    &&& word != export_word()
}

/// The token that the word `word` is: the keyword, or a name or value.
pub open spec fn word_token(word: Seq<char>) -> TokenView {
    if word == export_word() {
        TokenView::Export
    } else {
        TokenView::Ident(word)
    }
}

/// The keyword `export`.
pub open spec fn export_word() -> Seq<char> {
    seq!['e', 'x', 'p', 'o', 'r', 't']
}

/// A token and the characters `start..end` that it was read from.
pub struct Lexeme {
    pub start: int,
    pub token: TokenView,
    pub end: int,
}

/// The token that starts at `start`, a position that [`skip_blank`] leaves
/// unchanged.
pub open spec fn token_at(text: Seq<char>, start: int) -> Lexeme
    recommends
        0 <= start < text.len(),
        skip_blank(text, start) == start,
{
    let c = text[start];
    if c == '=' {
        Lexeme { start, token: TokenView::Eq, end: start + 1 }
    } else if c == '\n' {
        Lexeme { start, token: TokenView::NewLine, end: run_end(text, Run::Space, start + 1) }
    } else if is_quote(c) {
        let close = closing_quote(text, start, start + 1);
        if close < text.len() {
            Lexeme {
                start,
                token: TokenView::QuotedString(unquote(text.subrange(start, close + 1))),
                end: close + 1,
            }
        } else {
            Lexeme { start, token: TokenView::Error, end: text.len() as int }
        }
    } else {
        let end = run_end(text, Run::Word, start);
        Lexeme { start, token: word_token(text.subrange(start, end)), end }
    }
}

/// The first token at or after `pos`; at the end of `text` that is
/// [`TokenView::EOF`] with an empty span.
pub open spec fn next_lexeme(text: Seq<char>, pos: int) -> Lexeme {
    let start = skip_blank(text, pos);
    if 0 <= start < text.len() {
        token_at(text, start)
    } else {
        Lexeme { start: text.len() as int, token: TokenView::EOF, end: text.len() as int }
    }
}

/// A run ends between its start and the end of the text, on a character
/// that does not continue it, and everything before continues it.
pub proof fn lemma_run_end(text: Seq<char>, run: Run, pos: int)
    requires
        0 <= pos <= text.len(),
    ensures
        pos <= run_end(text, run, pos) <= text.len(),
        run_end(text, run, pos) < text.len() ==> !in_run(run, text[run_end(text, run, pos)]),
        forall|i: int| pos <= i < run_end(text, run, pos) ==> in_run(run, #[trigger] text[i]),
    decreases text.len() - pos,
{
    if pos < text.len() && in_run(run, text[pos]) {
        lemma_run_end(text, run, pos + 1);
    }
}

/// Skipping blanks stays within the text and stops at its end or on a
/// character that starts a token.
pub proof fn lemma_skip_blank(text: Seq<char>, pos: int)
    requires
        0 <= pos <= text.len(),
    ensures
        pos <= skip_blank(text, pos) <= text.len(),
        skip_blank(text, pos) < text.len() ==> {
            let c = text[skip_blank(text, pos)];
            c != '#' && !is_blank(c)
        },
        skip_blank(text, skip_blank(text, pos)) == skip_blank(text, pos),
    decreases text.len() - pos,
{
    if pos < text.len() {
        if text[pos] == '#' {
            lemma_run_end(text, Run::Line, pos);
        } else if is_blank(text[pos]) {
            lemma_skip_blank(text, pos + 1);
        }
    }
}

/// The closing quote, where there is one, lies after the position searched
/// from.
pub proof fn lemma_closing_quote(text: Seq<char>, open: int, pos: int)
    requires
        0 <= pos <= text.len(),
    ensures
        pos <= closing_quote(text, open, pos) <= text.len(),
        closing_quote(text, open, pos) < text.len() ==> closes_quote(
            text,
            open,
            closing_quote(text, open, pos),
        ),
        forall|i: int| pos <= i < closing_quote(text, open, pos) ==> !closes_quote(text, open, i),
    decreases text.len() - pos,
{
    if pos < text.len() && !closes_quote(text, open, pos) {
        lemma_closing_quote(text, open, pos + 1);
    }
}

/// Every token but the end of the text is read from at least one character
/// at or after the position asked for.
pub proof fn lemma_lexeme_span(text: Seq<char>, pos: int)
    ensures
        next_lexeme(text, pos).token is EOF <==> !(0 <= skip_blank(text, pos) < text.len()),
        next_lexeme(text, pos).token !is EOF ==> {
            &&& 0 <= pos <= next_lexeme(text, pos).start
            &&& next_lexeme(text, pos).start == skip_blank(text, pos)
            &&& next_lexeme(text, pos).start < next_lexeme(text, pos).end <= text.len()
        },
{
    let start = skip_blank(text, pos);
    if 0 <= start < text.len() {
        lemma_skip_blank(text, pos);
        lemma_run_end(text, Run::Space, start + 1);
        lemma_run_end(text, Run::Word, start + 1);
        lemma_closing_quote(text, start, start + 1);
    }
}

/// What is read as a name or an unquoted value is one: see [`is_name`].
pub proof fn lemma_ident_is_name(text: Seq<char>, pos: int)
    ensures
        next_lexeme(text, pos).token matches TokenView::Ident(word) ==> is_name(word),
{
    let start = skip_blank(text, pos);
    if 0 <= start < text.len() {
        lemma_skip_blank(text, pos);
        lemma_run_end(text, Run::Word, start);
    }
}

/// A position in a text, as a character index and as a byte offset.
#[derive(Clone, Copy)]
struct Cursor {
    pos: usize,
    offset: usize,
}

/// Whether `cursor` names a position of `text`, both ways alike.
spec fn cursor_at(text: Seq<char>, cursor: Cursor) -> bool {
    cursor.pos <= text.len() && cursor.offset == byte_offset(text, cursor.pos as int)
}

/// Whether every byte offset into `text` fits a `usize`.
spec fn measurable(text: Seq<char>) -> bool {
    byte_offset(text, text.len() as int) <= usize::MAX
}

/// The cursor one character further.
fn step_over(text: &[char], at: Cursor) -> (next: Cursor)
    requires
        measurable(text@),
        cursor_at(text@, at),
        at.pos < text@.len(),
    ensures
        cursor_at(text@, next),
        next.pos == at.pos + 1,
{
    proof {
        lemma_byte_offset_step(text@, at.pos as int);
        lemma_byte_offset_monotonic(text@, at.pos + 1, text@.len() as int);
    }
    assert(at.pos < text.len());
    Cursor { pos: at.pos + 1, offset: at.offset + char_width(text[at.pos]) }
}

/// Decides [`in_run`].
fn continues(run: Run, c: char) -> (r: bool)
    ensures
        r == in_run(run, c),
{
    match run {
        Run::Space => space_char(c),
        Run::Word => word_char(c),
        Run::Line => c != '\n',
    }
}

/// Moves to the end of the run of kind `run` that starts at `from`.
fn scan_run(text: &[char], run: Run, from: Cursor) -> (end: Cursor)
    requires
        measurable(text@),
        cursor_at(text@, from),
    ensures
        cursor_at(text@, end),
        end.pos == run_end(text@, run, from.pos as int),
{
    let mut at = from;
    while at.pos < text.len() && continues(run, text[at.pos])
        invariant
            measurable(text@),
            cursor_at(text@, at),
            run_end(text@, run, at.pos as int) == run_end(text@, run, from.pos as int),
        decreases text@.len() - at.pos,
    {
        at = step_over(text, at);
    }
    at
}

/// Moves past blanks and a comment to where the next token starts.
fn skip_to_token(text: &[char], from: Cursor) -> (start: Cursor)
    requires
        measurable(text@),
        cursor_at(text@, from),
    ensures
        cursor_at(text@, start),
        start.pos == skip_blank(text@, from.pos as int),
{
    let mut at = from;
    while at.pos < text.len() && blank_char(text[at.pos])
        invariant
            measurable(text@),
            cursor_at(text@, at),
            skip_blank(text@, at.pos as int) == skip_blank(text@, from.pos as int),
        decreases text@.len() - at.pos,
    {
        at = step_over(text, at);
    }
    if at.pos < text.len() && text[at.pos] == '#' {
        scan_run(text, Run::Line, at)
    } else {
        at
    }
}

/// Moves to the quote that closes the value opened at `open`, or to the end
/// of the text if nothing closes it.
fn find_closing_quote(text: &[char], open: usize, from: Cursor) -> (close: Cursor)
    requires
        measurable(text@),
        cursor_at(text@, from),
        open < from.pos,
    ensures
        cursor_at(text@, close),
        from.pos <= close.pos,
        close.pos == closing_quote(text@, open as int, from.pos as int),
{
    let mut at = from;
    while at.pos < text.len() && !(text[at.pos] == text[open] && (at.pos == open + 1 || text[at.pos
        - 1] != '\\'))
        invariant
            measurable(text@),
            cursor_at(text@, at),
            open < from.pos <= at.pos,
            closing_quote(text@, open as int, at.pos as int) == closing_quote(
                text@,
                open as int,
                from.pos as int,
            ),
        decreases text@.len() - at.pos,
    {
        at = step_over(text, at);
    }
    at
}

/// The value of a quoted slice: its content between the first and the last
/// character, where a backslash before the quote that the slice starts with
/// gives that quote and a backslash before `n` gives a line break. A slice
/// of two characters or fewer has no content.
pub fn remove_quotes(slice: &[char]) -> (value: String)
    ensures
        value@ == unquote(slice@),
{
    let mut value = String::new();
    if slice.len() <= 2 {
        return value;
    }
    let quote = slice[0];
    let last = slice.len() - 1;
    let ghost content = slice@.subrange(1, last as int);
    let mut i: usize = 1;
    assert(content.skip(0) =~= content);
    while i < last
        invariant
            last == slice@.len() - 1,
            content == slice@.subrange(1, last as int),
            quote == slice@[0],
            1 <= i <= last,
            value@ + unescape(content.skip(i - 1), quote) == unescape(content, quote),
        decreases last - i,
    {
        let c = slice[i];
        let ghost rest = content.skip(i - 1);
        if c == '\\' && i + 1 < last && slice[i + 1] == quote {
            push_char(&mut value, quote);
            assert(rest.skip(2) =~= content.skip(i + 1));
            i += 2;
        } else if c == '\\' && i + 1 < last && slice[i + 1] == 'n' {
            push_char(&mut value, '\n');
            assert(rest.skip(2) =~= content.skip(i + 1));
            i += 2;
        } else {
            push_char(&mut value, c);
            assert(rest.skip(1) =~= content.skip(i as int));
            i += 1;
        }
    }
    value
}

/// The characters `start..end` of `text` as a string.
fn read_word(text: &[char], start: usize, end: usize) -> (word: String)
    requires
        start <= end <= text@.len(),
    ensures
        word@ == text@.subrange(start as int, end as int),
{
    let mut word = String::new();
    let mut i: usize = start;
    while i < end
        invariant
            start <= i <= end <= text@.len(),
            word@ == text@.subrange(start as int, i as int),
        decreases end - i,
    {
        push_char(&mut word, text[i]);
        i += 1;
    }
    word
}

/// Whether the characters `start..end` of `text` spell `export`.
fn spells_export(text: &[char], start: usize, end: usize) -> (r: bool)
    requires
        start <= end <= text@.len(),
    ensures
        r == (text@.subrange(start as int, end as int) == export_word()),
{
    let ghost word = text@.subrange(start as int, end as int);
    assert(export_word().len() == 6);
    if end - start != 6 {
        return false;
    }
    let r = text[start] == 'e' && text[start + 1] == 'x' && text[start + 2] == 'p' && text[start
        + 3] == 'o' && text[start + 4] == 'r' && text[start + 5] == 't';
    proof {
        if r {
            assert(word =~= export_word());
        }
    }
    r
}

/// What a [`Lexer`] is to its callers: the text, how far it has been read,
/// and whether the end has been reported.
pub struct LexerView {
    pub text: Seq<char>,
    pub pos: int,
    pub finished: bool,
}

/// Whether `item` reports `lexeme` with its span in bytes: an error at the
/// offset where it starts if it is no token, else the token between the
/// offsets of its start and end.
pub open spec fn reports(
    text: Seq<char>,
    lexeme: Lexeme,
    item: Result<(usize, Token, usize), ParseError>,
) -> bool {
    match item {
        Ok((start, token, end)) => {
            &&& lexeme.token !is Error
            &&& token@ == lexeme.token
            &&& start == byte_offset(text, lexeme.start)
            &&& end == byte_offset(text, lexeme.end)
        },
        Err(error) => {
            &&& lexeme.token is Error
            &&& error.offset == byte_offset(text, lexeme.start)
        },
    }
}

/// A tokenizer over one text: a forward pass that cannot be restarted.
pub struct Lexer {
    text: Vec<char>,
    cursor: Cursor,
    finished: bool,
}

impl View for Lexer {
    type V = LexerView;

    closed spec fn view(&self) -> LexerView {
        LexerView { text: self.text@, pos: self.cursor.pos as int, finished: self.finished }
    }
}

impl Lexer {
    #[verifier::type_invariant]
    spec fn well_formed(&self) -> bool {
        &&& measurable(self.text@)
        &&& cursor_at(self.text@, self.cursor)
        &&& self.finished ==> self.cursor.pos == self.text@.len()
    }

    /// A tokenizer at the start of `input`.
    pub fn new(input: &str) -> (lexer: Lexer)
        ensures
            lexer@ == (LexerView { text: input@, pos: 0, finished: false }),
    {
        let text = collect_chars(input);
        // The bytes of a `str` are counted by a `usize`, so every offset fits.
        let size = input.as_bytes().len();
        proof {
            assert(text@.take(text@.len() as int) =~= text@);
            assert(byte_offset(text@, text@.len() as int) == size);
        }
        Lexer { text, cursor: Cursor { pos: 0, offset: 0 }, finished: false }
    }

    fn finish(&mut self)
        requires
            old(self)@.pos == old(self)@.text.len(),
        ensures
            final(self)@ == (LexerView { finished: true, ..old(self)@ }),
    {
        proof {
            use_type_invariant(&*self);
        }
        self.finished = true;
    }

    /// Whether the end of the text has been reported. By then all of the
    /// text has been read.
    pub fn finished(&self) -> (r: bool)
        ensures
            r == self@.finished,
            r ==> self@.pos == self@.text.len(),
    {
        proof {
            use_type_invariant(self);
        }
        self.finished
    }

    /// Byte offset of the first character that has not been read.
    pub fn offset(&self) -> (offset: usize)
        ensures
            offset == byte_offset(self@.text, self@.pos),
    {
        proof {
            use_type_invariant(self);
        }
        self.cursor.offset
    }

    /// Reads the next token.
    ///
    /// Tokens come with the byte offsets of their first character and of the
    /// character after their last. Characters that form no token are
    /// reported as an error and read to the end of the text. The end of the
    /// text is reported once, as [`Token::EOF`]; from then on there is nothing
    /// more. Every token but the end moves the tokenizer forward, so a text
    /// has finitely many.
    pub fn next(&mut self) -> (item: Option<Result<(usize, Token, usize), ParseError>>)
        ensures
            final(self)@.text == old(self)@.text,
            match item {
                None => old(self)@.finished && final(self)@ == old(self)@,
                Some(result) => {
                    let lexeme = next_lexeme(old(self)@.text, old(self)@.pos);
                    &&& !old(self)@.finished
                    &&& final(self)@.pos == lexeme.end
                    &&& final(self)@.finished == (lexeme.token is EOF)
                    &&& reports(old(self)@.text, lexeme, result)
                    &&& old(self)@.pos <= final(self)@.pos <= old(self)@.text.len()
                    &&& lexeme.token !is EOF ==> old(self)@.pos < final(self)@.pos
                },
            },
    {
        if self.finished() {
            return None;
        }
        proof {
            use_type_invariant(&*self);
            lemma_lexeme_span(self.text@, self.cursor.pos as int);
        }
        let start = skip_to_token(self.text.as_slice(), self.cursor);
        if start.pos >= self.text.len() {
            self.cursor = start;
            self.finish();
            return Some(Ok((start.offset, Token::EOF, start.offset)));
        }
        let (token, end) = self.token_from(start);
        self.cursor = end;
        match token {
            Token::Error => Some(Err(ParseError { offset: start.offset })),
            _ => Some(Ok((start.offset, token, end.offset))),
        }
    }

    /// The token that starts at `start`, and where it ends.
    fn token_from(&self, start: Cursor) -> (found: (Token, Cursor))
        requires
            cursor_at(self@.text, start),
            start.pos < self@.text.len(),
            skip_blank(self@.text, start.pos as int) == start.pos,
        ensures
            found.0@ == token_at(self@.text, start.pos as int).token,
            found.1.pos == token_at(self@.text, start.pos as int).end,
            cursor_at(self@.text, found.1),
    {
        proof {
            use_type_invariant(self);
        }
        let text = self.text.as_slice();
        let c = text[start.pos];
        let after = step_over(text, start);
        if c == '=' {
            (Token::Eq, after)
        } else if c == '\n' {
            (Token::NewLine, scan_run(text, Run::Space, after))
        } else if quote_char(c) {
            let close = find_closing_quote(text, start.pos, after);
            if close.pos < text.len() {
                let value = remove_quotes(slice_subrange(text, start.pos, close.pos + 1));
                (Token::QuotedString(value), step_over(text, close))
            } else {
                (Token::Error, close)
            }
        } else {
            let end = scan_run(text, Run::Word, start);
            proof {
                lemma_run_end(text@, Run::Word, start.pos as int);
            }
            if spells_export(text, start.pos, end.pos) {
                (Token::Export, end)
            } else {
                (Token::Ident(read_word(text, start.pos, end.pos)), end)
            }
        }
    }
}

} // verus!

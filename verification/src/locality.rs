//! Tokens and parses depend only on the text that they read.
//!
//! A token is determined by the characters that it is read from and the one
//! behind them. What is read from a position on does not depend on what
//! stands before it, and a line is read the same whatever follows its line
//! break. The laws of the format rest on these facts.

use vstd::prelude::*;

use crate::chars::{is_blank, is_quote, is_word_char};
use crate::grammar::{run, step, StateView, Step};
use crate::lexer::{
    closes_quote, closing_quote, in_run, lemma_closing_quote, lemma_lexeme_span, lemma_run_end,
    lemma_skip_blank, next_lexeme, run_end, skip_blank, unquote, word_token, Lexeme, Run,
};
use crate::token::TokenView;

verus! {

/// Whether every character of `text` from `from` up to `to` is a blank.
pub open spec fn blank_between(text: Seq<char>, from: int, to: int) -> bool {
    forall|i: int| from <= i < to ==> is_blank(#[trigger] text[i])
}

/// Whether every character of `text` from `from` up to `to` continues a run
/// of kind `run`.
pub open spec fn run_between(text: Seq<char>, run: Run, from: int, to: int) -> bool {
    forall|i: int| from <= i < to ==> in_run(run, #[trigger] text[i])
}

/// A run whose characters are known ends where they end.
pub proof fn lemma_run_end_is(text: Seq<char>, run: Run, pos: int, end: int)
    requires
        0 <= pos <= end <= text.len(),
        run_between(text, run, pos, end),
        end < text.len() ==> !in_run(run, text[end]),
    ensures
        run_end(text, run, pos) == end,
    decreases end - pos,
{
    if pos < end {
        lemma_run_end_is(text, run, pos + 1, end);
    }
}

/// Blanks are skipped up to the first character that is none and starts no
/// comment.
pub proof fn lemma_skip_blank_is(text: Seq<char>, pos: int, start: int)
    requires
        0 <= pos <= start <= text.len(),
        blank_between(text, pos, start),
        start < text.len() ==> !is_blank(text[start]) && text[start] != '#',
    ensures
        skip_blank(text, pos) == start,
    decreases start - pos,
{
    if pos < start {
        lemma_skip_blank_is(text, pos + 1, start);
    }
}

/// A comment after blanks is skipped up to the end of its line.
pub proof fn lemma_skip_comment(text: Seq<char>, pos: int, hash: int, end: int)
    requires
        0 <= pos <= hash < end <= text.len(),
        blank_between(text, pos, hash),
        text[hash] == '#',
        run_between(text, Run::Line, hash, end),
        end < text.len() ==> text[end] == '\n',
    ensures
        skip_blank(text, pos) == end,
    decreases hash - pos,
{
    if pos < hash {
        lemma_skip_comment(text, pos + 1, hash, end);
    } else {
        lemma_run_end_is(text, Run::Line, hash, end);
    }
}

/// After blanks, a maximal run of word characters is read as one word.
pub proof fn lemma_word_lexeme(text: Seq<char>, pos: int, start: int, end: int)
    requires
        0 <= pos <= start < end <= text.len(),
        blank_between(text, pos, start),
        run_between(text, Run::Word, start, end),
        end < text.len() ==> !is_word_char(text[end]),
    ensures
        next_lexeme(text, pos) == (Lexeme {
            start,
            token: word_token(text.subrange(start, end)),
            end,
        }),
{
    lemma_skip_blank_is(text, pos, start);
    lemma_run_end_is(text, Run::Word, start, end);
}

/// After blanks, a quote with its closing quote is read as a quoted value.
pub proof fn lemma_quoted_lexeme(text: Seq<char>, pos: int, start: int, close: int)
    requires
        0 <= pos <= start < close < text.len(),
        blank_between(text, pos, start),
        is_quote(text[start]),
        closes_quote(text, start, close),
        forall|i: int| start < i < close ==> !closes_quote(text, start, i),
    ensures
        next_lexeme(text, pos) == (Lexeme {
            start,
            token: TokenView::QuotedString(unquote(text.subrange(start, close + 1))),
            end: close + 1,
        }),
{
    lemma_skip_blank_is(text, pos, start);
    lemma_closing_quote_is(text, start, start + 1, close);
}

/// The closing quote is the first character that closes.
pub proof fn lemma_closing_quote_is(text: Seq<char>, open: int, pos: int, close: int)
    requires
        0 <= pos <= close <= text.len(),
        forall|i: int| pos <= i < close ==> !closes_quote(text, open, i),
        close < text.len() ==> closes_quote(text, open, close),
    ensures
        closing_quote(text, open, pos) == close,
    decreases close - pos,
{
    if pos < close {
        lemma_closing_quote_is(text, open, pos + 1, close);
    }
}

/// After blanks, a quote that nothing closes is no token.
pub proof fn lemma_open_quote_lexeme(text: Seq<char>, pos: int, start: int)
    requires
        0 <= pos <= start < text.len(),
        blank_between(text, pos, start),
        is_quote(text[start]),
        forall|i: int| start < i < text.len() ==> !closes_quote(text, start, i),
    ensures
        next_lexeme(text, pos) == (Lexeme {
            start,
            token: TokenView::Error,
            end: text.len() as int,
        }),
{
    lemma_skip_blank_is(text, pos, start);
    lemma_closing_quote_is(text, start, start + 1, text.len() as int);
}

/// `lexeme` moved `by` characters to the right.
pub open spec fn shifted(lexeme: Lexeme, by: int) -> Lexeme {
    Lexeme { start: lexeme.start + by, token: lexeme.token, end: lexeme.end + by }
}

/// The outcome of a run with the position of its error, if it has one,
/// moved `by` characters to the right.
pub open spec fn moved(
    outcome: Result<Map<Seq<char>, Seq<char>>, int>,
    by: int,
) -> Result<Map<Seq<char>, Seq<char>>, int> {
    match outcome {
        Ok(entries) => Ok(entries),
        Err(pos) => Err(pos + by),
    }
}

/// A run ends at the same character whatever stands before the text.
pub proof fn lemma_run_end_shift(before: Seq<char>, text: Seq<char>, run: Run, pos: int)
    requires
        0 <= pos <= text.len(),
    ensures
        run_end(before + text, run, before.len() + pos) == before.len() + run_end(text, run, pos),
    decreases text.len() - pos,
{
    if pos < text.len() && in_run(run, text[pos]) {
        lemma_run_end_shift(before, text, run, pos + 1);
    }
}

/// Blanks and comments are skipped alike whatever stands before the text.
pub proof fn lemma_skip_blank_shift(before: Seq<char>, text: Seq<char>, pos: int)
    requires
        0 <= pos <= text.len(),
    ensures
        skip_blank(before + text, before.len() + pos) == before.len() + skip_blank(text, pos),
    decreases text.len() - pos,
{
    if pos < text.len() {
        if text[pos] == '#' {
            lemma_run_end_shift(before, text, Run::Line, pos);
        } else if is_blank(text[pos]) {
            lemma_skip_blank_shift(before, text, pos + 1);
        }
    }
}

/// A quote is closed by the same character whatever stands before the
/// text.
pub proof fn lemma_closing_quote_shift(before: Seq<char>, text: Seq<char>, open: int, pos: int)
    requires
        0 <= open < pos <= text.len(),
    ensures
        closing_quote(before + text, before.len() + open, before.len() + pos) == before.len()
            + closing_quote(text, open, pos),
    decreases text.len() - pos,
{
    if pos < text.len() && !closes_quote(text, open, pos) {
        lemma_closing_quote_shift(before, text, open, pos + 1);
    }
}

/// The same token is read whatever stands before the text.
pub proof fn lemma_lexeme_shift(before: Seq<char>, text: Seq<char>, pos: int)
    requires
        0 <= pos <= text.len(),
    ensures
        next_lexeme(before + text, before.len() + pos) == shifted(
            next_lexeme(text, pos),
            before.len() as int,
        ),
{
    let whole = before + text;
    let by = before.len() as int;
    lemma_skip_blank_shift(before, text, pos);
    lemma_skip_blank(text, pos);
    let start = skip_blank(text, pos);
    if start < text.len() {
        lemma_run_end_shift(before, text, Run::Space, start + 1);
        lemma_run_end_shift(before, text, Run::Word, start);
        lemma_closing_quote_shift(before, text, start, start + 1);
        lemma_run_end(text, Run::Word, start);
        lemma_closing_quote(text, start, start + 1);
        let end = run_end(text, Run::Word, start);
        assert(whole.subrange(by + start, by + end) =~= text.subrange(start, end));
        let close = closing_quote(text, start, start + 1);
        if close < text.len() {
            assert(whole.subrange(by + start, by + close + 1) =~= text.subrange(start, close + 1));
        }
    }
}

/// The machine runs alike whatever stands before the text.
pub proof fn lemma_run_shift(
    before: Seq<char>,
    text: Seq<char>,
    pos: int,
    state: StateView,
    entries: Map<Seq<char>, Seq<char>>,
)
    requires
        0 <= pos <= text.len(),
    ensures
        run(before + text, before.len() + pos, state, entries) == moved(
            run(text, pos, state, entries),
            before.len() as int,
        ),
    decreases text.len() - pos,
{
    lemma_lexeme_shift(before, text, pos);
    lemma_lexeme_span(text, pos);
    let lexeme = next_lexeme(text, pos);
    match step(state, entries, lexeme.token) {
        Step::Continue(next, collected) => {
            if lexeme.token !is EOF {
                lemma_run_shift(before, text, lexeme.end, next, collected);
            }
        },
        _ => {},
    }
}

/// Entries collected before a run stay under what the run collects: to
/// start with `base` merged under `entries` is to merge `base` under the
/// outcome.
pub proof fn lemma_run_over_base(
    text: Seq<char>,
    pos: int,
    state: StateView,
    base: Map<Seq<char>, Seq<char>>,
    entries: Map<Seq<char>, Seq<char>>,
)
    ensures
        run(text, pos, state, base.union_prefer_right(entries)) == match run(
            text,
            pos,
            state,
            entries,
        ) {
            Ok(collected) => Ok(base.union_prefer_right(collected)),
            Err(at) => Err(at),
        },
    decreases text.len() - pos,
{
    lemma_lexeme_span(text, pos);
    let lexeme = next_lexeme(text, pos);
    let merged = base.union_prefer_right(entries);
    assert forall|name: Seq<char>, value: Seq<char>|
        merged.insert(name, value) == base.union_prefer_right(
            #[trigger] entries.insert(name, value),
        ) by {
        assert(merged.insert(name, value) =~= base.union_prefer_right(entries.insert(name, value)));
    }
    match step(state, entries, lexeme.token) {
        Step::Continue(next, collected) => {
            if lexeme.token !is EOF {
                lemma_run_over_base(text, lexeme.end, next, base, collected);
            }
        },
        _ => {},
    }
}

/// White space at the start of a line is passed over: from there the
/// machine runs as from the first character behind it.
pub proof fn lemma_run_skips_space(text: Seq<char>, pos: int, entries: Map<Seq<char>, Seq<char>>)
    requires
        0 <= pos <= text.len(),
    ensures
        run(text, pos, StateView::Start, entries) == run(
            text,
            run_end(text, Run::Space, pos),
            StateView::Start,
            entries,
        ),
    decreases text.len() - pos,
{
    // A line break is read as a token that takes the white space behind it;
    // a blank is skipped before the token after it.
    if pos < text.len() && is_blank(text[pos]) {
        lemma_run_skips_space(text, pos + 1, entries);
    }
}

/// Whether `text` stays within one line.
pub open spec fn is_one_line(text: Seq<char>) -> bool {
    forall|i: int| 0 <= i < text.len() ==> #[trigger] text[i] != '\n'
}

/// Whether `text` holds no quote of any kind.
pub open spec fn is_unquoted(text: Seq<char>) -> bool {
    forall|i: int| 0 <= i < text.len() ==> !is_quote(#[trigger] text[i])
}

/// Whether `tail` starts with a line break.
pub open spec fn breaks_line(tail: Seq<char>) -> bool {
    tail.len() > 0 && tail[0] == '\n'
}

/// A word or a comment within a line ends at the same character whatever
/// follows the line's break.
pub proof fn lemma_run_end_in_line(line: Seq<char>, tail: Seq<char>, run: Run, pos: int)
    requires
        0 <= pos <= line.len(),
        breaks_line(tail),
        run != Run::Space,
    ensures
        run_end(line + tail, run, pos) == run_end(line, run, pos),
    decreases line.len() - pos,
{
    if pos < line.len() && in_run(run, line[pos]) {
        lemma_run_end_in_line(line, tail, run, pos + 1);
    }
}

/// Blanks and a comment within a line are skipped alike whatever follows
/// the line's break.
pub proof fn lemma_skip_blank_in_line(line: Seq<char>, tail: Seq<char>, pos: int)
    requires
        0 <= pos <= line.len(),
        breaks_line(tail),
    ensures
        skip_blank(line + tail, pos) == skip_blank(line, pos),
    decreases line.len() - pos,
{
    if pos < line.len() {
        if line[pos] == '#' {
            lemma_run_end_in_line(line, tail, Run::Line, pos);
        } else if is_blank(line[pos]) {
            lemma_skip_blank_in_line(line, tail, pos + 1);
        }
    }
}

/// A quote that is closed within its line is closed there whatever follows
/// the line.
pub proof fn lemma_closing_quote_in_line(line: Seq<char>, tail: Seq<char>, open: int, pos: int)
    requires
        0 <= open < pos <= line.len(),
        closing_quote(line, open, pos) < line.len(),
    ensures
        closing_quote(line + tail, open, pos) == closing_quote(line, open, pos),
    decreases line.len() - pos,
{
    if !closes_quote(line, open, pos) {
        lemma_closing_quote_in_line(line, tail, open, pos + 1);
    }
}

/// A token within a line is read alike whatever follows the line's break,
/// and where the line alone ends, the break is read.
pub proof fn lemma_lexeme_in_line(line: Seq<char>, tail: Seq<char>, pos: int)
    requires
        0 <= pos <= line.len(),
        is_one_line(line),
        breaks_line(tail),
    ensures
        next_lexeme(line, pos).token !is NewLine,
        next_lexeme(line, pos).token is Error ==> !is_unquoted(line),
        next_lexeme(line, pos).token !is EOF && next_lexeme(line, pos).token !is Error
            ==> next_lexeme(line + tail, pos) == next_lexeme(line, pos),
        next_lexeme(line, pos).token is EOF ==> next_lexeme(line + tail, pos) == (Lexeme {
            start: line.len() as int,
            token: TokenView::NewLine,
            end: run_end(line + tail, Run::Space, line.len() as int + 1),
        }),
{
    let whole = line + tail;
    lemma_skip_blank_in_line(line, tail, pos);
    lemma_skip_blank(line, pos);
    let start = skip_blank(line, pos);
    if start < line.len() {
        if is_quote(line[start]) {
            lemma_closing_quote(line, start, start + 1);
            let close = closing_quote(line, start, start + 1);
            if close < line.len() {
                lemma_closing_quote_in_line(line, tail, start, start + 1);
                assert(whole.subrange(start, close + 1) =~= line.subrange(start, close + 1));
            }
        } else if line[start] != '=' {
            lemma_run_end_in_line(line, tail, Run::Word, start);
            lemma_run_end(line, Run::Word, start);
            let end = run_end(line, Run::Word, start);
            assert(whole.subrange(start, end) =~= line.subrange(start, end));
        }
    }
}

/// A line is read alike whatever follows its break: where the line alone
/// is complete, the machine stands at the start of the next line with the
/// line's entries, and where a token of the line is rejected, it is
/// rejected at the same place.
pub proof fn lemma_run_in_line(
    line: Seq<char>,
    tail: Seq<char>,
    pos: int,
    state: StateView,
    entries: Map<Seq<char>, Seq<char>>,
)
    requires
        0 <= pos <= line.len(),
        is_one_line(line),
        breaks_line(tail),
        run(line, pos, state, entries) is Ok || is_unquoted(line),
    ensures
        run(line + tail, pos, state, entries) == match run(line, pos, state, entries) {
            Ok(collected) => run(line + tail, line.len() as int + 1, StateView::Start, collected),
            Err(at) => Err(at),
        },
    decreases line.len() - pos,
{
    let whole = line + tail;
    lemma_lexeme_in_line(line, tail, pos);
    lemma_lexeme_span(line, pos);
    let lexeme = next_lexeme(line, pos);
    if lexeme.token is EOF {
        match step(state, entries, TokenView::EOF) {
            Step::Accept(collected) => {
                lemma_run_skips_space(whole, line.len() as int + 1, collected);
            },
            _ => {},
        }
    } else {
        match step(state, entries, lexeme.token) {
            Step::Continue(next, collected) => {
                lemma_run_in_line(line, tail, lexeme.end, next, collected);
            },
            _ => {},
        }
    }
}

} // verus!

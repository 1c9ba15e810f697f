//! The grammar of an env file, as a machine that reads one token at a time.
//!
//! A file is a sequence of lines. A line is empty, but perhaps for blanks
//! and a comment, or holds one assignment: an optional `export`, a name, `=`
//! and at most one value, bare or quoted.
//! A name without `=` is no assignment, and `export` is a keyword wherever
//! it stands as a word of its own: neither a name nor a bare value. The
//! machine collects the assignments in reading order, so a later assignment
//! to a name replaces an earlier one, and it stops at the first token that
//! may not stand where it does.

use vstd::prelude::*;

use crate::env_map::EnvMap;
use crate::lexer::{lemma_lexeme_span, next_lexeme, Lexer, LexerView};
use crate::text::byte_offset;
use crate::token::{ParseError, Token, TokenView};

verus! {

/// Where the machine stands within a line.
#[derive(Debug)]
pub enum State {
    /// At the start of a line.
    Start,
    /// After `export`: a name must follow.
    Exported,
    /// After the name: `=` must follow.
    Key(String),
    /// After `=`: a value or the end of the line may follow.
    Assigned(String),
    /// After the value: only the end of the line may follow.
    LineEnd,
}

/// A [`State`] with its name as a sequence of characters.
pub enum StateView {
    Start,
    Exported,
    Key(Seq<char>),
    Assigned(Seq<char>),
    LineEnd,
}

impl View for State {
    type V = StateView;

    open spec fn view(&self) -> StateView {
        match self {
            State::Start => StateView::Start,
            State::Exported => StateView::Exported,
            State::Key(name) => StateView::Key(name@),
            State::Assigned(name) => StateView::Assigned(name@),
            State::LineEnd => StateView::LineEnd,
        }
    }
}

/// What reading one token leads to.
pub enum Step {
    /// The file goes on, in this state and with these entries.
    Continue(StateView, Map<Seq<char>, Seq<char>>),
    /// The file is complete and holds these entries.
    Accept(Map<Seq<char>, Seq<char>>),
    /// The token may not stand here.
    Reject,
}

/// The grammar: what `token` leads to when read in `state` with `entries`
/// collected so far.
pub open spec fn step(
    state: StateView,
    entries: Map<Seq<char>, Seq<char>>,
    token: TokenView,
) -> Step {
    match (state, token) {
        (StateView::Start, TokenView::NewLine) => Step::Continue(StateView::Start, entries),
        (StateView::Start, TokenView::Export) => Step::Continue(StateView::Exported, entries),
        (StateView::Start, TokenView::Ident(name)) => Step::Continue(StateView::Key(name), entries),
        (StateView::Start, TokenView::EOF) => Step::Accept(entries),
        (StateView::Exported, TokenView::Ident(name)) => Step::Continue(
            StateView::Key(name),
            entries,
        ),
        (StateView::Key(name), TokenView::Eq) => Step::Continue(StateView::Assigned(name), entries),
        (StateView::Assigned(name), TokenView::Ident(value)) => Step::Continue(
            StateView::LineEnd,
            entries.insert(name, value),
        ),
        (StateView::Assigned(name), TokenView::QuotedString(value)) => Step::Continue(
            StateView::LineEnd,
            entries.insert(name, value),
        ),
        (StateView::Assigned(name), TokenView::NewLine) => Step::Continue(
            StateView::Start,
            entries.insert(name, Seq::empty()),
        ),
        (StateView::Assigned(name), TokenView::EOF) => Step::Accept(
            entries.insert(name, Seq::empty()),
        ),
        (StateView::LineEnd, TokenView::NewLine) => Step::Continue(StateView::Start, entries),
        (StateView::LineEnd, TokenView::EOF) => Step::Accept(entries),
        _ => Step::Reject,
    }
}

/// The machine run over `text` from character `pos` on, started in `state`
/// with `entries`: the entries of the complete file, or the position at
/// which the first token starts that may not stand where it does. The end
/// of the text is accepted or rejected by [`step`], never passed, so the run
/// ends there at the latest.
pub open spec fn run(
    text: Seq<char>,
    pos: int,
    state: StateView,
    entries: Map<Seq<char>, Seq<char>>,
) -> Result<Map<Seq<char>, Seq<char>>, int>
    decreases text.len() - pos,
{
    let lexeme = next_lexeme(text, pos);
    match step(state, entries, lexeme.token) {
        Step::Continue(next, collected) => {
            if lexeme.token is EOF {
                Ok(collected)
            } else {
                proof {
                    lemma_lexeme_span(text, pos);
                }
                run(text, lexeme.end, next, collected)
            }
        },
        Step::Accept(collected) => Ok(collected),
        Step::Reject => Err(lexeme.start),
    }
}

/// What `text` means as an env file: its mapping from names to values, or
/// the byte offset of the token at which it stops being well formed.
pub open spec fn parse_text(text: Seq<char>) -> Result<Map<Seq<char>, Seq<char>>, nat> {
    match run(text, 0, StateView::Start, Map::empty()) {
        Ok(entries) => Ok(entries),
        Err(pos) => Err(byte_offset(text, pos)),
    }
}

/// The position of an error lies within the text, at or after the position
/// that the run started from.
pub proof fn lemma_error_in_text(
    text: Seq<char>,
    pos: int,
    state: StateView,
    entries: Map<Seq<char>, Seq<char>>,
)
    requires
        0 <= pos <= text.len(),
    ensures
        run(text, pos, state, entries) matches Err(at) ==> pos <= at <= text.len(),
    decreases text.len() - pos,
{
    lemma_lexeme_span(text, pos);
    let lexeme = next_lexeme(text, pos);
    match step(state, entries, lexeme.token) {
        Step::Continue(next, collected) => {
            if lexeme.token !is EOF {
                lemma_error_in_text(text, lexeme.end, next, collected);
            }
        },
        _ => {},
    }
}

/// What the rest of the text behind `lexer` means as an env file. A
/// tokenizer that has reported the end has no tokens left, not even the end,
/// which is an error at the end of the text.
pub open spec fn parse_rest(lexer: LexerView) -> Result<Map<Seq<char>, Seq<char>>, nat> {
    if lexer.finished {
        Err(byte_offset(lexer.text, lexer.text.len() as int))
    } else {
        match run(lexer.text, lexer.pos, StateView::Start, Map::empty()) {
            Ok(entries) => Ok(entries),
            Err(pos) => Err(byte_offset(lexer.text, pos)),
        }
    }
}

/// Whether `result` is what `expected` asks for: the mapping, or an error at
/// the offset.
pub open spec fn yields(
    result: Result<EnvMap, ParseError>,
    expected: Result<Map<Seq<char>, Seq<char>>, nat>,
) -> bool {
    match expected {
        Ok(entries) => result is Ok && result->Ok_0@ == entries,
        Err(offset) => result is Err && result->Err_0.offset == offset,
    }
}

/// What [`advance`] decided.
#[derive(Debug)]
pub enum Verdict {
    /// Go on in this state.
    Continue(State),
    /// The file is complete.
    Accept,
    /// The token may not stand here.
    Reject,
}

/// Reads `token` in `state`: moves on as [`step`] says and writes the
/// assignment that the token completes, if any, into `entries`.
pub fn advance(state: State, entries: &mut EnvMap, token: Token) -> (verdict: Verdict)
    ensures
        match step(state@, old(entries)@, token@) {
            Step::Continue(next, collected) => {
                &&& verdict matches Verdict::Continue(reached)
                &&& reached@ == next
                &&& final(entries)@ == collected
            },
            Step::Accept(collected) => verdict is Accept && final(entries)@ == collected,
            Step::Reject => verdict is Reject && final(entries)@ == old(entries)@,
        },
{
    match (state, token) {
        (State::Start, Token::NewLine) => Verdict::Continue(State::Start),
        (State::Start, Token::Export) => Verdict::Continue(State::Exported),
        (State::Start, Token::Ident(name)) => Verdict::Continue(State::Key(name)),
        (State::Start, Token::EOF) => Verdict::Accept,
        (State::Exported, Token::Ident(name)) => Verdict::Continue(State::Key(name)),
        (State::Key(name), Token::Eq) => Verdict::Continue(State::Assigned(name)),
        (State::Assigned(name), Token::Ident(value)) => {
            entries.insert(name, value);
            Verdict::Continue(State::LineEnd)
        },
        (State::Assigned(name), Token::QuotedString(value)) => {
            entries.insert(name, value);
            Verdict::Continue(State::LineEnd)
        },
        (State::Assigned(name), Token::NewLine) => {
            entries.insert(name, String::new());
            Verdict::Continue(State::Start)
        },
        (State::Assigned(name), Token::EOF) => {
            entries.insert(name, String::new());
            Verdict::Accept
        },
        (State::LineEnd, Token::NewLine) => Verdict::Continue(State::Start),
        (State::LineEnd, Token::EOF) => Verdict::Accept,
        _ => Verdict::Reject,
    }
}

/// Parses the tokens that `lexer` has left as an env file.
///
/// Returns the mapping of the file, or an error at the first token that is
/// no token or may not stand where it does.
pub fn parse(lexer: Lexer) -> (result: Result<EnvMap, ParseError>)
    ensures
        yields(result, parse_rest(lexer@)),
{
    let mut tokens = lexer;
    let mut entries = EnvMap::new();
    let mut state = State::Start;
    let ghost text = lexer@.text;
    if tokens.finished() {
        return Err(ParseError { offset: tokens.offset() });
    }
    loop
        invariant
            !tokens@.finished,
            tokens@.text == text,
            parse_rest(lexer@) == match run(text, tokens@.pos, state@, entries@) {
                Ok(collected) => Ok::<Map<Seq<char>, Seq<char>>, nat>(collected),
                Err(pos) => Err(byte_offset(text, pos)),
            },
        decreases text.len() - tokens@.pos,
    {
        match tokens.next() {
            None => {
                return Err(ParseError { offset: tokens.offset() });
            },
            Some(Err(error)) => {
                return Err(error);
            },
            Some(Ok((start, token, _))) => {
                match advance(state, &mut entries, token) {
                    Verdict::Continue(reached) => {
                        state = reached;
                    },
                    Verdict::Accept => {
                        return Ok(entries);
                    },
                    Verdict::Reject => {
                        return Err(ParseError { offset: start });
                    },
                }
            },
        }
    }
}

} // verus!

//! Tokens of the env-file format and the error of a failed parse.

use vstd::prelude::*;
use vstd::std_specs::cmp::PartialEqSpecImpl;

verus! {

/// The error returned when a text is not a well-formed env file.
///
/// It does not tell whether a character sequence was no token or a token
/// stood where none of its kind may stand; either way `offset` is the byte
/// offset at which the offending token starts.
#[derive(Debug, Clone, Copy, PartialEq, Eq, Structural)]
pub struct ParseError {
    pub offset: usize,
}

impl ParseError {
    /// The text shown for this error.
    pub fn message(&self) -> (text: String)
        ensures
            text@ == "ParseError"@,
    {
        "ParseError".to_owned()
    }
}

/// A lexical unit of an env file.
#[derive(Debug)]
pub enum Token {
    /// The sign `=`.
    Eq,
    /// The word `export`.
    Export,
    /// A line break with the white space that follows it.
    NewLine,
    /// A name or an unquoted value.
    Ident(String),
    /// A quoted value, without its quotes and with its escapes resolved.
    QuotedString(String),
    /// The end of the text.
    EOF,
    /// Characters that form no token.
    Error,
}

/// What a [`Token`] stands for, with its text as a sequence of characters.
pub enum TokenView {
    Eq,
    Export,
    NewLine,
    Ident(Seq<char>),
    QuotedString(Seq<char>),
    EOF,
    Error,
}

impl View for Token {
    type V = TokenView;

    open spec fn view(&self) -> TokenView {
        match self {
            Token::Eq => TokenView::Eq,
            Token::Export => TokenView::Export,
            Token::NewLine => TokenView::NewLine,
            Token::Ident(text) => TokenView::Ident(text@),
            Token::QuotedString(text) => TokenView::QuotedString(text@),
            Token::EOF => TokenView::EOF,
            Token::Error => TokenView::Error,
        }
    }
}

impl Clone for Token {
    fn clone(&self) -> (copy: Token)
        ensures
            copy@ == self@,
    {
        match self {
            Token::Eq => Token::Eq,
            Token::Export => Token::Export,
            Token::NewLine => Token::NewLine,
            Token::Ident(text) => Token::Ident(text.clone()),
            Token::QuotedString(text) => Token::QuotedString(text.clone()),
            Token::EOF => Token::EOF,
            Token::Error => Token::Error,
        }
    }
}

impl PartialEq for Token {
    fn eq(&self, other: &Token) -> (equal: bool) {
        match (self, other) {
            (Token::Eq, Token::Eq) => true,
            (Token::Export, Token::Export) => true,
            (Token::NewLine, Token::NewLine) => true,
            (Token::Ident(a), Token::Ident(b)) => *a == *b,
            (Token::QuotedString(a), Token::QuotedString(b)) => *a == *b,
            (Token::EOF, Token::EOF) => true,
            (Token::Error, Token::Error) => true,
            _ => false,
        }
    }
}

impl PartialEqSpecImpl for Token {
    open spec fn obeys_eq_spec() -> bool {
        true
    }

    open spec fn eq_spec(&self, other: &Token) -> bool {
        self@ == other@
    }
}

} // verus!

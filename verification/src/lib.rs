//! Reads env files: lines of `NAME=value`, each optionally prefixed with
//! `export`, with values bare or in single, double or backtick quotes, and
//! with comments from `#` to the end of the line.
//!
//! [`read_str`] parses one text into an [`EnvMap`]; [`read_files`] parses
//! several and merges them, later texts overriding earlier ones. What a text
//! means is defined by [`grammar::parse_text`] over the tokens that
//! [`lexer::next_lexeme`] finds in it.

use vstd::prelude::*;

pub mod chars;
pub mod env_map;
pub mod grammar;
pub mod laws;
pub mod lexer;
pub mod locality;
pub mod text;
pub mod token;

pub use crate::env_map::EnvMap;
pub use crate::token::{ParseError, Token};

use crate::grammar::{parse, parse_text, yields};
use crate::lexer::Lexer;

verus! {

/// Parses an env file that is passed as a string.
///
/// Returns the mapping from names to values that the text defines, or an
/// error at the byte offset of the first token that cannot be read or may
/// not stand where it does.
pub fn read_str(s: &str) -> (result: Result<EnvMap, ParseError>)
    ensures
        yields(result, parse_text(s@)),
{
    parse(Lexer::new(s))
}

/// The texts of `sources` as sequences of characters.
pub open spec fn texts(sources: Seq<String>) -> Seq<Seq<char>> {
    sources.map_values(|source: String| source@)
}

/// What several texts mean together: the mappings of all of them merged in
/// order, a later text overriding an earlier one, or the error of the first
/// text that is not well formed.
pub open spec fn parse_texts(texts: Seq<Seq<char>>) -> Result<Map<Seq<char>, Seq<char>>, nat>
    decreases texts.len(),
{
    if texts.len() == 0 {
        Ok(Map::empty())
    } else {
        match parse_texts(texts.drop_last()) {
            Ok(merged) => match parse_text(texts.last()) {
                Ok(entries) => Ok(merged.union_prefer_right(entries)),
                Err(offset) => Err(offset),
            },
            Err(offset) => Err(offset),
        }
    }
}

/// Parses several env files, passed as strings, into one mapping.
///
/// The texts are read in order. Where two of them define the same name, the
/// value of the later text stays. The first text that is not well formed
/// ends the reading with its error, and nothing of the others is returned.
pub fn read_files(sources: &[String]) -> (result: Result<EnvMap, ParseError>)
    ensures
        yields(result, parse_texts(texts(sources@))),
{
    let mut merged = EnvMap::new();
    let ghost all = texts(sources@);
    let mut i: usize = 0;
    while i < sources.len()
        invariant
            i <= sources@.len(),
            all == texts(sources@),
            parse_texts(all.take(i as int)) == Ok::<Map<Seq<char>, Seq<char>>, nat>(merged@),
        decreases sources@.len() - i,
    {
        proof {
            assert(all.take(i + 1).drop_last() =~= all.take(i as int));
        }
        match read_str(sources[i].as_str()) {
            Ok(entries) => {
                merged.extend(entries);
            },
            Err(error) => {
                proof {
                    lemma_parse_texts_fails(all, i as int);
                }
                return Err(error);
            },
        }
        i += 1;
    }
    proof {
        assert(all.take(i as int) =~= all);
    }
    Ok(merged)
}

/// Once the texts up to and including the one at `i` fail, all of them fail
/// with the same error.
pub proof fn lemma_parse_texts_fails(texts: Seq<Seq<char>>, i: int)
    requires
        0 <= i < texts.len(),
        parse_texts(texts.take(i + 1)) is Err,
    ensures
        parse_texts(texts) == parse_texts(texts.take(i + 1)),
    decreases texts.len(),
{
    if i + 1 < texts.len() {
        assert(texts.drop_last().take(i + 1) =~= texts.take(i + 1));
        lemma_parse_texts_fails(texts.drop_last(), i);
    } else {
        assert(texts.take(i + 1) =~= texts);
    }
}

} // verus!

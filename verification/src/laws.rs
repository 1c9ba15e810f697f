//! What holds of the format: statements about [`parse_text`] and
//! [`parse_texts`] that Verus proves from their definitions.

use vstd::prelude::*;
use vstd::std_specs::cmp::PartialEqSpec;
use vstd::utf8::encode_utf8;

use crate::chars::{is_quote, is_word_char};
use crate::env_map::EnvMap;
use crate::grammar::{lemma_error_in_text, parse_text, run, step, yields, StateView, Step};
use crate::lexer::{
    export_word, is_name, lemma_ident_is_name, lemma_lexeme_span, next_lexeme, unescape,
};
use crate::locality::{
    is_one_line, is_unquoted, lemma_lexeme_shift, lemma_open_quote_lexeme, lemma_quoted_lexeme,
    lemma_run_in_line, lemma_run_over_base, lemma_run_shift, lemma_skip_blank_is,
    lemma_skip_comment, lemma_word_lexeme, moved,
};
use crate::parse_texts;
use crate::text::{
    byte_offset, lemma_ascii_length, lemma_byte_offset_shift, lemma_encode_concat,
};
use crate::token::ParseError;

verus! {

/// The mapping with the single entry `name` to `value`.
pub open spec fn single(name: Seq<char>, value: Seq<char>) -> Map<Seq<char>, Seq<char>> {
    Map::empty().insert(name, value)
}

/// A text that starts with `name=` is an assignment to `name`: the machine
/// reads the two and goes on behind the sign.
pub proof fn lemma_name_and_sign(name: Seq<char>, rest: Seq<char>)
    requires
        is_name(name),
    ensures
        run(name + seq!['='] + rest, 0, StateView::Start, Map::empty()) == moved(
            run(rest, 0, StateView::Assigned(name), Map::empty()),
            name.len() as int + 1,
        ),
{
    let head = name + seq!['='];
    let text = name + seq!['='] + rest;
    let n = name.len() as int;
    let empty = Map::<Seq<char>, Seq<char>>::empty();
    assert(text.subrange(0, n) =~= name);
    lemma_word_lexeme(text, 0, 0, n);
    lemma_run_shift(head, rest, 0, StateView::Assigned(name), empty);
    assert(run(text, n, StateView::Key(name), empty) == run(
        text,
        n + 1,
        StateView::Assigned(name),
        empty,
    ));
}

/// Behind the sign, an unquoted value that ends with the text or before a
/// character that cannot continue it is the value of the assignment, and
/// only the end of the line may follow.
pub proof fn lemma_value_and_rest(name: Seq<char>, value: Seq<char>, rest: Seq<char>)
    requires
        is_name(value),
        rest.len() > 0 ==> !is_word_char(rest[0]),
    ensures
        run(value + rest, 0, StateView::Assigned(name), Map::empty()) == moved(
            run(rest, 0, StateView::LineEnd, single(name, value)),
            value.len() as int,
        ),
{
    let text = value + rest;
    let v = value.len() as int;
    assert(text.subrange(0, v) =~= value);
    lemma_word_lexeme(text, 0, 0, v);
    lemma_run_shift(value, rest, 0, StateView::LineEnd, single(name, value));
}

/// The empty text is an env file without entries.
pub proof fn lemma_empty_text()
    ensures
        parse_text(Seq::empty()) == Ok::<Map<Seq<char>, Seq<char>>, nat>(Map::empty()),
{
}

/// The line `name=value`, with an unquoted value, maps `name` to `value`.
pub proof fn lemma_plain_assignment(name: Seq<char>, value: Seq<char>)
    requires
        is_name(name),
        is_name(value),
    ensures
        parse_text(name + seq!['='] + value) == Ok::<Map<Seq<char>, Seq<char>>, nat>(
            single(name, value),
        ),
{
    lemma_name_and_sign(name, value);
    lemma_value_and_rest(name, value, Seq::empty());
}

/// The line `name=`, without a value, maps `name` to the empty string.
pub proof fn lemma_empty_value(name: Seq<char>)
    requires
        is_name(name),
    ensures
        parse_text(name + seq!['=']) == Ok::<Map<Seq<char>, Seq<char>>, nat>(
            single(name, Seq::empty()),
        ),
{
    lemma_name_and_sign(name, Seq::empty());
}

/// The keyword before a name changes nothing: a text that starts with a
/// name means the same with `export` and a blank before it, but for the
/// seven bytes by which an error moves.
pub proof fn lemma_export_prefix(text: Seq<char>)
    requires
        next_lexeme(text, 0).token is Ident,
    ensures
        parse_text(export_word() + seq![' '] + text) == match parse_text(text) {
            Ok(entries) => Ok(entries),
            Err(at) => Err(7 + at),
        },
{
    let prefix = export_word() + seq![' '];
    let whole = export_word() + seq![' '] + text;
    let empty = Map::<Seq<char>, Seq<char>>::empty();
    let first = next_lexeme(text, 0);
    let name = first.token->Ident_0;
    assert(whole.subrange(0, 6) =~= export_word());
    lemma_lexeme_span(text, 0);
    lemma_word_lexeme(whole, 0, 0, 6);
    lemma_lexeme_shift(prefix, text, 0);
    lemma_run_shift(prefix, text, first.end, StateView::Key(name), empty);
    assert(run(whole, 6, StateView::Exported, empty) == run(
        whole,
        7 + first.end,
        StateView::Key(name),
        empty,
    ));
    if let Err(at) = run(text, 0, StateView::Start, empty) {
        lemma_error_in_text(text, 0, StateView::Start, empty);
        lemma_byte_offset_shift(prefix, text, at);
        lemma_ascii_length(prefix);
    }
}

/// The line `export name=value` means what `name=value` means.
pub proof fn lemma_export_is_inert(name: Seq<char>, value: Seq<char>)
    requires
        is_name(name),
        is_name(value),
    ensures
        parse_text(export_word() + seq![' '] + (name + seq!['='] + value)) == parse_text(
            name + seq!['='] + value,
        ),
{
    let text = name + seq!['='] + value;
    let n = name.len() as int;
    assert(text.subrange(0, n) =~= name);
    lemma_word_lexeme(text, 0, 0, n);
    lemma_plain_assignment(name, value);
    lemma_export_prefix(text);
}

/// `content` written so that it can stand between two `quote`s: a
/// backslash is put before every `quote` in it.
pub open spec fn escape(content: Seq<char>, quote: char) -> Seq<char>
    decreases content.len(),
{
    if content.len() == 0 {
        Seq::empty()
    } else if content[0] == quote {
        seq!['\\', quote] + escape(content.skip(1), quote)
    } else {
        seq![content[0]] + escape(content.skip(1), quote)
    }
}

/// Whether no backslash in `content` stands before an `n`, where the two
/// would be read as a line break.
pub open spec fn is_free_of_line_escapes(content: Seq<char>) -> bool {
    forall|i: int|
        0 <= i < content.len() - 1 ==> !(#[trigger] content[i] == '\\' && content[i + 1] == 'n')
}

/// Whether `content` can be written between quotes and read back: it holds
/// no escaped line break, and no backslash at its end, where it would
/// escape the closing quote.
pub open spec fn quotable(content: Seq<char>) -> bool {
    &&& is_free_of_line_escapes(content)
    &&& content.len() > 0 ==> content.last() != '\\'
}

/// In escaped content every `quote` has a backslash before it, and the
/// result starts and ends as `content` does.
pub proof fn lemma_escape_shape(content: Seq<char>, quote: char)
    requires
        quote != '\\',
    ensures
        escape(content, quote).len() >= content.len(),
        forall|i: int|
            0 <= i < escape(content, quote).len() && #[trigger] escape(content, quote)[i] == quote
                ==> i > 0 && escape(content, quote)[i - 1] == '\\',
        content.len() > 0 ==> escape(content, quote).last() == content.last(),
        content.len() > 0 ==> escape(content, quote)[0] == (if content[0] == quote {
            '\\'
        } else {
            content[0]
        }),
    decreases content.len(),
{
    if content.len() > 0 {
        let rest = content.skip(1);
        lemma_escape_shape(rest, quote);
        let escaped = escape(content, quote);
        let tail = escape(rest, quote);
        let added = escaped.len() - tail.len();
        assert forall|i: int| 0 <= i < escaped.len() && #[trigger] escaped[i] == quote implies i > 0
            && escaped[i - 1] == '\\' by {
            if i >= added {
                assert(escaped[i] == tail[i - added]);
                if i > added {
                    assert(escaped[i - 1] == tail[i - added - 1]);
                }
            }
        }
        if rest.len() > 0 {
            assert(rest.last() == content.last());
            assert(escaped.last() == tail.last());
        }
    }
}

/// Resolving the escapes of escaped content gives the content back.
pub proof fn lemma_unescape_escape(content: Seq<char>, quote: char)
    requires
        quote != '\\',
        is_free_of_line_escapes(content),
    ensures
        unescape(escape(content, quote), quote) == content,
    decreases content.len(),
{
    if content.len() > 0 {
        let rest = content.skip(1);
        assert forall|i: int| 0 <= i < rest.len() - 1 implies !(#[trigger] rest[i] == '\\' && rest[i
            + 1] == 'n') by {
            assert(rest[i] == content[i + 1]);
            assert(!(content[i + 1] == '\\' && content[i + 2] == 'n'));
        }
        lemma_unescape_escape(rest, quote);
        lemma_escape_shape(rest, quote);
        let escaped = escape(content, quote);
        let tail = escape(rest, quote);
        if content[0] == quote {
            assert(escaped.skip(2) =~= tail);
            assert(content =~= seq![quote] + rest);
        } else {
            assert(escaped.skip(1) =~= tail);
            if content[0] == '\\' && escaped.len() > 1 {
                assert(escaped[1] == tail[0]);
                assert(rest[0] == content[1]);
                assert(!(content[0] == '\\' && content[1] == 'n'));
            }
            assert(content =~= seq![content[0]] + rest);
        }
    }
}

/// Round trip: a value written between quotes, with the quotes in it
/// escaped, is read back unchanged.
pub proof fn lemma_quoted_round_trip(name: Seq<char>, quote: char, value: Seq<char>)
    requires
        is_name(name),
        is_quote(quote),
        quotable(value),
    ensures
        parse_text(name + seq!['='] + (seq![quote] + escape(value, quote) + seq![quote])) == Ok::<
            Map<Seq<char>, Seq<char>>,
            nat,
        >(single(name, value)),
{
    let escaped = escape(value, quote);
    let quoted = seq![quote] + escaped + seq![quote];
    let close = escaped.len() as int + 1;
    lemma_escape_shape(value, quote);
    lemma_unescape_escape(value, quote);
    assert(quoted.subrange(0, close + 1) =~= quoted);
    assert(quoted.subrange(1, quoted.len() - 1) =~= escaped);
    lemma_name_and_sign(name, quoted);
    lemma_quoted_lexeme(quoted, 0, 0, close);
    assert(run(quoted, close + 1, StateView::LineEnd, single(name, value)) == Ok::<
        Map<Seq<char>, Seq<char>>,
        int,
    >(single(name, value)));
}

/// A comment behind an assignment changes nothing: `name=value # comment`
/// maps `name` to `value`.
pub proof fn lemma_trailing_comment(name: Seq<char>, value: Seq<char>, comment: Seq<char>)
    requires
        is_name(name),
        is_name(value),
        is_one_line(comment),
    ensures
        parse_text(name + seq!['='] + (value + (seq![' ', '#'] + comment))) == Ok::<
            Map<Seq<char>, Seq<char>>,
            nat,
        >(single(name, value)),
{
    let rest = seq![' ', '#'] + comment;
    lemma_name_and_sign(name, value + rest);
    lemma_value_and_rest(name, value, rest);
    lemma_skip_comment(rest, 0, 1, rest.len() as int);
}

/// A text that is nothing but a comment has no entries.
pub proof fn lemma_comment_only(comment: Seq<char>)
    requires
        is_one_line(comment),
    ensures
        parse_text(seq!['#'] + comment) == Ok::<Map<Seq<char>, Seq<char>>, nat>(Map::empty()),
{
    let text = seq!['#'] + comment;
    lemma_skip_comment(text, 0, 0, text.len() as int);
}

/// What a text means whose first part means `first` and whose rest, which
/// starts `offset` bytes into the text, means `second`: the entries of both,
/// those of the rest over those of the first part, or the first error.
pub open spec fn in_sequence(
    first: Result<Map<Seq<char>, Seq<char>>, nat>,
    second: Result<Map<Seq<char>, Seq<char>>, nat>,
    offset: nat,
) -> Result<Map<Seq<char>, Seq<char>>, nat> {
    match first {
        Ok(entries) => match second {
            Ok(later) => Ok(entries.union_prefer_right(later)),
            Err(at) => Err(offset + at),
        },
        Err(at) => Err(at),
    }
}

/// Lines are read one by one: a text means what its first line means,
/// followed by what the rest means, and an entry of the rest replaces an
/// entry of the line under the same name. A line that fails must hold no
/// quote for this, since a value that opens in it may close further down.
pub proof fn lemma_line_then_rest(line: Seq<char>, rest: Seq<char>)
    requires
        is_one_line(line),
        parse_text(line) is Ok || is_unquoted(line),
    ensures
        parse_text(line + seq!['\n'] + rest) == in_sequence(
            parse_text(line),
            parse_text(rest),
            encode_utf8(line).len() + 1,
        ),
{
    let tail = seq!['\n'] + rest;
    let head = line + seq!['\n'];
    let text = line + seq!['\n'] + rest;
    let empty = Map::<Seq<char>, Seq<char>>::empty();
    assert(text =~= line + tail);
    lemma_run_in_line(line, tail, 0, StateView::Start, empty);
    match run(line, 0, StateView::Start, empty) {
        Ok(entries) => {
            lemma_run_shift(head, rest, 0, StateView::Start, entries);
            assert(entries.union_prefer_right(empty) =~= entries);
            lemma_run_over_base(rest, 0, StateView::Start, entries, empty);
            if let Err(at) = run(rest, 0, StateView::Start, empty) {
                lemma_error_in_text(rest, 0, StateView::Start, empty);
                lemma_byte_offset_shift(head, rest, at);
                lemma_encode_concat(line, seq!['\n']);
                lemma_ascii_length(seq!['\n']);
            }
        },
        Err(at) => {
            lemma_error_in_text(line, 0, StateView::Start, empty);
            assert(text.take(at) =~= line.take(at));
        },
    }
}

/// A line that holds only a comment contributes nothing: where the lines
/// after it are well formed, the text means what they mean.
pub proof fn lemma_comment_line(comment: Seq<char>, rest: Seq<char>)
    requires
        is_one_line(comment),
        parse_text(rest) is Ok,
    ensures
        parse_text(seq!['#'] + comment + seq!['\n'] + rest) == parse_text(rest),
{
    let line = seq!['#'] + comment;
    lemma_comment_only(comment);
    lemma_line_then_rest(line, rest);
    assert(Map::<Seq<char>, Seq<char>>::empty().union_prefer_right(parse_text(rest)->Ok_0)
        =~= parse_text(rest)->Ok_0);
}

/// Of two assignments to one name on two lines the later one stays:
/// `name=first`, a line break and `name=second` map `name` to `second`.
pub proof fn lemma_later_assignment_wins(name: Seq<char>, first: Seq<char>, second: Seq<char>)
    requires
        is_name(name),
        is_name(first),
        is_name(second),
    ensures
        parse_text(name + seq!['='] + first + seq!['\n'] + (name + seq!['='] + second)) == Ok::<
            Map<Seq<char>, Seq<char>>,
            nat,
        >(single(name, second)),
{
    let line = name + seq!['='] + first;
    lemma_plain_assignment(name, first);
    lemma_plain_assignment(name, second);
    lemma_line_then_rest(line, name + seq!['='] + second);
    assert(single(name, first).union_prefer_right(single(name, second)) =~= single(name, second));
}

/// A second `=` in an assignment is rejected where it stands, whatever
/// follows it.
pub proof fn lemma_second_equals_rejected(name: Seq<char>, value: Seq<char>, rest: Seq<char>)
    requires
        is_name(name),
        is_name(value),
    ensures
        parse_text(name + seq!['='] + (value + (seq!['='] + rest))) == Err::<
            Map<Seq<char>, Seq<char>>,
            nat,
        >(
            byte_offset(
                name + seq!['='] + (value + (seq!['='] + rest)),
                (name.len() + 1 + value.len()) as int,
            ),
        ),
{
    let tail = seq!['='] + rest;
    lemma_name_and_sign(name, value + tail);
    lemma_value_and_rest(name, value, tail);
}

/// A name cannot hold a blank: a word, a blank and another word are two
/// tokens, and the second is rejected where it starts.
pub proof fn lemma_blank_in_name_rejected(name: Seq<char>, rest: Seq<char>)
    requires
        is_name(name),
        rest.len() > 0,
        is_word_char(rest[0]),
    ensures
        parse_text(name + seq![' '] + rest) == Err::<Map<Seq<char>, Seq<char>>, nat>(
            byte_offset(name + seq![' '] + rest, name.len() as int + 1),
        ),
{
    let text = name + seq![' '] + rest;
    let n = name.len() as int;
    let empty = Map::<Seq<char>, Seq<char>>::empty();
    assert(text.subrange(0, n) =~= name);
    lemma_word_lexeme(text, 0, 0, n);
    lemma_skip_blank_is(text, n, n + 1);
    assert(run(text, n, StateView::Key(name), empty) == Err::<Map<Seq<char>, Seq<char>>, int>(
        n + 1,
    ));
}

/// Whether nothing in `body` closes a value that `quote` opened just before
/// it: every `quote` in it has a backslash before it.
pub open spec fn is_unclosed(body: Seq<char>, quote: char) -> bool {
    forall|i: int|
        0 <= i < body.len() && #[trigger] body[i] == quote ==> i > 0 && body[i - 1] == '\\'
}

/// A quoted value that nothing closes is rejected at its opening quote.
pub proof fn lemma_unterminated_quote_rejected(name: Seq<char>, quote: char, body: Seq<char>)
    requires
        is_name(name),
        is_quote(quote),
        is_unclosed(body, quote),
    ensures
        parse_text(name + seq!['='] + (seq![quote] + body)) == Err::<
            Map<Seq<char>, Seq<char>>,
            nat,
        >(byte_offset(name + seq!['='] + (seq![quote] + body), name.len() as int + 1)),
{
    let rest = seq![quote] + body;
    lemma_name_and_sign(name, rest);
    lemma_open_quote_lexeme(rest, 0, 0);
}

/// Texts that are all well formed are well formed together.
pub proof fn lemma_all_well_formed(texts: Seq<Seq<char>>)
    requires
        forall|j: int| 0 <= j < texts.len() ==> parse_text(#[trigger] texts[j]) is Ok,
    ensures
        parse_texts(texts) is Ok,
    decreases texts.len(),
{
    if texts.len() > 0 {
        let front = texts.drop_last();
        lemma_all_well_formed(front);
    }
}

/// The first text that fails decides: the texts fail together with its
/// error, whatever the texts after it hold.
pub proof fn lemma_first_failure_decides(texts: Seq<Seq<char>>, i: int)
    requires
        0 <= i < texts.len(),
        parse_text(texts[i]) is Err,
        forall|j: int| 0 <= j < i ==> parse_text(#[trigger] texts[j]) is Ok,
    ensures
        parse_texts(texts) == Err::<Map<Seq<char>, Seq<char>>, nat>(parse_text(texts[i])->Err_0),
    decreases texts.len(),
{
    let front = texts.drop_last();
    if i == texts.len() - 1 {
        lemma_all_well_formed(front);
    } else {
        lemma_first_failure_decides(front, i);
    }
}

/// Merge override: a name has the value that the last text defining it
/// gives it.
pub proof fn lemma_later_source_wins(texts: Seq<Seq<char>>, i: int, name: Seq<char>)
    requires
        0 <= i < texts.len(),
        parse_texts(texts) is Ok,
        parse_text(texts[i]) is Ok,
        parse_text(texts[i])->Ok_0.contains_key(name),
        forall|j: int|
            i < j < texts.len() && parse_text(#[trigger] texts[j]) is Ok ==> !parse_text(
                texts[j],
            )->Ok_0.contains_key(name),
    ensures
        parse_texts(texts)->Ok_0.contains_key(name),
        parse_texts(texts)->Ok_0[name] == parse_text(texts[i])->Ok_0[name],
    decreases texts.len(),
{
    let front = texts.drop_last();
    if i < texts.len() - 1 {
        lemma_later_source_wins(front, i, name);
    }
}

/// Texts that are well formed together are each well formed, and a name is
/// defined by them together exactly if one of them defines it.
pub proof fn lemma_merged_names(texts: Seq<Seq<char>>, name: Seq<char>)
    requires
        parse_texts(texts) is Ok,
    ensures
        forall|i: int| 0 <= i < texts.len() ==> parse_text(#[trigger] texts[i]) is Ok,
        parse_texts(texts)->Ok_0.contains_key(name) <==> exists|i: int|
            0 <= i < texts.len() && (#[trigger] parse_text(texts[i]))->Ok_0.contains_key(name),
    decreases texts.len(),
{
    if texts.len() > 0 {
        let front = texts.drop_last();
        lemma_merged_names(front, name);
        let last = texts.len() - 1;
        assert(parse_text(texts[last]) is Ok);
        assert forall|i: int| 0 <= i < texts.len() implies parse_text(#[trigger] texts[i]) is Ok by {
            if i < last {
                assert(front[i] == texts[i]);
            }
        }
        if parse_texts(texts)->Ok_0.contains_key(name) && !parse_text(
            texts[last],
        )->Ok_0.contains_key(name) {
            let i = choose|i: int|
                0 <= i < front.len() && (#[trigger] parse_text(front[i]))->Ok_0.contains_key(name);
            assert(front[i] == texts[i]);
            assert(parse_text(texts[i])->Ok_0.contains_key(name));
        }
        if exists|i: int|
            0 <= i < texts.len() && (#[trigger] parse_text(texts[i]))->Ok_0.contains_key(name) {
            let i = choose|i: int|
                0 <= i < texts.len() && (#[trigger] parse_text(texts[i]))->Ok_0.contains_key(name);
            if i < last {
                assert(front[i] == texts[i]);
                assert(parse_text(front[i])->Ok_0.contains_key(name));
            }
        }
    }
}

/// Whether `entries` are finitely many and each stands under a name: see
/// [`is_name`].
pub open spec fn names_only(entries: Map<Seq<char>, Seq<char>>) -> bool {
    &&& entries.dom().finite()
    &&& forall|name: Seq<char>| #[trigger] entries.contains_key(name) ==> is_name(name)
}

/// Whether the name that `state` holds, if it holds one, is a name.
pub open spec fn holds_name(state: StateView) -> bool {
    match state {
        StateView::Key(name) => is_name(name),
        StateView::Assigned(name) => is_name(name),
        _ => true,
    }
}

/// A run that starts with names only ends with names only.
pub proof fn lemma_run_keeps_names(
    text: Seq<char>,
    pos: int,
    state: StateView,
    entries: Map<Seq<char>, Seq<char>>,
)
    requires
        names_only(entries),
        holds_name(state),
    ensures
        run(text, pos, state, entries) matches Ok(collected) ==> names_only(collected),
    decreases text.len() - pos,
{
    lemma_lexeme_span(text, pos);
    lemma_ident_is_name(text, pos);
    let lexeme = next_lexeme(text, pos);
    match step(state, entries, lexeme.token) {
        Step::Continue(next, collected) => {
            if lexeme.token !is EOF {
                lemma_run_keeps_names(text, lexeme.end, next, collected);
            }
        },
        _ => {},
    }
}

/// The entries of an env file are finitely many, and every name among them
/// is a word of the text: not empty, without white space or delimiter, and
/// not the keyword.
pub proof fn lemma_names_are_words(text: Seq<char>)
    ensures
        parse_text(text) matches Ok(entries) ==> names_only(entries),
{
    lemma_run_keeps_names(text, 0, StateView::Start, Map::empty());
}

/// Parsing is a function of the text: two results of parsing one text are
/// the same mapping or the same error, and mappings that are the same
/// compare equal.
pub proof fn lemma_parse_deterministic(
    text: Seq<char>,
    first: Result<EnvMap, ParseError>,
    second: Result<EnvMap, ParseError>,
)
    requires
        yields(first, parse_text(text)),
        yields(second, parse_text(text)),
    ensures
        first is Ok <==> second is Ok,
        first is Ok ==> first->Ok_0@ == second->Ok_0@ && first->Ok_0.eq_spec(&second->Ok_0),
        first is Err ==> first->Err_0 == second->Err_0,
{
}

} // verus!

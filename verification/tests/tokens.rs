use env_file_reader::chars::{blank_char, quote_char, space_char, word_char};
use env_file_reader::lexer::{remove_quotes, Lexer};
use env_file_reader::text::{char_width, collect_chars};
use env_file_reader::{ParseError, Token};

fn tokens(text: &str) -> Vec<Result<(usize, Token, usize), ParseError>> {
    let mut lexer = Lexer::new(text);
    let mut found = Vec::new();
    while let Some(item) = lexer.next() {
        found.push(item);
    }
    found
}

fn ident(text: &str) -> Token {
    Token::Ident(text.to_owned())
}

fn quoted(text: &str) -> Token {
    Token::QuotedString(text.to_owned())
}

fn unquoted(slice: &str) -> String {
    remove_quotes(&collect_chars(slice))
}

#[test]
fn tokens_of_an_assignment() {
    assert_eq!(
        tokens("key=value"),
        vec![Ok((0, ident("key"), 3)), Ok((3, Token::Eq, 4)), Ok((4, ident("value"), 9)), Ok((9, Token::EOF, 9))]
    );
}

#[test]
fn end_is_reported_once() {
    let mut lexer = Lexer::new("");
    assert!(!lexer.finished());
    assert_eq!(lexer.next(), Some(Ok((0, Token::EOF, 0))));
    assert!(lexer.finished());
    assert_eq!(lexer.next(), None);
    assert_eq!(lexer.next(), None);
    assert!(lexer.finished());

    let mut lexer = Lexer::new("a  ");
    assert_eq!(lexer.offset(), 0);
    assert_eq!(lexer.next(), Some(Ok((0, ident("a"), 1))));
    assert_eq!(lexer.offset(), 1);
    assert_eq!(lexer.next(), Some(Ok((3, Token::EOF, 3))));
    assert_eq!(lexer.offset(), 3);
    assert_eq!(lexer.next(), None);
}

#[test]
fn export_is_recognised_as_a_whole_word() {
    assert_eq!(
        tokens("export exported export= ex"),
        vec![
            Ok((0, Token::Export, 6)),
            Ok((7, ident("exported"), 15)),
            Ok((16, Token::Export, 22)),
            Ok((22, Token::Eq, 23)),
            Ok((24, ident("ex"), 26)),
            Ok((26, Token::EOF, 26)),
        ]
    );
    assert_eq!(tokens("Export")[0], Ok((0, ident("Export"), 6)));
    assert_eq!(tokens("export'x'")[0], Ok((0, Token::Export, 6)));
}

#[test]
fn line_break_takes_the_white_space_behind_it() {
    assert_eq!(
        tokens("a \n \n\t b"),
        vec![Ok((0, ident("a"), 1)), Ok((2, Token::NewLine, 7)), Ok((7, ident("b"), 8)), Ok((8, Token::EOF, 8))]
    );
    assert_eq!(
        tokens("\n# c\n"),
        vec![Ok((0, Token::NewLine, 1)), Ok((4, Token::NewLine, 5)), Ok((5, Token::EOF, 5))]
    );
    assert_eq!(tokens("\r\n"), vec![Ok((1, Token::NewLine, 2)), Ok((2, Token::EOF, 2))]);
}

#[test]
fn comment_runs_to_the_end_of_the_line() {
    assert_eq!(
        tokens("a#b=c 'd'\n=#"),
        vec![Ok((0, ident("a"), 1)), Ok((9, Token::NewLine, 10)), Ok((10, Token::Eq, 11)), Ok((12, Token::EOF, 12))]
    );
}

#[test]
fn quoted_values() {
    assert_eq!(
        tokens("'a b' \"c\\\"d\" `e\\n`"),
        vec![
            Ok((0, quoted("a b"), 5)),
            Ok((6, quoted("c\"d"), 12)),
            Ok((13, quoted("e\n"), 18)),
            Ok((18, Token::EOF, 18)),
        ]
    );
    assert_eq!(tokens("''")[0], Ok((0, quoted(""), 2)));
    assert_eq!(tokens("'\u{e9}'x")[0], Ok((0, quoted("\u{e9}"), 4)));
    assert_eq!(tokens("'\u{e9}'x")[1], Ok((4, ident("x"), 5)));
}

#[test]
fn unterminated_quote_is_no_token() {
    assert_eq!(tokens("a 'bc"), vec![Ok((0, ident("a"), 1)), Err(ParseError { offset: 2 }), Ok((5, Token::EOF, 5))]);
    assert_eq!(tokens("'"), vec![Err(ParseError { offset: 0 }), Ok((1, Token::EOF, 1))]);
    assert_eq!(tokens("\"a\\\""), vec![Err(ParseError { offset: 0 }), Ok((4, Token::EOF, 4))]);
    assert_eq!(tokens("'a\" `"), vec![Err(ParseError { offset: 0 }), Ok((5, Token::EOF, 5))]);
}

#[test]
fn spans_are_byte_offsets() {
    assert_eq!(
        tokens("\u{1F984}=\u{20AC}\u{e9}\n"),
        vec![
            Ok((0, ident("\u{1F984}"), 4)),
            Ok((4, Token::Eq, 5)),
            Ok((5, ident("\u{20AC}\u{e9}"), 10)),
            Ok((10, Token::NewLine, 11)),
            Ok((11, Token::EOF, 11)),
        ]
    );
    assert_eq!(tokens("\u{a0}\u{2003}a"), vec![Ok((5, ident("a"), 6)), Ok((6, Token::EOF, 6))]);
}

#[test]
fn remove_quotes_resolves_escapes() {
    assert_eq!(unquoted("'a \\'quoted\\' word'"), "a 'quoted' word");
    assert_eq!(unquoted("\"line1\\nline2\""), "line1\nline2");
    assert_eq!(unquoted("`x`"), "x");
    assert_eq!(unquoted("'\\\"'"), "\\\"");
    assert_eq!(unquoted("\"\\\\n\""), "\\\n");
    assert_eq!(unquoted("'a\\'"), "a\\");
    assert_eq!(unquoted("'\\n\\'\\n'"), "\n'\n");
}

#[test]
fn remove_quotes_of_short_slices() {
    assert_eq!(unquoted(""), "");
    assert_eq!(unquoted("'"), "");
    assert_eq!(unquoted("''"), "");
    assert_eq!(unquoted("ab"), "");
    assert_eq!(unquoted("'a'"), "a");
    assert_eq!(unquoted("xay"), "a");
}

#[test]
fn character_classes() {
    for c in [' ', '\t', '\n', '\r', '\u{b}', '\u{c}', '\u{85}', '\u{a0}', '\u{1680}', '\u{2000}', '\u{200a}', '\u{2028}', '\u{2029}', '\u{202f}', '\u{205f}', '\u{3000}'] {
        assert!(space_char(c));
        assert!(c.is_whitespace());
        assert!(!word_char(c));
        assert_eq!(blank_char(c), c != '\n');
    }
    for c in ['a', 'Z', '0', '-', '_', '\\', '.', '/', '\u{8}', '\u{e}', '\u{1f}', '\u{21}', '\u{84}', '\u{86}', '\u{9f}', '\u{a1}', '\u{180e}', '\u{1fff}', '\u{200b}', '\u{2027}', '\u{202a}', '\u{3001}', '\u{feff}', '\u{1F984}'] {
        assert!(!space_char(c));
        assert!(!c.is_whitespace());
        assert!(!blank_char(c));
        assert!(word_char(c));
        assert!(!quote_char(c));
    }
    for c in ['\'', '"', '`'] {
        assert!(quote_char(c));
        assert!(!word_char(c));
        assert!(!space_char(c));
    }
    for c in ['=', '#'] {
        assert!(!quote_char(c));
        assert!(!word_char(c));
        assert!(!space_char(c));
    }
}

#[test]
fn space_char_agrees_with_std_on_every_char() {
    let mut code: u32 = 0;
    while code <= 0x10FFFF {
        if let Some(c) = char::from_u32(code) {
            assert_eq!(space_char(c), c.is_whitespace());
            assert_eq!(char_width(c), c.len_utf8());
        }
        code += 1;
    }
}

#[test]
fn widths_and_chars() {
    assert_eq!(char_width('a'), 1);
    assert_eq!(char_width('\u{7f}'), 1);
    assert_eq!(char_width('\u{80}'), 2);
    assert_eq!(char_width('\u{7ff}'), 2);
    assert_eq!(char_width('\u{800}'), 3);
    assert_eq!(char_width('\u{ffff}'), 3);
    assert_eq!(char_width('\u{10000}'), 4);
    assert_eq!(char_width('\u{10ffff}'), 4);
    assert_eq!(collect_chars("a\u{e9}\u{1F984}"), vec!['a', '\u{e9}', '\u{1F984}']);
    assert_eq!(collect_chars(""), Vec::<char>::new());
}

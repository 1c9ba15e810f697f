use env_file_reader::{read_files, read_str, EnvMap, ParseError};

fn value<'a>(map: &'a EnvMap, key: &str) -> &'a str {
    map.get(key).unwrap().as_str()
}

/// The texts that stand for the two example files.
fn source(path: &str) -> String {
    match path {
        "examples/env_file1" => [
            "A=C",
            "B=C # a trailing comment",
            "",
            "SOME_LONGER_NAME=\"hello I can do long texts too, with whitespaces!\"",
            "export EXPORT=WORKS",
            "LINE_BREAK=\\",
            "",
            "# names differ by case",
            "FOO=bar",
            "Foo=baz",
            "foo=qux",
            "this-variable-name=is-ok",
            "123_this-too=true",
            "",
        ]
        .join("\n"),
        "examples/env_file2" => {
            ["I_WILL_BE_APPENDED='I will be appended'", "NUM=0", "A=D", ""].join("\n")
        }
        _ => panic!("no such source: {}", path),
    }
}

#[test]
fn wrong_idents() {
    let s = "key_with#=x";
    assert!(read_str(s).is_err());

    let s = "key_with`quotes`=x";
    assert!(read_str(s).is_err());

    let s = "key_with=do-not-work=x";
    assert!(read_str(s).is_err());

    let s = "key with whitespace=x";
    assert!(read_str(s).is_err());
}

#[test]
fn comments() {
    let s = "
      # a comment
      key=val # a comment at the end of the line
    ";

    let m = read_str(s).unwrap();

    assert_eq!(value(&m, "key"), "val");
}

#[test]
fn empty_value() {
    let s = "
      key1=
      key2=something
      key3=";

    let m = read_str(s).unwrap();

    assert_eq!(value(&m, "key1"), "");
    assert_eq!(value(&m, "key2"), "something");
    assert_eq!(value(&m, "key3"), "");
}

#[test]
fn empty_string() {
    let m = read_str("").unwrap();
    assert_eq!(m.len(), 0);
}

#[test]
fn test_read_file() {
    let map = read_str(&source("examples/env_file1")).unwrap();

    assert_eq!(map.get("A"), Some(&"C".to_owned()));
    assert_eq!(map.get("B"), Some(&"C".to_owned()));

    assert_eq!(
        map.get("SOME_LONGER_NAME"),
        Some(&"hello I can do long texts too, with whitespaces!".to_owned())
    );

    assert_eq!(map.get("EXPORT"), Some(&"WORKS".to_owned()));

    assert_eq!(map.get("LINE_BREAK"), Some(&"\\".to_owned()));

    assert_eq!(map.get("FOO"), Some(&"bar".to_owned()));
    assert_eq!(map.get("Foo"), Some(&"baz".to_owned()));
    assert_eq!(map.get("foo"), Some(&"qux".to_owned()));

    assert_eq!(map.get("this-variable-name"), Some(&"is-ok".to_owned()),);
    assert_eq!(map.get("123_this-too"), Some(&"true".to_owned()));
}

#[test]
fn test_read_files() {
    let files = vec!["examples/env_file1", "examples/env_file2"];
    let texts: Vec<String> = files.iter().map(|path| source(path)).collect();
    let map = read_files(&texts).unwrap();

    assert_eq!(
        map.get("I_WILL_BE_APPENDED"),
        Some(&"I will be appended".to_owned())
    );

    assert_eq!(map.get("NUM"), Some(&"0".to_owned()));

    assert_eq!(map.get("A"), Some(&"D".to_owned()));
}

#[test]
fn plain_assignment_maps_key_to_value() {
    let m = read_str("key=value").unwrap();
    assert_eq!(m.len(), 1);
    assert_eq!(value(&m, "key"), "value");

    let m = read_str("this-variable-name=is-ok").unwrap();
    assert_eq!(value(&m, "this-variable-name"), "is-ok");

    let m = read_str("\u{1F984}=\u{1F496}\n\u{1F496}=\u{1F984}").unwrap();
    assert_eq!(value(&m, "\u{1F984}"), "\u{1F496}");
    assert_eq!(value(&m, "\u{1F496}"), "\u{1F984}");
}

#[test]
fn missing_value_is_empty() {
    let m = read_str("key=").unwrap();
    assert_eq!(m.len(), 1);
    assert_eq!(value(&m, "key"), "");

    let m = read_str("key=   \nother=1").unwrap();
    assert_eq!(value(&m, "key"), "");
    assert_eq!(value(&m, "other"), "1");
}

#[test]
fn export_is_inert() {
    let with = read_str("export key=value").unwrap();
    let without = read_str("key=value").unwrap();
    assert_eq!(with, without);
    assert_eq!(value(&with, "key"), "value");

    let m = read_str("export   A=1\nexport B='two words'\nC=3").unwrap();
    assert_eq!(value(&m, "A"), "1");
    assert_eq!(value(&m, "B"), "two words");
    assert_eq!(value(&m, "C"), "3");
}

#[test]
fn export_is_a_keyword_only_as_a_whole_word() {
    let m = read_str("exported=1\nexport-path=2\nEXPORT=3").unwrap();
    assert_eq!(value(&m, "exported"), "1");
    assert_eq!(value(&m, "export-path"), "2");
    assert_eq!(value(&m, "EXPORT"), "3");

    assert_eq!(read_str("export=1"), Err(ParseError { offset: 6 }));
    assert_eq!(read_str("key=export"), Err(ParseError { offset: 4 }));
    assert_eq!(read_str("export export key=1"), Err(ParseError { offset: 7 }));
    assert_eq!(read_str("export"), Err(ParseError { offset: 6 }));
    assert_eq!(read_str("export\nkey=1"), Err(ParseError { offset: 6 }));
}

#[test]
fn quoted_values_keep_white_space_and_escaped_quotes() {
    let m = read_str("key='a \\'quoted\\' word'").unwrap();
    assert_eq!(value(&m, "key"), "a 'quoted' word");

    let m = read_str("key=\"line1\\nline2\"").unwrap();
    assert_eq!(value(&m, "key"), "line1\nline2");

    let m = read_str("key=`a \\`b\\` c`").unwrap();
    assert_eq!(value(&m, "key"), "a `b` c");

    let m = read_str("key=\"say \\\"hi\\\"\"").unwrap();
    assert_eq!(value(&m, "key"), "say \"hi\"");
}

#[test]
fn quotes_of_another_kind_are_literal() {
    let m = read_str("a=\"it's\"\nb='say \"hi\"'\nc=`'\"`").unwrap();
    assert_eq!(value(&m, "a"), "it's");
    assert_eq!(value(&m, "b"), "say \"hi\"");
    assert_eq!(value(&m, "c"), "'\"");

    let m = read_str("a='\\\"'").unwrap();
    assert_eq!(value(&m, "a"), "\\\"");
}

#[test]
fn empty_quotes_are_the_empty_string() {
    let m = read_str("a=''\nb=\"\"\nc=``").unwrap();
    assert_eq!(m.len(), 3);
    assert_eq!(value(&m, "a"), "");
    assert_eq!(value(&m, "b"), "");
    assert_eq!(value(&m, "c"), "");
}

#[test]
fn quoted_values_may_span_lines_and_hold_delimiters() {
    let m = read_str("a='one\ntwo'\nb=\"x=y # not a comment\"").unwrap();
    assert_eq!(value(&m, "a"), "one\ntwo");
    assert_eq!(value(&m, "b"), "x=y # not a comment");
}

#[test]
fn backslash_without_a_partner_is_literal() {
    let m = read_str("a='c:\\dir'\nb=\"\\\\n\"").unwrap();
    assert_eq!(value(&m, "a"), "c:\\dir");
    assert_eq!(value(&m, "b"), "\\\n");

    let m = read_str("LINE_BREAK=\\").unwrap();
    assert_eq!(value(&m, "LINE_BREAK"), "\\");
}

fn wrap(content: &str, quote: char) -> String {
    let mut text = String::from("key=");
    text.push(quote);
    for c in content.chars() {
        if c == quote {
            text.push('\\');
        }
        text.push(c);
    }
    text.push(quote);
    text
}

#[test]
fn quoted_round_trip() {
    let contents = [
        "",
        "plain",
        "with white space\tand\nline breaks",
        "it's `all` \"quotes\"",
        "'",
        "''",
        "\\'",
        "a # b = c",
        "back\\slash",
        "\u{1F984} \u{e9}",
    ];
    for content in contents {
        for quote in ['\'', '"', '`'] {
            let m = read_str(&wrap(content, quote)).unwrap();
            assert_eq!(value(&m, "key"), content);
            assert_eq!(m.len(), 1);
        }
    }
}

#[test]
fn round_trip_fails_on_backslash_n_and_on_a_final_backslash() {
    let m = read_str(&wrap("a\\nb", '\'')).unwrap();
    assert_eq!(value(&m, "key"), "a\nb");

    assert_eq!(read_str(&wrap("a\\", '\'')), Err(ParseError { offset: 4 }));
}

#[test]
fn comments_are_elided() {
    let m = read_str("key=val # trailing comment").unwrap();
    assert_eq!(m.len(), 1);
    assert_eq!(value(&m, "key"), "val");

    let m = read_str("# only a comment").unwrap();
    assert_eq!(m.len(), 0);

    let m = read_str("# one\n#two\n\n   # three\nkey=val#four\n# five").unwrap();
    assert_eq!(m.len(), 1);
    assert_eq!(value(&m, "key"), "val");

    let m = read_str("key= # no value\nother=1").unwrap();
    assert_eq!(value(&m, "key"), "");
    assert_eq!(value(&m, "other"), "1");
}

#[test]
fn later_source_overrides() {
    let m = read_files(&["a=1".to_owned(), "a=2".to_owned()]).unwrap();
    assert_eq!(m.len(), 1);
    assert_eq!(value(&m, "a"), "2");

    let m = read_files(&["a=1\nb=1".to_owned(), "b=2\nc=2".to_owned(), "c=3".to_owned()]).unwrap();
    assert_eq!(m.len(), 3);
    assert_eq!(value(&m, "a"), "1");
    assert_eq!(value(&m, "b"), "2");
    assert_eq!(value(&m, "c"), "3");
}

#[test]
fn later_assignment_overrides() {
    let m = read_str("a=1\na=2").unwrap();
    assert_eq!(m.len(), 1);
    assert_eq!(value(&m, "a"), "2");

    let m = read_str("a=1\nb=x\na=\nb='y'").unwrap();
    assert_eq!(m.len(), 2);
    assert_eq!(value(&m, "a"), "");
    assert_eq!(value(&m, "b"), "y");
}

#[test]
fn no_sources_give_the_empty_mapping() {
    let none: Vec<String> = Vec::new();
    let m = read_files(&none).unwrap();
    assert!(m.is_empty());
    assert_eq!(m.len(), 0);
}

#[test]
fn first_failing_source_ends_the_merge() {
    let sources = ["a=1".to_owned(), "b".to_owned(), "c=3".to_owned(), "'".to_owned()];
    assert_eq!(read_files(&sources), Err(ParseError { offset: 1 }));

    let sources = ["a=1".to_owned(), "   x='".to_owned(), "b".to_owned()];
    assert_eq!(read_files(&sources), Err(ParseError { offset: 5 }));
}

#[test]
fn malformed_input_fails() {
    assert_eq!(read_str("key=do-not-work=x"), Err(ParseError { offset: 15 }));
    assert_eq!(read_str("key with space=x"), Err(ParseError { offset: 4 }));
    assert_eq!(read_str("key='unterminated"), Err(ParseError { offset: 4 }));
    assert_eq!(read_str("key=\"unterminated\\\""), Err(ParseError { offset: 4 }));
    assert_eq!(read_str("key=`unterminated'"), Err(ParseError { offset: 4 }));
    assert_eq!(read_str("a=1\nkey='x"), Err(ParseError { offset: 8 }));
}

#[test]
fn a_name_without_equals_is_rejected() {
    assert_eq!(read_str("key"), Err(ParseError { offset: 3 }));
    assert_eq!(read_str("key\nother=1"), Err(ParseError { offset: 3 }));
    assert_eq!(read_str("a=1\nkey"), Err(ParseError { offset: 7 }));
    assert_eq!(read_str("badly formatted env file"), Err(ParseError { offset: 6 }));
}

#[test]
fn one_assignment_per_line() {
    assert_eq!(read_str("a=1 b=2"), Err(ParseError { offset: 4 }));
    assert_eq!(read_str("a='1' 'b'"), Err(ParseError { offset: 6 }));
    assert_eq!(read_str("a=1'2'"), Err(ParseError { offset: 3 }));
    assert_eq!(read_str("=1"), Err(ParseError { offset: 0 }));
    assert_eq!(read_str("'a'=1"), Err(ParseError { offset: 0 }));
    assert_eq!(read_str("a==1"), Err(ParseError { offset: 2 }));
}

#[test]
fn error_offsets_count_bytes() {
    assert_eq!(read_str("\u{e9}=\u{1F984} x"), Err(ParseError { offset: 8 }));
    assert_eq!(read_str("k='\u{20AC}'\n\u{20AC}"), Err(ParseError { offset: 11 }));
}

#[test]
fn parsing_twice_gives_equal_mappings() {
    let text = "a=1\nexport b='two'\n# comment\nc=\nd=\"x\\ny\"";
    let first = read_str(text).unwrap();
    let second = read_str(text).unwrap();
    assert_eq!(first, second);
    assert_eq!(first.len(), 4);

    assert_eq!(read_str("a=1 b"), read_str("a=1 b"));
}

#[test]
fn empty_and_blank_input() {
    assert!(read_str("").unwrap().is_empty());
    assert!(read_str("   ").unwrap().is_empty());
    assert!(read_str("\n\n  \n").unwrap().is_empty());
    assert!(read_str("\t# nothing\n").unwrap().is_empty());
}

#[test]
fn line_breaks_separate_assignments() {
    let m = read_str("a=1\r\nb=2\r\n").unwrap();
    assert_eq!(value(&m, "a"), "1");
    assert_eq!(value(&m, "b"), "2");

    let m = read_str("a=1   \nb=2\t\n\n\nc=3").unwrap();
    assert_eq!(m.len(), 3);
    assert_eq!(value(&m, "a"), "1");
    assert_eq!(value(&m, "b"), "2");
    assert_eq!(value(&m, "c"), "3");
}

#[test]
fn white_space_around_equals_is_skipped() {
    let m = read_str("a = 1\nb\t=\t'2'").unwrap();
    assert_eq!(value(&m, "a"), "1");
    assert_eq!(value(&m, "b"), "2");

    let m = read_str("a\u{a0}=\u{3000}1").unwrap();
    assert_eq!(value(&m, "a"), "1");
}

#[test]
fn names_keep_their_case() {
    let m = read_str("FOO=bar\nFoo=baz\nfoo=qux").unwrap();
    assert_eq!(m.len(), 3);
    assert_eq!(value(&m, "FOO"), "bar");
    assert_eq!(value(&m, "Foo"), "baz");
    assert_eq!(value(&m, "foo"), "qux");
}

#[test]
fn error_message() {
    let err = read_str("badly formatted env file").err().unwrap();
    assert_eq!(err.message(), "ParseError");
}

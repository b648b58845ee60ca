use shlex::{join, quote, split, Shlex};

fn split_cases() -> Vec<(&'static str, Option<Vec<&'static str>>)> {
    vec![
        ("foo$baz", Some(vec!["foo$baz"])),
        ("foo baz", Some(vec!["foo", "baz"])),
        ("foo\"bar\"baz", Some(vec!["foobarbaz"])),
        ("foo \"bar\"baz", Some(vec!["foo", "barbaz"])),
        ("   foo \nbar", Some(vec!["foo", "bar"])),
        ("foo\\\nbar", Some(vec!["foobar"])),
        ("\"foo\\\nbar\"", Some(vec!["foobar"])),
        ("'baz\\$b'", Some(vec!["baz\\$b"])),
        ("'baz\\\''", None),
        ("\\", None),
        ("\"\\", None),
        ("'\\", None),
        ("\"", None),
        ("'", None),
        ("foo #bar\nbaz", Some(vec!["foo", "baz"])),
        ("foo #bar", Some(vec!["foo"])),
        ("foo#bar", Some(vec!["foo#bar"])),
        ("foo\"#bar", None),
        ("'\\n'", Some(vec!["\\n"])),
        ("'\\\\n'", Some(vec!["\\\\n"])),
    ]
}

#[test]
fn lib_test_split() {
    for (input, output) in split_cases() {
        assert_eq!(
            split(input),
            output.map(|o| o.iter().map(|&x| x.to_owned()).collect())
        );
    }
}

#[test]
fn lib_test_lineno() {
    let mut sh = Shlex::new("\nfoo\nbar");
    while let Some(word) = sh.next() {
        if word == "bar" {
            assert_eq!(sh.line_no, 3);
        }
    }
}

#[test]
fn lib_test_quote() {
    assert_eq!(quote("foobar"), "foobar");
    assert_eq!(quote("foo bar"), "\"foo bar\"");
    assert_eq!(quote("\""), "\"\\\"\"");
    assert_eq!(quote(""), "\"\"");
}

#[test]
fn lib_test_join() {
    assert_eq!(join(vec![]), "");
    assert_eq!(join(vec![""]), "\"\"");
    assert_eq!(join(vec!["a", "b"]), "a b");
    assert_eq!(join(vec!["foo bar", "baz"]), "\"foo bar\" baz");
}

#[test]
fn text_lineno_and_error_flag_show_through() {
    let mut sh = Shlex::new("\nfoo\nbar 'open");
    assert_eq!(sh.line_no, 1);
    assert_eq!(sh.next(), Some("foo".to_owned()));
    assert_eq!(sh.line_no, 3);
    assert_eq!(sh.next(), Some("bar".to_owned()));
    assert!(!sh.had_error);
    assert_eq!(sh.next(), None);
    assert!(sh.had_error);
    assert_eq!(sh.next(), None);
}

#[test]
fn text_words_keep_their_characters() {
    assert_eq!(
        split("caf\u{e9} \"na\u{ef}ve \u{1f600}\" \\\u{e9}t\u{e9} '\u{4e2d}\u{6587}'"),
        Some(vec![
            "caf\u{e9}".to_owned(),
            "na\u{ef}ve \u{1f600}".to_owned(),
            "\u{e9}t\u{e9}".to_owned(),
            "\u{4e2d}\u{6587}".to_owned(),
        ])
    );
    assert_eq!(split("\"\\\u{e9}\""), Some(vec!["\\\u{e9}".to_owned()]));
}

#[test]
fn text_quote_keeps_valid_text() {
    assert_eq!(quote("caf\u{e9}"), "caf\u{e9}");
    assert_eq!(quote("caf\u{e9} $x"), "\"caf\u{e9} \\$x\"");
    assert_eq!(quote("\u{1f600}\"\u{1f600}"), "\"\u{1f600}\\\"\u{1f600}\"");
    assert_eq!(quote("a`b\\c"), "\"a\\`b\\\\c\"");
}

#[test]
fn text_round_trip() {
    let lists: Vec<Vec<&str>> = vec![
        vec![],
        vec![""],
        vec!["a", "", "b"],
        vec!["foo bar", "baz"],
        vec!["#x", "it's", "say \"hi\"", "$HOME", "`id`", "a\\b", "a\nb"],
        vec!["caf\u{e9} au lait", "\u{4e2d}\u{6587}", "\u{1f600}$"],
    ];
    for words in lists {
        let owned: Vec<String> = words.iter().map(|w| w.to_string()).collect();
        let line = join(words);
        assert_eq!(split(&line), Some(owned));
    }
}

#[test]
fn text_malformed_inputs_fail() {
    assert_eq!(split("\""), None);
    assert_eq!(split("'"), None);
    assert_eq!(split("\\"), None);
    assert_eq!(split("fine 'but open"), None);
}

use shlex::bytes::{join, quote, split, Shlex};

const INVALID_UTF8: &[u8] = b"\xa1";

fn split_cases() -> Vec<(&'static [u8], Option<Vec<&'static [u8]>>)> {
    vec![
        (b"foo$baz", Some(vec![b"foo$baz"])),
        (b"foo baz", Some(vec![b"foo", b"baz"])),
        (b"foo\"bar\"baz", Some(vec![b"foobarbaz"])),
        (b"foo \"bar\"baz", Some(vec![b"foo", b"barbaz"])),
        (b"   foo \nbar", Some(vec![b"foo", b"bar"])),
        (b"foo\\\nbar", Some(vec![b"foobar"])),
        (b"\"foo\\\nbar\"", Some(vec![b"foobar"])),
        (b"'baz\\$b'", Some(vec![b"baz\\$b"])),
        (b"'baz\\\''", None),
        (b"\\", None),
        (b"\"\\", None),
        (b"'\\", None),
        (b"\"", None),
        (b"'", None),
        (b"foo #bar\nbaz", Some(vec![b"foo", b"baz"])),
        (b"foo #bar", Some(vec![b"foo"])),
        (b"foo#bar", Some(vec![b"foo#bar"])),
        (b"foo\"#bar", None),
        (b"'\\n'", Some(vec![b"\\n"])),
        (b"'\\\\n'", Some(vec![b"\\\\n"])),
        (INVALID_UTF8, Some(vec![INVALID_UTF8])),
    ]
}

#[test]
fn test_invalid_utf8() {
    // Check that our test string is actually invalid UTF-8.
    assert!(core::str::from_utf8(INVALID_UTF8).is_err());
}

#[test]
fn bytes_test_split() {
    for (input, output) in split_cases() {
        assert_eq!(
            split(input),
            output.map(|o| o.iter().map(|&x| x.to_owned()).collect())
        );
    }
}

#[test]
fn bytes_test_lineno() {
    let mut sh = Shlex::new(b"\nfoo\nbar");
    while let Some(word) = sh.next() {
        if word == b"bar" {
            assert_eq!(sh.line_no, 3);
        }
    }
}

#[test]
fn bytes_test_quote() {
    assert_eq!(quote(b"foobar"), &b"foobar"[..]);
    assert_eq!(quote(b"foo bar"), &b"\"foo bar\""[..]);
    assert_eq!(quote(b"\""), &b"\"\\\"\""[..]);
    assert_eq!(quote(b""), &b"\"\""[..]);
    assert_eq!(quote(INVALID_UTF8), INVALID_UTF8);
}

#[test]
fn bytes_test_join() {
    assert_eq!(join(vec![]), &b""[..]);
    assert_eq!(join(vec![&b""[..]]), &b"\"\""[..]);
    assert_eq!(join(vec![&b"a"[..], &b"b"[..]]), &b"a b"[..]);
    assert_eq!(join(vec![&b"foo bar"[..], &b"baz"[..]]), &b"\"foo bar\" baz"[..]);
    assert_eq!(join(vec![INVALID_UTF8]), INVALID_UTF8);
}

#[test]
fn bytes_lineno_reaches_three_at_bar() {
    let mut sh = Shlex::new(b"\nfoo\nbar");
    assert_eq!(sh.line_no, 1);
    assert_eq!(sh.next(), Some(b"foo".to_vec()));
    assert_eq!(sh.line_no, 3);
    assert_eq!(sh.next(), Some(b"bar".to_vec()));
    assert_eq!(sh.line_no, 3);
    assert_eq!(sh.next(), None);
    assert!(!sh.had_error);
}

#[test]
fn bytes_lineno_counts_newlines_inside_quotes_and_continuations() {
    let mut sh = Shlex::new(b"'a\nb' \"c\nd\" e\\\nf #g\nh");
    assert_eq!(sh.next(), Some(b"a\nb".to_vec()));
    assert_eq!(sh.line_no, 2);
    assert_eq!(sh.next(), Some(b"c\nd".to_vec()));
    assert_eq!(sh.line_no, 3);
    assert_eq!(sh.next(), Some(b"ef".to_vec()));
    assert_eq!(sh.line_no, 4);
    assert_eq!(sh.next(), Some(b"h".to_vec()));
    assert_eq!(sh.line_no, 5);
    assert_eq!(sh.next(), None);
}

#[test]
fn bytes_error_discards_word_and_ends() {
    let mut sh = Shlex::new(b"one two \"three");
    assert_eq!(sh.next(), Some(b"one".to_vec()));
    assert!(!sh.had_error);
    assert_eq!(sh.next(), Some(b"two".to_vec()));
    assert!(!sh.had_error);
    assert_eq!(sh.next(), None);
    assert!(sh.had_error);
    assert_eq!(sh.next(), None);
    assert!(sh.had_error);
}

#[test]
fn bytes_each_malformed_ending_fails() {
    assert_eq!(split(b"\""), None);
    assert_eq!(split(b"'"), None);
    assert_eq!(split(b"\\"), None);
    assert_eq!(split(b"ok \"open"), None);
    assert_eq!(split(b"ok 'open"), None);
    assert_eq!(split(b"ok open\\"), None);
    assert_eq!(split(b"\"open\\"), None);
}

#[test]
fn bytes_empty_and_blank_inputs_have_no_words() {
    assert_eq!(split(b""), Some(vec![]));
    assert_eq!(split(b" \t\n "), Some(vec![]));
    assert_eq!(split(b"# only a comment"), Some(vec![]));
    assert_eq!(split(b"#c\n#d\n"), Some(vec![]));
}

#[test]
fn bytes_double_quote_escapes() {
    assert_eq!(split(b"\"a\\$b\\`c\\\"d\\\\e\""), Some(vec![b"a$b`c\"d\\e".to_vec()]));
    assert_eq!(split(b"\"a\\xb\""), Some(vec![b"a\\xb".to_vec()]));
    assert_eq!(split(b"\"a b\tc\nd\""), Some(vec![b"a b\tc\nd".to_vec()]));
    assert_eq!(split(b"\"\""), Some(vec![b"".to_vec()]));
    assert_eq!(split(b"''"), Some(vec![b"".to_vec()]));
}

#[test]
fn bytes_bare_escapes_and_carriage_return() {
    assert_eq!(split(b"a\\ b"), Some(vec![b"a b".to_vec()]));
    assert_eq!(split(b"\\#x"), Some(vec![b"#x".to_vec()]));
    assert_eq!(split(b"a\rb"), Some(vec![b"a\rb".to_vec()]));
    assert_eq!(split(b"a\0b c"), Some(vec![b"a\0b".to_vec(), b"c".to_vec()]));
}

#[test]
fn bytes_quote_escapes_only_the_live_bytes() {
    assert_eq!(quote(b"a$b"), &b"\"a\\$b\""[..]);
    assert_eq!(quote(b"a`b"), &b"\"a\\`b\""[..]);
    assert_eq!(quote(b"a\\b"), &b"\"a\\\\b\""[..]);
    assert_eq!(quote(b"a'b"), &b"\"a'b\""[..]);
    assert_eq!(quote(b"a*b?c[d#e~f=g%h"), &b"\"a*b?c[d#e~f=g%h\""[..]);
    assert_eq!(quote(b"a|b&c;d<e>f(g)h"), &b"\"a|b&c;d<e>f(g)h\""[..]);
    assert_eq!(quote(b"a\tb\rc\nd"), &b"\"a\tb\rc\nd\""[..]);
    assert_eq!(quote(b"a\x80b c"), &b"\"a\x80b c\""[..]);
}

#[test]
fn bytes_quote_leaves_plain_words_alone() {
    let plain: [&[u8]; 4] = [b"a", b"foo-bar_baz.txt", b"/usr/bin/env", b"\xff\xfe\x00\x01"];
    for word in plain {
        assert_eq!(quote(word), word);
        assert_eq!(split(word), Some(vec![word.to_vec()]));
    }
}

#[test]
fn bytes_round_trip() {
    let lists: Vec<Vec<&[u8]>> = vec![
        vec![],
        vec![b""],
        vec![b"", b""],
        vec![b"a", b"", b"b"],
        vec![b"foo bar", b"baz"],
        vec![b"#not a comment", b"it's", b"say \"hi\""],
        vec![b"$HOME", b"`id`", b"back\\slash", b"new\nline", b"tab\there"],
        vec![b"\\\n", b"\\", b"\"", b"'", b" "],
        vec![b"\xa1", b"\xffx y", b"nul\0byte"],
    ];
    for words in lists {
        let owned: Vec<Vec<u8>> = words.iter().map(|w| w.to_vec()).collect();
        let line = join(words);
        assert_eq!(split(&line), Some(owned));
    }
}

#[test]
fn bytes_round_trip_every_single_byte() {
    for b in 0u8..=255 {
        let word = [b];
        let other = [b'x', b, b'y'];
        let line = join(vec![&word[..], &other[..]]);
        assert_eq!(split(&line), Some(vec![word.to_vec(), other.to_vec()]));
    }
}

//! Why quoting and splitting keep valid UTF-8 valid.
//!
//! The quoter only puts single ASCII bytes in front of ASCII bytes, or
//! around the whole word, and the tokenizer only takes single ASCII bytes
//! out. The lemmas here say what that does to a byte string that is valid
//! UTF-8.

use crate::grammar::{
    double_quoted, escaped, is_blank, lemma_double_quoted_end, lemma_next_step_end,
    lemma_single_quoted_end, lemma_skip_blank_bounds, needs_backslash, needs_quoting, next_step,
    single_quoted, skip_blank, spec_join, spec_quote, spec_split, unescape_bare,
    unescape_in_double, word_at, words_from, Step, BACKSLASH, DQUOTE, HASH, NEWLINE, SPACE,
    SQUOTE,
};
use vstd::prelude::*;
use vstd::utf8::{
    is_char_boundary, is_char_boundary_iff_not_is_continuation_byte, is_continuation_byte,
    is_leading_byte_width_1, pop_first_scalar, valid_first_scalar, valid_utf8,
    valid_utf8_concat, valid_utf8_split,
};

verus! {

/// Every word of the list is valid UTF-8.
pub open spec fn all_valid_utf8(words: Seq<Seq<u8>>) -> bool {
    forall|k: int| 0 <= k < words.len() ==> valid_utf8(#[trigger] words[k])
}

/// An ASCII byte in front of a byte string neither makes nor breaks its
/// validity.
pub proof fn lemma_ascii_in_front(d: u8, b: Seq<u8>)
    requires
        d < 0x80,
    ensures
        valid_utf8(seq![d] + b) == valid_utf8(b),
{
    let s = seq![d] + b;
    assert(s[0] == d);
    assert(is_leading_byte_width_1(d));
    assert(((d & 0x7f) as u32) < 0x80) by (bit_vector)
        requires
            d < 0x80,
    ;
    assert(valid_first_scalar(s));
    assert(pop_first_scalar(s) =~= b);
}

/// Taking one ASCII byte out of a valid byte string leaves a valid byte
/// string, and so are the parts before and behind it.
pub proof fn lemma_remove_ascii(a: Seq<u8>, d: u8, b: Seq<u8>)
    requires
        d < 0x80,
        valid_utf8(a + seq![d] + b),
    ensures
        valid_utf8(a),
        valid_utf8(b),
        valid_utf8(seq![d] + b),
        valid_utf8(a + b),
{
    let s = a + seq![d] + b;
    let at = a.len() as int;
    assert(s[at] == d);
    assert(!is_continuation_byte(d));
    is_char_boundary_iff_not_is_continuation_byte(s, at);
    assert(is_char_boundary(s, at));
    valid_utf8_split(s, at);
    assert(s.subrange(0, at) =~= a);
    assert(s.subrange(at, s.len() as int) =~= seq![d] + b);
    lemma_ascii_in_front(d, b);
    valid_utf8_concat(a, b);
}

/// Putting an ASCII byte in front of an ASCII byte of a valid byte string
/// leaves a valid byte string.
pub proof fn lemma_insert_ascii(a: Seq<u8>, d: u8, c: u8, b: Seq<u8>)
    requires
        d < 0x80,
        c < 0x80,
        valid_utf8(a + seq![c] + b),
    ensures
        valid_utf8(a + seq![d, c] + b),
{
    lemma_remove_ascii(a, c, b);
    lemma_ascii_in_front(d, seq![c] + b);
    valid_utf8_concat(a, seq![d] + (seq![c] + b));
    assert(a + (seq![d] + (seq![c] + b)) =~= a + seq![d, c] + b);
}

/// Escaping the front part of a valid byte string leaves a valid byte
/// string.
proof fn lemma_escaped_keeps_utf8(w: Seq<u8>, t: Seq<u8>)
    requires
        valid_utf8(w + t),
    ensures
        valid_utf8(escaped(w) + t),
    decreases w.len(),
{
    if w.len() == 0 {
        assert(escaped(w) + t =~= w + t);
    } else {
        let front = w.drop_last();
        let c = w.last();
        assert(w + t =~= front + (seq![c] + t));
        lemma_escaped_keeps_utf8(front, seq![c] + t);
        let ef = escaped(front);
        if needs_backslash(c) {
            assert(ef + (seq![c] + t) =~= ef + seq![c] + t);
            lemma_insert_ascii(ef, BACKSLASH, c, t);
            assert(escaped(w) + t =~= ef + seq![BACKSLASH, c] + t);
        } else {
            assert(escaped(w) + t =~= ef + (seq![c] + t));
        }
    }
}

/// The quoted form of a word that is valid UTF-8 is valid UTF-8.
pub proof fn law_quote_keeps_utf8(word: Seq<u8>)
    requires
        valid_utf8(word),
    ensures
        valid_utf8(spec_quote(word)),
{
    let empty = Seq::<u8>::empty();
    let closing = seq![DQUOTE];
    lemma_ascii_in_front(DQUOTE, empty);
    assert(seq![DQUOTE] + empty =~= closing);
    if word.len() == 0 {
        lemma_ascii_in_front(DQUOTE, closing);
        assert(seq![DQUOTE] + closing =~= seq![DQUOTE, DQUOTE]);
    } else if needs_quoting(word) {
        assert(word + empty =~= word);
        lemma_escaped_keeps_utf8(word, empty);
        assert(escaped(word) + empty =~= escaped(word));
        valid_utf8_concat(escaped(word), closing);
        lemma_ascii_in_front(DQUOTE, escaped(word) + closing);
        assert(seq![DQUOTE] + (escaped(word) + closing) =~= spec_quote(word));
    }
}

/// The joined form of words that are valid UTF-8 is valid UTF-8.
pub proof fn law_join_keeps_utf8(words: Seq<Seq<u8>>)
    requires
        all_valid_utf8(words),
    ensures
        valid_utf8(spec_join(words)),
    decreases words.len(),
{
    if words.len() == 0 {
    } else if words.len() == 1 {
        law_quote_keeps_utf8(words[0]);
    } else {
        let front = words.drop_last();
        assert forall|k: int| 0 <= k < front.len() implies valid_utf8(#[trigger] front[k]) by {
            assert(front[k] == words[k]);
        }
        law_join_keeps_utf8(front);
        law_quote_keeps_utf8(words.last());
        let quoted = spec_quote(words.last());
        lemma_ascii_in_front(SPACE, quoted);
        valid_utf8_concat(spec_join(front), seq![SPACE] + quoted);
        assert(spec_join(front) + (seq![SPACE] + quoted) =~= spec_join(words));
    }
}

/// The input from position `i` to its end.
pub open spec fn rest_from(s: Seq<u8>, i: int) -> Seq<u8> {
    s.subrange(i, s.len() as int)
}

/// Behind an ASCII byte of a valid input, the rest of the input is valid.
proof fn lemma_valid_behind_ascii(s: Seq<u8>, i: int)
    requires
        valid_utf8(s),
        0 <= i < s.len(),
        s[i] < 0x80,
    ensures
        valid_utf8(rest_from(s, i + 1)),
{
    let a = s.subrange(0, i);
    let b = rest_from(s, i + 1);
    assert(a + seq![s[i]] + b =~= s);
    lemma_remove_ascii(a, s[i], b);
}

/// The first byte of the rest stands in front of the rest behind it.
proof fn lemma_rest_unfold(s: Seq<u8>, i: int)
    requires
        0 <= i < s.len(),
    ensures
        rest_from(s, i) == seq![s[i]] + rest_from(s, i + 1),
{
    assert(rest_from(s, i) =~= seq![s[i]] + rest_from(s, i + 1));
}

/// Skipping blanks and comments in a valid input stops where the rest of
/// the input is valid.
proof fn lemma_skip_keeps_utf8(s: Seq<u8>, i: int, in_comment: bool)
    requires
        valid_utf8(s),
        0 <= i <= s.len(),
        !in_comment ==> valid_utf8(rest_from(s, i)),
    ensures
        valid_utf8(rest_from(s, skip_blank(s, i, in_comment))),
    decreases s.len() - i,
{
    if i >= s.len() {
        assert(rest_from(s, s.len() as int) =~= Seq::<u8>::empty());
    } else if in_comment {
        if s[i] == NEWLINE {
            lemma_valid_behind_ascii(s, i);
        }
        lemma_skip_keeps_utf8(s, i + 1, s[i] != NEWLINE);
    } else if is_blank(s[i]) {
        lemma_valid_behind_ascii(s, i);
        lemma_skip_keeps_utf8(s, i + 1, false);
    } else if s[i] == HASH {
        lemma_skip_keeps_utf8(s, i + 1, true);
    }
}

/// What a single-quoted section stands for, put behind a valid start and
/// before the rest of the input, is valid.
proof fn lemma_single_quoted_keeps_utf8(s: Seq<u8>, i: int, acc: Seq<u8>)
    requires
        0 <= i <= s.len(),
        valid_utf8(acc + rest_from(s, i)),
    ensures
        match single_quoted(s, i) {
            None => true,
            Some((end, body)) => valid_utf8(acc + body + rest_from(s, end)),
        },
    decreases s.len() - i,
{
    if i < s.len() {
        lemma_rest_unfold(s, i);
        let rest = rest_from(s, i + 1);
        if s[i] == SQUOTE {
            assert(acc + rest_from(s, i) =~= acc + seq![SQUOTE] + rest);
            lemma_remove_ascii(acc, SQUOTE, rest);
            assert(acc + Seq::<u8>::empty() + rest =~= acc + rest);
        } else {
            let next = acc + seq![s[i]];
            assert(next + rest =~= acc + rest_from(s, i));
            lemma_single_quoted_keeps_utf8(s, i + 1, next);
            match single_quoted(s, i + 1) {
                None => {},
                Some((end, body)) => {
                    assert(acc + (seq![s[i]] + body) + rest_from(s, end) =~= next + body
                        + rest_from(s, end));
                },
            }
        }
    }
}

/// What a double-quoted section stands for, put behind a valid start and
/// before the rest of the input, is valid.
proof fn lemma_double_quoted_keeps_utf8(s: Seq<u8>, i: int, acc: Seq<u8>)
    requires
        0 <= i <= s.len(),
        valid_utf8(acc + rest_from(s, i)),
    ensures
        match double_quoted(s, i) {
            None => true,
            Some((end, body)) => valid_utf8(acc + body + rest_from(s, end)),
        },
    decreases s.len() - i,
{
    if i < s.len() {
        lemma_rest_unfold(s, i);
        let rest = rest_from(s, i + 1);
        if s[i] == DQUOTE {
            assert(acc + rest_from(s, i) =~= acc + seq![DQUOTE] + rest);
            lemma_remove_ascii(acc, DQUOTE, rest);
            assert(acc + Seq::<u8>::empty() + rest =~= acc + rest);
        } else if s[i] == BACKSLASH {
            if i + 1 < s.len() {
                lemma_rest_unfold(s, i + 1);
                let c = s[i + 1];
                let rest2 = rest_from(s, i + 2);
                let kept = unescape_in_double(c);
                let next = acc + kept;
                assert(acc + rest_from(s, i) =~= acc + seq![BACKSLASH] + rest);
                if needs_backslash(c) {
                    lemma_remove_ascii(acc, BACKSLASH, rest);
                    assert(next + rest2 =~= acc + rest);
                } else if c == NEWLINE {
                    lemma_remove_ascii(acc, BACKSLASH, rest);
                    assert(acc + rest =~= acc + seq![NEWLINE] + rest2);
                    lemma_remove_ascii(acc, NEWLINE, rest2);
                    assert(next + rest2 =~= acc + rest2);
                } else {
                    assert(next + rest2 =~= acc + rest_from(s, i));
                }
                lemma_double_quoted_keeps_utf8(s, i + 2, next);
                match double_quoted(s, i + 2) {
                    None => {},
                    Some((end, body)) => {
                        assert(acc + (kept + body) + rest_from(s, end) =~= next + body
                            + rest_from(s, end));
                    },
                }
            }
        } else {
            let next = acc + seq![s[i]];
            assert(next + rest =~= acc + rest_from(s, i));
            lemma_double_quoted_keeps_utf8(s, i + 1, next);
            match double_quoted(s, i + 1) {
                None => {},
                Some((end, body)) => {
                    assert(acc + (seq![s[i]] + body) + rest_from(s, end) =~= next + body
                        + rest_from(s, end));
                },
            }
        }
    }
}

/// A word read behind a valid start is valid with that start in front, and
/// the input behind the word is valid.
proof fn lemma_word_keeps_utf8(s: Seq<u8>, i: int, acc: Seq<u8>)
    requires
        0 <= i <= s.len(),
        valid_utf8(acc + rest_from(s, i)),
    ensures
        match word_at(s, i) {
            None => true,
            Some((end, word)) => valid_utf8(acc + word) && valid_utf8(rest_from(s, end)),
        },
    decreases s.len() - i,
{
    let empty = Seq::<u8>::empty();
    if i >= s.len() {
        assert(rest_from(s, i) =~= empty);
        assert(acc + empty =~= acc);
        assert(acc + rest_from(s, i) =~= acc);
    } else {
        lemma_rest_unfold(s, i);
        let rest = rest_from(s, i + 1);
        assert(acc + rest_from(s, i) =~= acc + seq![s[i]] + rest);
        if is_blank(s[i]) {
            lemma_remove_ascii(acc, s[i], rest);
            assert(acc + empty =~= acc);
        } else if s[i] == DQUOTE {
            lemma_remove_ascii(acc, DQUOTE, rest);
            lemma_double_quoted_keeps_utf8(s, i + 1, acc);
            lemma_double_quoted_end(s, i + 1);
            match double_quoted(s, i + 1) {
                None => {},
                Some((end, body)) => {
                    lemma_word_keeps_utf8(s, end, acc + body);
                    match word_at(s, end) {
                        None => {},
                        Some((end2, tail)) => {
                            assert(acc + (body + tail) =~= acc + body + tail);
                        },
                    }
                },
            }
        } else if s[i] == SQUOTE {
            lemma_remove_ascii(acc, SQUOTE, rest);
            lemma_single_quoted_keeps_utf8(s, i + 1, acc);
            lemma_single_quoted_end(s, i + 1);
            match single_quoted(s, i + 1) {
                None => {},
                Some((end, body)) => {
                    lemma_word_keeps_utf8(s, end, acc + body);
                    match word_at(s, end) {
                        None => {},
                        Some((end2, tail)) => {
                            assert(acc + (body + tail) =~= acc + body + tail);
                        },
                    }
                },
            }
        } else if s[i] == BACKSLASH {
            if i + 1 < s.len() {
                lemma_rest_unfold(s, i + 1);
                let c = s[i + 1];
                let rest2 = rest_from(s, i + 2);
                let kept = unescape_bare(c);
                let next = acc + kept;
                lemma_remove_ascii(acc, BACKSLASH, rest);
                if c == NEWLINE {
                    assert(acc + rest =~= acc + seq![NEWLINE] + rest2);
                    lemma_remove_ascii(acc, NEWLINE, rest2);
                    assert(next + rest2 =~= acc + rest2);
                } else {
                    assert(next + rest2 =~= acc + rest);
                }
                lemma_word_keeps_utf8(s, i + 2, next);
                match word_at(s, i + 2) {
                    None => {},
                    Some((end, tail)) => {
                        assert(acc + (kept + tail) =~= next + tail);
                    },
                }
            }
        } else {
            let next = acc + seq![s[i]];
            assert(next + rest =~= acc + rest_from(s, i));
            lemma_word_keeps_utf8(s, i + 1, next);
            match word_at(s, i + 1) {
                None => {},
                Some((end, tail)) => {
                    assert(acc + (seq![s[i]] + tail) =~= next + tail);
                },
            }
        }
    }
}

/// One pull on a valid input, from a cursor behind which the input is
/// valid, finds a valid word and leaves the cursor at such a place again.
pub proof fn lemma_next_step_keeps_utf8(s: Seq<u8>, i: int)
    requires
        valid_utf8(s),
        0 <= i <= s.len(),
        valid_utf8(rest_from(s, i)),
    ensures
        match next_step(s, i) {
            Step::Word { end, word } => valid_utf8(word) && valid_utf8(rest_from(s, end)),
            _ => true,
        },
{
    let start = skip_blank(s, i, false);
    lemma_skip_blank_bounds(s, i, false);
    lemma_skip_keeps_utf8(s, i, false);
    let empty = Seq::<u8>::empty();
    assert(empty + rest_from(s, start) =~= rest_from(s, start));
    lemma_word_keeps_utf8(s, start, empty);
    match word_at(s, start) {
        None => {},
        Some((end, word)) => {
            assert(empty + word =~= word);
        },
    }
}

/// The words read from a valid input, from a cursor behind which the input
/// is valid, are all valid.
proof fn lemma_words_keep_utf8(s: Seq<u8>, i: int)
    requires
        valid_utf8(s),
        0 <= i <= s.len(),
        valid_utf8(rest_from(s, i)),
    ensures
        match words_from(s, i) {
            None => true,
            Some(words) => all_valid_utf8(words),
        },
    decreases s.len() - i,
{
    lemma_next_step_keeps_utf8(s, i);
    lemma_next_step_end(s, i);
    match next_step(s, i) {
        Step::Word { end, word } => {
            lemma_words_keep_utf8(s, end);
            match words_from(s, end) {
                None => {},
                Some(rest) => {
                    let words = seq![word] + rest;
                    assert forall|k: int| 0 <= k < words.len() implies valid_utf8(
                        #[trigger] words[k],
                    ) by {
                        if k > 0 {
                            assert(words[k] == rest[k - 1]);
                        }
                    }
                },
            }
        },
        _ => {},
    }
}

/// The words of an input that is valid UTF-8 are valid UTF-8.
pub proof fn law_split_keeps_utf8(input: Seq<u8>)
    requires
        valid_utf8(input),
    ensures
        match spec_split(input) {
            None => true,
            Some(words) => all_valid_utf8(words),
        },
{
    assert(rest_from(input, 0) =~= input);
    lemma_words_keep_utf8(input, 0);
}

} // verus!

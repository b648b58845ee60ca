//! The word grammar, as mathematics.
//!
//! Everything here is specification: what a word is, where it ends, which
//! bytes force quoting and what the quoted form of a word looks like. The
//! executable tokenizer and quoter in [`crate::bytes`] are proved against
//! these definitions.
//!
//! Positions are indices into the whole input. A scan that starts at a
//! position yields either nothing (the input is malformed from there) or the
//! position just behind what it consumed, with the bytes it produced.

use vstd::prelude::*;

verus! {

pub const SPACE: u8 = 0x20;

pub const TAB: u8 = 0x09;

pub const NEWLINE: u8 = 0x0a;

pub const DQUOTE: u8 = 0x22;

pub const SQUOTE: u8 = 0x27;

pub const BACKSLASH: u8 = 0x5c;

pub const HASH: u8 = 0x23;

pub const DOLLAR: u8 = 0x24;

pub const BACKTICK: u8 = 0x60;

/// The bytes that end a word and are skipped between words.
pub open spec fn is_blank(b: u8) -> bool {
    b == SPACE || b == TAB || b == NEWLINE
}

/// The number of newline bytes among the first `i` bytes of `s`.
pub open spec fn newlines_before(s: Seq<u8>, i: int) -> nat
    decreases i,
{
    if i <= 0 {
        0
    } else {
        newlines_before(s, i - 1) + if s[i - 1] == NEWLINE {
            1nat
        } else {
            0nat
        }
    }
}

/// Puts `head` in front of what a scan produced; a failed scan stays failed.
pub open spec fn prepend(head: Seq<u8>, rest: Option<(int, Seq<u8>)>) -> Option<(int, Seq<u8>)> {
    match rest {
        None => None,
        Some((end, tail)) => Some((end, head + tail)),
    }
}

/// The body of a single-quoted section whose first byte (behind the opening
/// quote) is at `i`: every byte up to the next `'` stands for itself. The
/// end is the position behind the closing quote. Without a closing quote the
/// section is malformed.
pub open spec fn single_quoted(s: Seq<u8>, i: int) -> Option<(int, Seq<u8>)>
    decreases s.len() - i,
{
    if i >= s.len() {
        None
    } else if s[i] == SQUOTE {
        Some((i + 1, Seq::empty()))
    } else {
        prepend(seq![s[i]], single_quoted(s, i + 1))
    }
}

/// What a backslash followed by `b` stands for inside double quotes.
pub open spec fn unescape_in_double(b: u8) -> Seq<u8> {
    if b == DOLLAR || b == BACKTICK || b == DQUOTE || b == BACKSLASH {
        seq![b]
    } else if b == NEWLINE {
        Seq::empty()
    } else {
        seq![BACKSLASH, b]
    }
}

/// The body of a double-quoted section whose first byte (behind the opening
/// quote) is at `i`. The end is the position behind the closing quote.
/// Input that ends before the closing quote, or right behind a backslash, is
/// malformed.
pub open spec fn double_quoted(s: Seq<u8>, i: int) -> Option<(int, Seq<u8>)>
    decreases s.len() - i,
{
    if i >= s.len() {
        None
    } else if s[i] == DQUOTE {
        Some((i + 1, Seq::empty()))
    } else if s[i] == BACKSLASH {
        if i + 1 >= s.len() {
            None
        } else {
            prepend(unescape_in_double(s[i + 1]), double_quoted(s, i + 2))
        }
    } else {
        prepend(seq![s[i]], double_quoted(s, i + 1))
    }
}

/// What a backslash followed by `b` stands for outside quotes.
pub open spec fn unescape_bare(b: u8) -> Seq<u8> {
    if b == NEWLINE {
        Seq::empty()
    } else {
        seq![b]
    }
}

/// The word whose first byte is at `i`. It runs to the next blank byte
/// outside quotes, which is consumed with it, or to the end of the input.
pub open spec fn word_at(s: Seq<u8>, i: int) -> Option<(int, Seq<u8>)>
    decreases s.len() - i,
{
    if i >= s.len() {
        Some((s.len() as int, Seq::empty()))
    } else if is_blank(s[i]) {
        Some((i + 1, Seq::empty()))
    } else if s[i] == DQUOTE {
        match double_quoted(s, i + 1) {
            None => None,
            Some((end, body)) => {
                proof {
                    lemma_double_quoted_end(s, i + 1);
                }
                prepend(body, word_at(s, end))
            },
        }
    } else if s[i] == SQUOTE {
        match single_quoted(s, i + 1) {
            None => None,
            Some((end, body)) => {
                proof {
                    lemma_single_quoted_end(s, i + 1);
                }
                prepend(body, word_at(s, end))
            },
        }
    } else if s[i] == BACKSLASH {
        if i + 1 >= s.len() {
            None
        } else {
            prepend(unescape_bare(s[i + 1]), word_at(s, i + 2))
        }
    } else {
        prepend(seq![s[i]], word_at(s, i + 1))
    }
}

/// The position of the first byte of the next word at or behind `i`, or the
/// length of the input where no word follows. Blank bytes are skipped; a `#`
/// met while skipping opens a comment that runs through the next newline.
pub open spec fn skip_blank(s: Seq<u8>, i: int, in_comment: bool) -> int
    decreases s.len() - i,
{
    if i >= s.len() {
        s.len() as int
    } else if in_comment {
        skip_blank(s, i + 1, s[i] != NEWLINE)
    } else if is_blank(s[i]) {
        skip_blank(s, i + 1, false)
    } else if s[i] == HASH {
        skip_blank(s, i + 1, true)
    } else {
        i
    }
}

/// What one pull of the tokenizer finds.
pub enum Step {
    /// Only blanks and comments were left.
    End,
    /// A quote was left open, or the input ended behind a backslash.
    Malformed,
    /// A complete word, and the position behind it.
    Word { end: int, word: Seq<u8> },
}

/// What one pull finds when the cursor is at `i`.
pub open spec fn next_step(s: Seq<u8>, i: int) -> Step {
    let start = skip_blank(s, i, false);
    if start >= s.len() {
        Step::End
    } else {
        match word_at(s, start) {
            None => Step::Malformed,
            Some((end, word)) => Step::Word { end, word },
        }
    }
}

/// All the words from position `i` on, or nothing where the input is
/// malformed at or behind `i`.
pub open spec fn words_from(s: Seq<u8>, i: int) -> Option<Seq<Seq<u8>>>
    decreases s.len() - i,
{
    match next_step(s, i) {
        Step::End => Some(Seq::empty()),
        Step::Malformed => None,
        Step::Word { end, word } => {
            proof {
                lemma_next_step_end(s, i);
            }
            match words_from(s, end) {
                None => None,
                Some(rest) => Some(seq![word] + rest),
            }
        },
    }
}

/// The words of a whole input.
pub open spec fn spec_split(s: Seq<u8>) -> Option<Seq<Seq<u8>>> {
    words_from(s, 0)
}

/// The bytes that force a word into quotes: space, tab, carriage return,
/// newline and `| & ; < > ( ) $ \ " ' * ? [ # ~ = %`, and the backtick.
pub open spec fn is_meta(b: u8) -> bool {
    b == 0x7c || b == 0x26 || b == 0x3b || b == 0x3c || b == 0x3e || b == 0x28 || b == 0x29 || b
        == DOLLAR || b == BACKTICK || b == BACKSLASH || b == DQUOTE || b == SQUOTE || b == SPACE
        || b == TAB || b == 0x0d || b == NEWLINE || b == 0x2a || b == 0x3f || b == 0x5b || b
        == HASH || b == 0x7e || b == 0x3d || b == 0x25
}

/// Some byte of the word forces quoting.
pub open spec fn needs_quoting(w: Seq<u8>) -> bool {
    exists|k: int| 0 <= k < w.len() && is_meta(#[trigger] w[k])
}

/// The bytes that keep their meaning inside double quotes.
pub open spec fn needs_backslash(b: u8) -> bool {
    b == DOLLAR || b == BACKTICK || b == DQUOTE || b == BACKSLASH
}

/// One byte as it stands inside double quotes.
pub open spec fn escape_byte(b: u8) -> Seq<u8> {
    if needs_backslash(b) {
        seq![BACKSLASH, b]
    } else {
        seq![b]
    }
}

/// A word as it stands inside double quotes.
pub open spec fn escaped(w: Seq<u8>) -> Seq<u8>
    decreases w.len(),
{
    if w.len() == 0 {
        Seq::empty()
    } else {
        escaped(w.drop_last()) + escape_byte(w.last())
    }
}

/// The quoted form of one word.
pub open spec fn spec_quote(w: Seq<u8>) -> Seq<u8> {
    if w.len() == 0 {
        seq![DQUOTE, DQUOTE]
    } else if needs_quoting(w) {
        seq![DQUOTE] + escaped(w) + seq![DQUOTE]
    } else {
        w
    }
}

/// The quoted forms of the words, with one space between neighbours.
pub open spec fn spec_join(ws: Seq<Seq<u8>>) -> Seq<u8>
    decreases ws.len(),
{
    if ws.len() == 0 {
        Seq::empty()
    } else if ws.len() == 1 {
        spec_quote(ws[0])
    } else {
        spec_join(ws.drop_last()) + seq![SPACE] + spec_quote(ws.last())
    }
}

/// A single-quoted section ends behind its start and inside the input.
pub proof fn lemma_single_quoted_end(s: Seq<u8>, i: int)
    ensures
        match single_quoted(s, i) {
            None => true,
            Some((end, _)) => i < end <= s.len(),
        },
    decreases s.len() - i,
{
    if i < s.len() && s[i] != SQUOTE {
        lemma_single_quoted_end(s, i + 1);
    }
}

/// A double-quoted section ends behind its start and inside the input.
pub proof fn lemma_double_quoted_end(s: Seq<u8>, i: int)
    ensures
        match double_quoted(s, i) {
            None => true,
            Some((end, _)) => i < end <= s.len(),
        },
    decreases s.len() - i,
{
    if i < s.len() && s[i] != DQUOTE {
        if s[i] == BACKSLASH {
            if i + 1 < s.len() {
                lemma_double_quoted_end(s, i + 2);
            }
        } else {
            lemma_double_quoted_end(s, i + 1);
        }
    }
}

/// A word that starts inside the input ends behind its start and inside the
/// input.
pub proof fn lemma_word_at_end(s: Seq<u8>, i: int)
    ensures
        match word_at(s, i) {
            None => true,
            Some((end, _)) => end <= s.len() && (i < s.len() ==> i < end),
        },
    decreases s.len() - i,
{
    if i < s.len() && !is_blank(s[i]) {
        if s[i] == DQUOTE {
            lemma_double_quoted_end(s, i + 1);
            match double_quoted(s, i + 1) {
                None => {},
                Some((end, _)) => {
                    lemma_word_at_end(s, end);
                },
            }
        } else if s[i] == SQUOTE {
            lemma_single_quoted_end(s, i + 1);
            match single_quoted(s, i + 1) {
                None => {},
                Some((end, _)) => {
                    lemma_word_at_end(s, end);
                },
            }
        } else if s[i] == BACKSLASH {
            if i + 1 < s.len() {
                lemma_word_at_end(s, i + 2);
            }
        } else {
            lemma_word_at_end(s, i + 1);
        }
    }
}

/// Skipping never moves backwards nor past the end.
pub proof fn lemma_skip_blank_bounds(s: Seq<u8>, i: int, in_comment: bool)
    ensures
        skip_blank(s, i, in_comment) <= s.len(),
        i <= s.len() ==> i <= skip_blank(s, i, in_comment),
    decreases s.len() - i,
{
    if i < s.len() {
        if in_comment {
            lemma_skip_blank_bounds(s, i + 1, s[i] != NEWLINE);
        } else if is_blank(s[i]) {
            lemma_skip_blank_bounds(s, i + 1, false);
        } else if s[i] == HASH {
            lemma_skip_blank_bounds(s, i + 1, true);
        }
    }
}

/// A pull that finds a word moves the cursor forward.
pub proof fn lemma_next_step_end(s: Seq<u8>, i: int)
    ensures
        match next_step(s, i) {
            Step::Word { end, word } => i < end <= s.len(),
            _ => true,
        },
{
    lemma_skip_blank_bounds(s, i, false);
    lemma_word_at_end(s, skip_blank(s, i, false));
}

/// Putting two heads in front, one after the other, puts their
/// concatenation in front.
pub proof fn lemma_prepend_twice(a: Seq<u8>, b: Seq<u8>, rest: Option<(int, Seq<u8>)>)
    ensures
        prepend(a, prepend(b, rest)) == prepend(a + b, rest),
{
    match rest {
        None => {},
        Some((end, tail)) => {
            assert(a + (b + tail) =~= (a + b) + tail);
        },
    }
}

/// Putting nothing in front changes nothing.
pub proof fn lemma_prepend_empty(rest: Option<(int, Seq<u8>)>)
    ensures
        prepend(Seq::empty(), rest) == rest,
{
    match rest {
        None => {},
        Some((end, tail)) => {
            assert(Seq::<u8>::empty() + tail =~= tail);
        },
    }
}

} // verus!

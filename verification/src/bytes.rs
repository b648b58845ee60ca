//! The tokenizer, the quoter and the joiner on byte strings.
//!
//! Nothing here looks at text encodings: a word is a sequence of bytes, and
//! only single ASCII bytes have a meaning. The string functions of the crate
//! root are built on these.

use crate::grammar::{
    double_quoted, escape_byte, escaped, is_meta, lemma_double_quoted_end, lemma_next_step_end,
    lemma_prepend_empty, lemma_prepend_twice, lemma_single_quoted_end, needs_quoting,
    newlines_before, next_step, prepend, single_quoted, skip_blank, spec_join, spec_quote,
    spec_split, unescape_bare, unescape_in_double, word_at, words_from, Step, BACKSLASH, BACKTICK,
    DOLLAR, DQUOTE, HASH, NEWLINE, SPACE, SQUOTE, TAB,
};
use std::borrow::Cow;
use vstd::prelude::*;

verus! {

/// A cursor over an input byte string that hands out its words one by one,
/// split as a POSIX shell would split them.
pub struct Shlex<'a> {
    /// The whole input.
    pub input: &'a [u8],
    /// The number of bytes of the input consumed so far.
    pub pos: usize,
    /// The number of newlines read so far, plus one.
    pub line_no: usize,
    /// Set when the input ended inside a quotation or right behind a
    /// backslash. The word that was being read is then thrown away and no
    /// further word comes; look at this flag once [`Shlex::next`] has
    /// returned `None`.
    pub had_error: bool,
}

/// The views of the words in a list of owned words.
pub open spec fn words_view(words: Seq<Vec<u8>>) -> Seq<Seq<u8>> {
    Seq::new(words.len(), |k: int| words[k]@)
}

/// The views of the words in a list of borrowed words.
pub open spec fn slices_view(words: Seq<&[u8]>) -> Seq<Seq<u8>> {
    Seq::new(words.len(), |k: int| words[k]@)
}

/// Among the first `i` bytes there are at most `i` newlines.
proof fn lemma_newlines_bound(s: Seq<u8>, i: int)
    requires
        0 <= i,
    ensures
        newlines_before(s, i) <= i,
    decreases i,
{
    if i > 0 {
        lemma_newlines_bound(s, i - 1);
    }
}

impl<'a> Shlex<'a> {
    /// The whole input.
    pub open spec fn input(&self) -> Seq<u8> {
        self.input@
    }

    /// The number of bytes consumed so far.
    pub open spec fn pos(&self) -> int {
        self.pos as int
    }

    /// The cursor is inside the input, the line number counts the newlines
    /// consumed, and an error leaves nothing to read.
    pub open spec fn wf(&self) -> bool {
        &&& 0 <= self.pos() <= self.input().len()
        &&& self.input().len() < usize::MAX
        &&& self.line_no == 1 + newlines_before(self.input(), self.pos())
        &&& self.had_error ==> self.pos() == self.input().len()
    }

    /// A cursor at the start of `in_bytes`.
    pub fn new(in_bytes: &'a [u8]) -> (r: Self)
        requires
            in_bytes@.len() < usize::MAX,
        ensures
            r.wf(),
            r.input() == in_bytes@,
            r.pos() == 0,
            r.line_no == 1,
            !r.had_error,
    {
        Shlex { input: in_bytes, pos: 0, line_no: 1, had_error: false }
    }

    /// The next word, or `None` when no word is left or the rest of the
    /// input is malformed; in the latter case `had_error` is set.
    pub fn next(&mut self) -> (r: Option<Vec<u8>>)
        requires
            old(self).wf(),
        ensures
            final(self).wf(),
            final(self).input() == old(self).input(),
            old(self).pos() <= final(self).pos(),
            old(self).had_error ==> final(self).had_error,
            match next_step(old(self).input(), old(self).pos()) {
                Step::End => {
                    &&& r is None
                    &&& final(self).pos() == old(self).input().len()
                    &&& final(self).had_error == old(self).had_error
                },
                Step::Malformed => {
                    &&& r is None
                    &&& final(self).pos() == old(self).input().len()
                    &&& final(self).had_error
                },
                Step::Word { end, word } => {
                    &&& r is Some
                    &&& r.unwrap()@ == word
                    &&& final(self).pos() == end
                    &&& final(self).had_error == old(self).had_error
                },
            },
    {
        let ghost s = self.input@;
        let ghost start = self.pos as int;
        let ghost had = self.had_error;
        proof {
            lemma_next_step_end(s, start);
        }
        match self.next_char() {
            None => None,
            Some(first) => {
                let mut ch: u8 = first;
                loop
                    invariant
                        self.wf(),
                        self.input@ == s,
                        s == old(self).input@,
                        start == old(self).pos,
                        had == old(self).had_error,
                        start < self.pos <= s.len(),
                        ch == s[self.pos - 1],
                        self.had_error == had,
                        skip_blank(s, start, false) == skip_blank(s, self.pos - 1, false),
                    ensures
                        skip_blank(s, start, false) == self.pos - 1,
                    decreases s.len() - self.pos,
                {
                    if ch == SPACE || ch == TAB || ch == NEWLINE {
                    } else if ch == HASH {
                        let ghost opened = self.pos;
                        loop
                            invariant_except_break
                                skip_blank(s, start, false) == skip_blank(s, self.pos as int, true),
                            invariant
                                self.wf(),
                                self.input@ == s,
                                opened <= self.pos <= s.len(),
                                self.had_error == had,
                            ensures
                                skip_blank(s, start, false) == skip_blank(
                                    s,
                                    self.pos as int,
                                    false,
                                ),
                            decreases s.len() - self.pos,
                        {
                            match self.next_char() {
                                None => {
                                    break ;
                                },
                                Some(ch2) => {
                                    if ch2 == NEWLINE {
                                        break ;
                                    }
                                },
                            }
                        }
                    } else {
                        break ;
                    }
                    assert(skip_blank(s, start, false) == skip_blank(s, self.pos as int, false));
                    match self.next_char() {
                        None => {
                            return None;
                        },
                        Some(ch2) => {
                            ch = ch2;
                        },
                    }
                }
                self.parse_word(ch)
            },
        }
    }

    /// Reads the word whose first byte, `ch`, was just consumed.
    fn parse_word(&mut self, ch: u8) -> (r: Option<Vec<u8>>)
        requires
            old(self).wf(),
            1 <= old(self).pos(),
            ch == old(self).input()[old(self).pos() - 1],
        ensures
            final(self).wf(),
            final(self).input() == old(self).input(),
            match word_at(old(self).input(), old(self).pos() - 1) {
                None => {
                    &&& r is None
                    &&& final(self).pos() == old(self).input().len()
                    &&& final(self).had_error
                },
                Some((end, word)) => {
                    &&& r is Some
                    &&& r.unwrap()@ == word
                    &&& final(self).pos() == end
                    &&& final(self).had_error == old(self).had_error
                },
            },
    {
        let ghost s = self.input@;
        let ghost start = self.pos - 1;
        let ghost had = self.had_error;
        let mut result: Vec<u8> = Vec::new();
        let mut ch: u8 = ch;
        proof {
            lemma_prepend_empty(word_at(s, start));
        }
        loop
            invariant_except_break
                1 <= self.pos <= s.len(),
                ch == s[self.pos - 1],
                word_at(s, start) == prepend(result@, word_at(s, self.pos - 1)),
            invariant
                self.wf(),
                self.input@ == s,
                s == old(self).input@,
                start == old(self).pos - 1,
                had == old(self).had_error,
                self.had_error == had,
            ensures
                word_at(s, start) == Some((self.pos as int, result@)),
            decreases s.len() - self.pos,
        {
            let ghost cur = self.pos - 1;
            let ghost before = result@;
            if ch == DQUOTE {
                match self.parse_double(&mut result) {
                    Err(_) => {
                        self.had_error = true;
                        return None;
                    },
                    Ok(_) => {
                        proof {
                            lemma_double_quoted_end(s, cur + 1);
                            lemma_prepend_twice(
                                before,
                                double_quoted(s, cur + 1).unwrap().1,
                                word_at(s, self.pos as int),
                            );
                        }
                    },
                }
            } else if ch == SQUOTE {
                match self.parse_single(&mut result) {
                    Err(_) => {
                        self.had_error = true;
                        return None;
                    },
                    Ok(_) => {
                        proof {
                            lemma_single_quoted_end(s, cur + 1);
                            lemma_prepend_twice(
                                before,
                                single_quoted(s, cur + 1).unwrap().1,
                                word_at(s, self.pos as int),
                            );
                        }
                    },
                }
            } else if ch == BACKSLASH {
                match self.next_char() {
                    None => {
                        self.had_error = true;
                        return None;
                    },
                    Some(ch2) => {
                        if ch2 != NEWLINE {
                            result.push(ch2);
                        }
                        proof {
                            lemma_prepend_twice(
                                before,
                                unescape_bare(ch2),
                                word_at(s, self.pos as int),
                            );
                            assert(result@ =~= before + unescape_bare(ch2));
                        }
                    },
                }
            } else if ch == SPACE || ch == TAB || ch == NEWLINE {
                proof {
                    assert(before + Seq::<u8>::empty() =~= before);
                }
                break ;
            } else {
                result.push(ch);
                proof {
                    lemma_prepend_twice(before, seq![ch], word_at(s, self.pos as int));
                    assert(result@ =~= before + seq![ch]);
                }
            }
            match self.next_char() {
                None => {
                    proof {
                        assert(result@ + Seq::<u8>::empty() =~= result@);
                    }
                    break ;
                },
                Some(ch2) => {
                    ch = ch2;
                },
            }
        }
        Some(result)
    }

    /// Reads a double-quoted section behind its opening quote and appends
    /// what it stands for to `result`.
    fn parse_double(&mut self, result: &mut Vec<u8>) -> (r: Result<(), ()>)
        requires
            old(self).wf(),
        ensures
            final(self).wf(),
            final(self).input() == old(self).input(),
            final(self).had_error == old(self).had_error,
            match double_quoted(old(self).input(), old(self).pos()) {
                None => r is Err && final(self).pos() == old(self).input().len(),
                Some((end, body)) => {
                    &&& r is Ok
                    &&& final(self).pos() == end
                    &&& final(result)@ == old(result)@ + body
                },
            },
    {
        let ghost s = self.input@;
        let ghost start = self.pos as int;
        let ghost had = self.had_error;
        let ghost init = result@;
        let ghost acc = Seq::<u8>::empty();
        proof {
            lemma_prepend_empty(double_quoted(s, start));
            assert(init + acc =~= init);
        }
        loop
            invariant
                self.wf(),
                self.input@ == s,
                s == old(self).input@,
                start == old(self).pos,
                had == old(self).had_error,
                init == old(result)@,
                self.had_error == had,
                result@ == init + acc,
                double_quoted(s, start) == prepend(acc, double_quoted(s, self.pos as int)),
            decreases s.len() - self.pos,
        {
            match self.next_char() {
                None => {
                    return Err(());
                },
                Some(ch2) => {
                    if ch2 == BACKSLASH {
                        match self.next_char() {
                            None => {
                                return Err(());
                            },
                            Some(ch3) => {
                                if ch3 == DOLLAR || ch3 == BACKTICK || ch3 == DQUOTE || ch3
                                    == BACKSLASH {
                                    result.push(ch3);
                                } else if ch3 == NEWLINE {
                                } else {
                                    result.push(BACKSLASH);
                                    result.push(ch3);
                                }
                                proof {
                                    lemma_prepend_twice(
                                        acc,
                                        unescape_in_double(ch3),
                                        double_quoted(s, self.pos as int),
                                    );
                                    acc = acc + unescape_in_double(ch3);
                                    assert(result@ =~= init + acc);
                                }
                            },
                        }
                    } else if ch2 == DQUOTE {
                        proof {
                            assert(acc + Seq::<u8>::empty() =~= acc);
                        }
                        return Ok(());
                    } else {
                        result.push(ch2);
                        proof {
                            lemma_prepend_twice(
                                acc,
                                seq![ch2],
                                double_quoted(s, self.pos as int),
                            );
                            acc = acc + seq![ch2];
                            assert(result@ =~= init + acc);
                        }
                    }
                },
            }
        }
    }

    /// Reads a single-quoted section behind its opening quote and appends
    /// its bytes to `result`.
    fn parse_single(&mut self, result: &mut Vec<u8>) -> (r: Result<(), ()>)
        requires
            old(self).wf(),
        ensures
            final(self).wf(),
            final(self).input() == old(self).input(),
            final(self).had_error == old(self).had_error,
            match single_quoted(old(self).input(), old(self).pos()) {
                None => r is Err && final(self).pos() == old(self).input().len(),
                Some((end, body)) => {
                    &&& r is Ok
                    &&& final(self).pos() == end
                    &&& final(result)@ == old(result)@ + body
                },
            },
    {
        let ghost s = self.input@;
        let ghost start = self.pos as int;
        let ghost had = self.had_error;
        let ghost init = result@;
        let ghost acc = Seq::<u8>::empty();
        proof {
            lemma_prepend_empty(single_quoted(s, start));
            assert(init + acc =~= init);
        }
        loop
            invariant
                self.wf(),
                self.input@ == s,
                s == old(self).input@,
                start == old(self).pos,
                had == old(self).had_error,
                init == old(result)@,
                self.had_error == had,
                result@ == init + acc,
                single_quoted(s, start) == prepend(acc, single_quoted(s, self.pos as int)),
            decreases s.len() - self.pos,
        {
            match self.next_char() {
                None => {
                    return Err(());
                },
                Some(ch2) => {
                    if ch2 == SQUOTE {
                        proof {
                            assert(acc + Seq::<u8>::empty() =~= acc);
                        }
                        return Ok(());
                    } else {
                        result.push(ch2);
                        proof {
                            lemma_prepend_twice(
                                acc,
                                seq![ch2],
                                single_quoted(s, self.pos as int),
                            );
                            acc = acc + seq![ch2];
                            assert(result@ =~= init + acc);
                        }
                    }
                },
            }
        }
    }

    /// Consumes one byte, counting it where it is a newline.
    fn next_char(&mut self) -> (r: Option<u8>)
        requires
            old(self).wf(),
        ensures
            final(self).wf(),
            final(self).input() == old(self).input(),
            final(self).had_error == old(self).had_error,
            old(self).pos() < old(self).input().len() ==> r == Some(
                old(self).input()[old(self).pos()],
            ) && final(self).pos() == old(self).pos() + 1,
            old(self).pos() >= old(self).input().len() ==> r is None && final(self).pos() == old(
                self,
            ).pos(),
    {
        if self.pos < self.input.len() {
            let c: u8 = self.input[self.pos];
            proof {
                lemma_newlines_bound(self.input@, self.pos as int);
            }
            self.pos = self.pos + 1;
            if c == NEWLINE {
                self.line_no = self.line_no + 1;
            }
            Some(c)
        } else {
            None
        }
    }
}

/// Splits a whole input into its words. Returns `None` where the input is
/// malformed: no partial list comes back.
pub fn split(in_bytes: &[u8]) -> (r: Option<Vec<Vec<u8>>>)
    requires
        in_bytes@.len() < usize::MAX,
    ensures
        match spec_split(in_bytes@) {
            None => r is None,
            Some(words) => r is Some && words_view(r.unwrap()@) == words,
        },
{
    let mut shl = Shlex::new(in_bytes);
    let mut res: Vec<Vec<u8>> = Vec::new();
    let ghost s = in_bytes@;
    proof {
        assert(Seq::<Seq<u8>>::empty() + words_view(res@) =~= words_view(res@));
    }
    loop
        invariant_except_break
            !shl.had_error,
            spec_split(s) == match words_from(s, shl.pos()) {
                None => None,
                Some(rest) => Some(words_view(res@) + rest),
            },
        invariant
            shl.wf(),
            shl.input() == s,
        ensures
            match spec_split(s) {
                None => shl.had_error,
                Some(words) => !shl.had_error && words_view(res@) == words,
            },
        decreases s.len() - shl.pos(),
    {
        let ghost before = words_view(res@);
        let ghost at = shl.pos();
        proof {
            lemma_next_step_end(s, at);
        }
        match shl.next() {
            None => {
                proof {
                    assert(before + Seq::<Seq<u8>>::empty() =~= before);
                }
                break ;
            },
            Some(word) => {
                let ghost w = word@;
                res.push(word);
                proof {
                    assert(words_view(res@) =~= before + seq![w]);
                    match words_from(s, shl.pos()) {
                        None => {},
                        Some(rest) => {
                            assert(before + (seq![w] + rest) =~= (before + seq![w]) + rest);
                        },
                    }
                }
            },
        }
    }
    if shl.had_error {
        None
    } else {
        Some(res)
    }
}

/// Whether `b` is one of the bytes that force a word into quotes.
fn is_metachar(b: u8) -> (r: bool)
    ensures
        r == is_meta(b),
{
    b == 0x7c || b == 0x26 || b == 0x3b || b == 0x3c || b == 0x3e || b == 0x28 || b == 0x29 || b
        == DOLLAR || b == BACKTICK || b == BACKSLASH || b == DQUOTE || b == SQUOTE || b == SPACE
        || b == TAB || b == 0x0d || b == NEWLINE || b == 0x2a || b == 0x3f || b == 0x5b || b
        == HASH || b == 0x7e || b == 0x3d || b == 0x25
}

/// Whether some byte of the word forces quoting.
fn has_metachar(in_bytes: &[u8]) -> (r: bool)
    ensures
        r == needs_quoting(in_bytes@),
{
    let mut i: usize = 0;
    while i < in_bytes.len()
        invariant
            i <= in_bytes@.len(),
            forall|k: int| 0 <= k < i ==> !is_meta(#[trigger] in_bytes@[k]),
        decreases in_bytes@.len() - i,
    {
        if is_metachar(in_bytes[i]) {
            return true;
        }
        i = i + 1;
    }
    false
}

/// Encodes one word so that a shell, and [`split`], read it back as that
/// word. A word without a byte that needs quoting is returned as it is; the
/// empty word becomes `""`; any other word is put in double quotes, with a
/// backslash before each `$`, backtick, `"` and `\`.
pub fn quote(in_bytes: &[u8]) -> (r: Cow<'_, [u8]>)
    ensures
        r@ == spec_quote(in_bytes@),
        r matches Cow::Borrowed(same) ==> same@ == in_bytes@,
        r is Borrowed <==> in_bytes@.len() > 0 && !needs_quoting(in_bytes@),
{
    if in_bytes.len() == 0 {
        let mut out: Vec<u8> = Vec::new();
        out.push(DQUOTE);
        out.push(DQUOTE);
        proof {
            assert(out@ =~= seq![DQUOTE, DQUOTE]);
        }
        Cow::Owned(out)
    } else if has_metachar(in_bytes) {
        let mut out: Vec<u8> = Vec::new();
        out.push(DQUOTE);
        let mut i: usize = 0;
        proof {
            assert(out@ =~= seq![DQUOTE] + escaped(in_bytes@.take(0)));
        }
        while i < in_bytes.len()
            invariant
                i <= in_bytes@.len(),
                out@ == seq![DQUOTE] + escaped(in_bytes@.take(i as int)),
            decreases in_bytes@.len() - i,
        {
            let c: u8 = in_bytes[i];
            let ghost before = out@;
            if c == DOLLAR || c == BACKTICK || c == DQUOTE || c == BACKSLASH {
                out.push(BACKSLASH);
            }
            out.push(c);
            proof {
                assert(in_bytes@.take(i + 1).drop_last() =~= in_bytes@.take(i as int));
                assert(out@ =~= before + escape_byte(c));
                assert(out@ =~= seq![DQUOTE] + escaped(in_bytes@.take(i + 1)));
            }
            i = i + 1;
        }
        out.push(DQUOTE);
        proof {
            assert(in_bytes@.take(i as int) =~= in_bytes@);
        }
        Cow::Owned(out)
    } else {
        Cow::Borrowed(in_bytes)
    }
}

/// Quotes each word and puts one space between neighbours. No words give
/// the empty byte string.
pub fn join(words: Vec<&[u8]>) -> (r: Vec<u8>)
    ensures
        r@ == spec_join(slices_view(words@)),
{
    let mut out: Vec<u8> = Vec::new();
    let ghost ws = slices_view(words@);
    let mut i: usize = 0;
    proof {
        assert(ws.take(0) =~= Seq::<Seq<u8>>::empty());
    }
    while i < words.len()
        invariant
            i <= words@.len(),
            ws == slices_view(words@),
            out@ == spec_join(ws.take(i as int)),
        decreases words@.len() - i,
    {
        let ghost before = out@;
        if i > 0 {
            out.push(SPACE);
        }
        let quoted = quote(words[i]);
        match quoted {
            Cow::Borrowed(b) => {
                out.extend_from_slice(b);
            },
            Cow::Owned(v) => {
                out.extend_from_slice(v.as_slice());
            },
        }
        proof {
            let t = ws.take(i + 1);
            assert(t.drop_last() =~= ws.take(i as int));
            assert(t.last() == words@[i as int]@);
            if i > 0 {
                assert(out@ =~= before + seq![SPACE] + spec_quote(t.last()));
            } else {
                assert(out@ =~= spec_quote(t[0]));
            }
        }
        i = i + 1;
    }
    proof {
        assert(ws.take(i as int) =~= ws);
    }
    out
}

} // verus!

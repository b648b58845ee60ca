//! Splitting a command line into words as a POSIX shell would, and quoting
//! words so that splitting gives them back.
//!
//! The functions of this module work on strings. They are a thin layer over
//! [`bytes`], which does the work on byte strings: the grammar only gives a
//! meaning to single ASCII bytes, so it never cuts a character in two.

use crate::encoding::{
    law_join_keeps_utf8, law_quote_keeps_utf8, lemma_next_step_keeps_utf8, rest_from,
};
use crate::grammar::{
    lemma_next_step_end, needs_quoting, next_step, spec_join, spec_quote, spec_split, words_from,
    Step,
};
use std::borrow::Cow;
use vstd::prelude::*;
use vstd::utf8::{encode_utf8, encode_utf8_valid_utf8, valid_utf8};

pub mod bytes;
pub mod encoding;
pub mod grammar;
pub mod laws;

verus! {

/// A cursor over an input string that hands out its words one by one, split
/// as a POSIX shell would split them.
///
/// See [`bytes::Shlex`], which this wraps and dereferences to.
pub struct Shlex<'a>(bytes::Shlex<'a>);

/// The UTF-8 bytes of each of the borrowed words.
pub open spec fn strs_bytes(words: Seq<&str>) -> Seq<Seq<u8>> {
    Seq::new(words.len(), |k: int| encode_utf8(words[k]@))
}

/// The UTF-8 bytes of each of the owned words.
pub open spec fn strings_bytes(words: Seq<String>) -> Seq<Seq<u8>> {
    Seq::new(words.len(), |k: int| encode_utf8(words[k]@))
}

/// `String::from_utf8` of the standard library: it makes a string of the
/// bytes exactly when they are valid UTF-8, and the string then consists of
/// these very bytes.
#[verifier::external_body]
fn string_from_utf8(bytes: Vec<u8>) -> (r: Option<String>)
    ensures
        r is Some <==> valid_utf8(bytes@),
        r is Some ==> encode_utf8(r.unwrap()@) == bytes@,
{
    match String::from_utf8(bytes) {
        Ok(text) => Some(text),
        Err(_) => None,
    }
}

impl<'a> Shlex<'a> {
    /// The byte cursor inside.
    pub closed spec fn inner(&self) -> bytes::Shlex<'a> {
        self.0
    }

    /// The byte cursor is well formed, the input is valid UTF-8, and the
    /// cursor does not stand inside a character.
    pub open spec fn wf(&self) -> bool {
        &&& self.inner().wf()
        &&& valid_utf8(self.inner().input())
        &&& valid_utf8(rest_from(self.inner().input(), self.inner().pos()))
    }

    /// A cursor at the start of `in_str`.
    pub fn new(in_str: &'a str) -> (r: Self)
        requires
            encode_utf8(in_str@).len() < usize::MAX,
        ensures
            r.wf(),
            r.inner().input() == encode_utf8(in_str@),
            r.inner().pos() == 0,
            r.inner().line_no == 1,
            !r.inner().had_error,
    {
        proof {
            encode_utf8_valid_utf8(in_str@);
            assert(rest_from(encode_utf8(in_str@), 0) =~= encode_utf8(in_str@));
        }
        Shlex(bytes::Shlex::new(in_str.as_bytes()))
    }

    /// The next word, or `None` when no word is left or the rest of the
    /// input is malformed; in the latter case `had_error` is set.
    pub fn next(&mut self) -> (r: Option<String>)
        requires
            old(self).wf(),
        ensures
            final(self).wf(),
            final(self).inner().input() == old(self).inner().input(),
            match next_step(old(self).inner().input(), old(self).inner().pos()) {
                Step::End => {
                    &&& r is None
                    &&& final(self).inner().pos() == old(self).inner().input().len()
                    &&& final(self).inner().had_error == old(self).inner().had_error
                },
                Step::Malformed => {
                    &&& r is None
                    &&& final(self).inner().pos() == old(self).inner().input().len()
                    &&& final(self).inner().had_error
                },
                Step::Word { end, word } => {
                    &&& r is Some
                    &&& encode_utf8(r.unwrap()@) == word
                    &&& final(self).inner().pos() == end
                    &&& final(self).inner().had_error == old(self).inner().had_error
                },
            },
    {
        proof {
            let s = self.0.input();
            lemma_next_step_keeps_utf8(s, self.0.pos());
            assert(rest_from(s, s.len() as int) =~= Seq::<u8>::empty());
        }
        match self.0.next() {
            None => None,
            Some(byte_word) => string_from_utf8(byte_word),
        }
    }
}

impl<'a> core::ops::Deref for Shlex<'a> {
    type Target = bytes::Shlex<'a>;

    fn deref(&self) -> (r: &Self::Target)
        ensures
            *r == self.inner(),
    {
        &self.0
    }
}

impl<'a> core::ops::DerefMut for Shlex<'a> {
    fn deref_mut(&mut self) -> (r: &mut Self::Target)
        ensures
            *r == old(self).inner(),
            final(self).inner() == *final(r),
    {
        &mut self.0
    }
}

/// Splits a whole input into its words. Returns `None` where the input is
/// malformed: no partial list comes back.
pub fn split(in_str: &str) -> (r: Option<Vec<String>>)
    requires
        encode_utf8(in_str@).len() < usize::MAX,
    ensures
        match spec_split(encode_utf8(in_str@)) {
            None => r is None,
            Some(words) => r is Some && strings_bytes(r.unwrap()@) == words,
        },
{
    let mut shl = Shlex::new(in_str);
    let mut res: Vec<String> = Vec::new();
    let ghost s = encode_utf8(in_str@);
    proof {
        assert(Seq::<Seq<u8>>::empty() + strings_bytes(res@) =~= strings_bytes(res@));
    }
    loop
        invariant_except_break
            !shl.inner().had_error,
            spec_split(s) == match words_from(s, shl.inner().pos()) {
                None => None,
                Some(rest) => Some(strings_bytes(res@) + rest),
            },
        invariant
            shl.wf(),
            shl.inner().input() == s,
        ensures
            match spec_split(s) {
                None => shl.inner().had_error,
                Some(words) => !shl.inner().had_error && strings_bytes(res@) == words,
            },
        decreases s.len() - shl.inner().pos(),
    {
        let ghost before = strings_bytes(res@);
        proof {
            lemma_next_step_end(s, shl.inner().pos());
        }
        match shl.next() {
            None => {
                proof {
                    assert(before + Seq::<Seq<u8>>::empty() =~= before);
                }
                break ;
            },
            Some(word) => {
                let ghost w = encode_utf8(word@);
                res.push(word);
                proof {
                    assert(strings_bytes(res@) =~= before + seq![w]);
                    match words_from(s, shl.inner().pos()) {
                        None => {},
                        Some(rest) => {
                            assert(before + (seq![w] + rest) =~= (before + seq![w]) + rest);
                        },
                    }
                }
            },
        }
    }
    if shl.0.had_error {
        None
    } else {
        Some(res)
    }
}

/// Encodes one word so that a shell, and [`split`], read it back as that
/// word.
pub fn quote(in_str: &str) -> (r: Cow<'_, str>)
    ensures
        encode_utf8(r@) == spec_quote(encode_utf8(in_str@)),
        r matches Cow::Borrowed(same) ==> same@ == in_str@,
        r is Borrowed <==> encode_utf8(in_str@).len() > 0 && !needs_quoting(encode_utf8(in_str@)),
{
    proof {
        encode_utf8_valid_utf8(in_str@);
        law_quote_keeps_utf8(encode_utf8(in_str@));
    }
    match bytes::quote(in_str.as_bytes()) {
        Cow::Borrowed(_) => Cow::Borrowed(in_str),
        Cow::Owned(out) => {
            match string_from_utf8(out) {
                Some(quoted) => Cow::Owned(quoted),
                None => Cow::Borrowed(in_str),
            }
        },
    }
}

/// Quotes each word and puts one space between neighbours. No words give
/// the empty string.
pub fn join(words: Vec<&str>) -> (r: String)
    ensures
        encode_utf8(r@) == spec_join(strs_bytes(words@)),
{
    let mut parts: Vec<&[u8]> = Vec::new();
    let mut i: usize = 0;
    while i < words.len()
        invariant
            i <= words@.len(),
            parts@.len() == i,
            forall|k: int| 0 <= k < i ==> (#[trigger] parts@[k])@ == encode_utf8(words@[k]@),
        decreases words@.len() - i,
    {
        let word: &str = words[i];
        parts.push(word.as_bytes());
        i = i + 1;
    }
    proof {
        let ws = strs_bytes(words@);
        assert(bytes::slices_view(parts@) =~= ws);
        assert forall|k: int| 0 <= k < ws.len() implies valid_utf8(#[trigger] ws[k]) by {
            encode_utf8_valid_utf8(words@[k]@);
        }
        law_join_keeps_utf8(ws);
    }
    match string_from_utf8(bytes::join(parts)) {
        Some(joined) => joined,
        None => String::new(),
    }
}

} // verus!

//! What holds of quoting and splitting together.
//!
//! The functions of [`crate::bytes`] are specified by the definitions of
//! [`crate::grammar`]; the theorems here are stated over those definitions
//! and so hold of the executable functions.

use crate::grammar::{
    double_quoted, escape_byte, escaped, is_blank, is_meta, lemma_prepend_empty, needs_backslash,
    needs_quoting, next_step, skip_blank, spec_join, spec_quote, spec_split, word_at, words_from,
    Step, BACKSLASH, DQUOTE, HASH, SPACE,
};
use vstd::prelude::*;

verus! {

/// The bytes of `e` stand in `s` from position `p` on.
pub open spec fn occurs_at(s: Seq<u8>, p: int, e: Seq<u8>) -> bool {
    &&& 0 <= p
    &&& p + e.len() <= s.len()
    &&& forall|k: int| 0 <= k < e.len() ==> s[p + k] == #[trigger] e[k]
}

/// At `q` the input ends, or a space stands there.
pub open spec fn word_stops_at(s: Seq<u8>, q: int) -> bool {
    q == s.len() || (0 <= q < s.len() && s[q] == SPACE)
}

/// The cursor behind a word that stops at `q`: the space is consumed.
pub open spec fn behind(s: Seq<u8>, q: int) -> int {
    if q < s.len() {
        q + 1
    } else {
        s.len() as int
    }
}

/// No byte of the word forces quoting.
pub open spec fn is_plain(w: Seq<u8>) -> bool {
    forall|k: int| 0 <= k < w.len() ==> !is_meta(#[trigger] w[k])
}

/// Escaping a word is escaping its first byte, then the rest.
proof fn lemma_escaped_front(w: Seq<u8>)
    requires
        w.len() > 0,
    ensures
        escaped(w) == escape_byte(w[0]) + escaped(w.skip(1)),
    decreases w.len(),
{
    if w.len() == 1 {
        assert(w.drop_last() =~= Seq::<u8>::empty());
        assert(w.skip(1) =~= Seq::<u8>::empty());
        assert(escaped(w.drop_last()) =~= Seq::<u8>::empty());
        assert(escaped(w) =~= escape_byte(w[0]) + escaped(w.skip(1)));
    } else {
        let front = w.drop_last();
        let rest = w.skip(1);
        lemma_escaped_front(front);
        assert(front.skip(1) =~= rest.drop_last());
        assert(rest.last() == w.last());
        assert(front[0] == w[0]);
        assert(escaped(rest) == escaped(rest.drop_last()) + escape_byte(w.last()));
        assert(escaped(w) =~= escape_byte(w[0]) + escaped(rest));
    }
}

/// A double-quoted section that holds an escaped word stands for that word.
proof fn lemma_double_quoted_escaped(s: Seq<u8>, p: int, w: Seq<u8>)
    requires
        occurs_at(s, p, escaped(w)),
        p + escaped(w).len() < s.len(),
        s[p + escaped(w).len()] == DQUOTE,
    ensures
        double_quoted(s, p) == Some((p + escaped(w).len() + 1, w)),
    decreases w.len(),
{
    if w.len() == 0 {
        assert(w =~= Seq::<u8>::empty());
    } else {
        lemma_escaped_front(w);
        let rest = w.skip(1);
        let e = escaped(w);
        let eb = escape_byte(w[0]);
        let er = escaped(rest);
        assert forall|k: int| 0 <= k < er.len() implies s[p + eb.len() + k] == #[trigger] er[k] by {
            assert(e[eb.len() + k] == er[k]);
        }
        lemma_double_quoted_escaped(s, p + eb.len(), rest);
        if needs_backslash(w[0]) {
            assert(e[0] == BACKSLASH);
            assert(e[1] == w[0]);
        } else {
            assert(e[0] == w[0]);
        }
        assert(seq![w[0]] + rest =~= w);
    }
}

/// A run of plain bytes that stops at a space or at the end of the input is
/// one word, or the tail of one.
proof fn lemma_word_plain(s: Seq<u8>, p: int, w: Seq<u8>)
    requires
        occurs_at(s, p, w),
        is_plain(w),
        word_stops_at(s, p + w.len()),
    ensures
        word_at(s, p) == Some((behind(s, p + w.len()), w)),
    decreases w.len(),
{
    if w.len() == 0 {
        assert(w =~= Seq::<u8>::empty());
    } else {
        let rest = w.skip(1);
        assert forall|k: int| 0 <= k < rest.len() implies s[p + 1 + k] == #[trigger] rest[k] by {
            assert(w[k + 1] == rest[k]);
        }
        assert forall|k: int| 0 <= k < rest.len() implies !is_meta(#[trigger] rest[k]) by {
            assert(w[k + 1] == rest[k]);
        }
        lemma_word_plain(s, p + 1, rest);
        assert(s[p] == w[0]);
        assert(!is_meta(w[0]));
        assert(seq![w[0]] + rest =~= w);
    }
}

/// The quoted form of a word has at least one byte, and its first byte
/// starts a word.
proof fn lemma_quote_first_byte(w: Seq<u8>)
    ensures
        spec_quote(w).len() > 0,
        !is_blank(spec_quote(w)[0]),
        spec_quote(w)[0] != HASH,
{
    if w.len() > 0 && !needs_quoting(w) {
        assert(!is_meta(w[0]));
    }
}

/// Where the quoted form of a word stands in the input and stops at a space
/// or at the end, the tokenizer reads that word there.
proof fn lemma_word_quoted(s: Seq<u8>, p: int, w: Seq<u8>)
    requires
        occurs_at(s, p, spec_quote(w)),
        word_stops_at(s, p + spec_quote(w).len()),
    ensures
        skip_blank(s, p, false) == p,
        p < s.len(),
        word_at(s, p) == Some((behind(s, p + spec_quote(w).len()), w)),
{
    let q = spec_quote(w);
    lemma_quote_first_byte(w);
    assert(s[p] == q[0]);
    let stop = p + q.len();
    let tail: Option<(int, Seq<u8>)> = Some((behind(s, stop), Seq::<u8>::empty()));
    assert(word_at(s, stop) == tail);
    if w.len() == 0 {
        assert(q[1] == DQUOTE);
        assert(s[p + 1] == DQUOTE);
        assert(double_quoted(s, p + 1) == Some((p + 2, Seq::<u8>::empty())));
        lemma_prepend_empty(tail);
        assert(w =~= Seq::<u8>::empty());
    } else if needs_quoting(w) {
        let e = escaped(w);
        assert(q.len() == e.len() + 2);
        assert forall|k: int| 0 <= k < e.len() implies s[p + 1 + k] == #[trigger] e[k] by {
            assert(q[k + 1] == e[k]);
        }
        assert(q[e.len() as int + 1] == DQUOTE);
        assert(s[p + 1 + e.len()] == DQUOTE);
        lemma_double_quoted_escaped(s, p + 1, w);
        assert(w + Seq::<u8>::empty() =~= w);
    } else {
        lemma_word_plain(s, p, w);
    }
}

/// Joining two or more words is quoting the first, then a space, then
/// joining the others.
proof fn lemma_join_front(ws: Seq<Seq<u8>>)
    requires
        ws.len() >= 2,
    ensures
        spec_join(ws) == spec_quote(ws[0]) + seq![SPACE] + spec_join(ws.skip(1)),
    decreases ws.len(),
{
    let front = ws.drop_last();
    let rest = ws.skip(1);
    if ws.len() == 2 {
        assert(front[0] == ws[0]);
        assert(rest[0] == ws.last());
        assert(spec_join(front) == spec_quote(ws[0]));
        assert(spec_join(rest) == spec_quote(ws.last()));
    } else {
        lemma_join_front(front);
        assert(front.skip(1) =~= rest.drop_last());
        assert(rest.last() == ws.last());
        assert(front[0] == ws[0]);
        assert(spec_join(rest) == spec_join(rest.drop_last()) + seq![SPACE] + spec_quote(
            ws.last(),
        ));
        assert(spec_join(ws) =~= spec_quote(ws[0]) + seq![SPACE] + spec_join(rest));
    }
}

/// Where the joined form of some words fills the input from `p` to its end,
/// the tokenizer reads exactly those words from `p` on.
proof fn lemma_words_of_join(s: Seq<u8>, p: int, ws: Seq<Seq<u8>>)
    requires
        ws.len() > 0,
        occurs_at(s, p, spec_join(ws)),
        p + spec_join(ws).len() == s.len(),
    ensures
        words_from(s, p) == Some(ws),
    decreases ws.len(),
{
    let w = ws[0];
    let q = spec_quote(w);
    let j = spec_join(ws);
    if ws.len() == 1 {
        lemma_word_quoted(s, p, w);
        assert(skip_blank(s, s.len() as int, false) == s.len());
        assert(next_step(s, s.len() as int) == Step::End);
        assert(words_from(s, s.len() as int) == Some(Seq::<Seq<u8>>::empty()));
        assert(seq![w] + Seq::<Seq<u8>>::empty() =~= ws);
    } else {
        let rest = ws.skip(1);
        let jr = spec_join(rest);
        lemma_join_front(ws);
        assert(j.len() == q.len() + 1 + jr.len());
        assert forall|k: int| 0 <= k < q.len() implies s[p + k] == #[trigger] q[k] by {
            assert(j[k] == q[k]);
        }
        assert(j[q.len() as int] == SPACE);
        assert(s[p + q.len()] == SPACE);
        lemma_word_quoted(s, p, w);
        let next = p + q.len() + 1;
        assert forall|k: int| 0 <= k < jr.len() implies s[next + k] == #[trigger] jr[k] by {
            assert(j[q.len() + 1 + k] == jr[k]);
        }
        lemma_words_of_join(s, next, rest);
        assert(seq![w] + rest =~= ws);
    }
}

/// Splitting what `join` made of a list of words gives back that list:
/// `split(join(words)) == words`, for every list of words, whatever bytes
/// they hold.
pub proof fn law_split_join_round_trip(words: Seq<Seq<u8>>)
    ensures
        spec_split(spec_join(words)) == Some(words),
{
    let s = spec_join(words);
    if words.len() == 0 {
        assert(words =~= Seq::<Seq<u8>>::empty());
        assert(next_step(s, 0) == Step::End);
    } else {
        lemma_words_of_join(s, 0, words);
    }
}

/// Splitting the quoted form of one word gives back that word alone.
pub proof fn law_split_quote_round_trip(word: Seq<u8>)
    ensures
        spec_split(spec_quote(word)) == Some(seq![word]),
{
    law_split_join_round_trip(seq![word]);
}

/// A word that is not empty and holds no byte that needs quoting is its own
/// quoted form.
pub proof fn law_quote_plain_is_identity(word: Seq<u8>)
    requires
        word.len() > 0,
        is_plain(word),
    ensures
        spec_quote(word) == word,
{
}

/// An input that is not empty and holds no byte that needs quoting is one
/// word, byte for byte, whether or not it is valid text in any encoding.
pub proof fn law_split_plain_is_one_word(input: Seq<u8>)
    requires
        input.len() > 0,
        is_plain(input),
    ensures
        spec_split(input) == Some(seq![input]),
{
    law_quote_plain_is_identity(input);
    law_split_quote_round_trip(input);
}

} // verus!

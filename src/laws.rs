//! Properties of the scanner over all inputs of a given shape, proved from
//! the meaning of a scan.

use vstd::prelude::*;
use crate::error::SpecLexError;
use crate::scanner::{
    digits_len, is_digit, is_letter, is_word_char, lex_result, numeral_value, prepend, word_len,
    Outcome,
};
use crate::token::{word_text, word_token, SpecToken};

verus! {

/// Whether `w` starts with a letter and holds only letters and digits.
pub open spec fn is_word(w: Seq<char>) -> bool {
    &&& w.len() > 0
    &&& is_letter(w[0])
    &&& forall|k: int| 0 <= k < w.len() ==> is_word_char(#[trigger] w[k])
}

/// The words `ws` joined by single spaces.
pub open spec fn join_words(ws: Seq<Seq<char>>) -> Seq<char>
    decreases ws.len(),
{
    if ws.len() == 0 {
        Seq::empty()
    } else if ws.len() == 1 {
        ws[0]
    } else {
        ws[0] + seq![' '] + join_words(ws.drop_first())
    }
}

/// The word tokens of `ws`, one for each word, in order.
pub open spec fn word_tokens(ws: Seq<Seq<char>>) -> Seq<SpecToken> {
    ws.map_values(|w: Seq<char>| word_token(w))
}

/// The source texts of the word tokens `ts`.
pub open spec fn word_texts(ts: Seq<SpecToken>) -> Seq<Seq<char>> {
    ts.map_values(|t: SpecToken| word_text(t))
}

proof fn lemma_word_len_concat(w: Seq<char>, t: Seq<char>)
    requires
        forall|k: int| 0 <= k < w.len() ==> is_word_char(#[trigger] w[k]),
    ensures
        word_len(w + t) == w.len() + word_len(t),
    decreases w.len(),
{
    if w.len() == 0 {
        assert(w + t =~= t);
    } else {
        assert((w + t).drop_first() =~= w.drop_first() + t);
        assert((w + t)[0] == w[0]);
        lemma_word_len_concat(w.drop_first(), t);
    }
}

proof fn lemma_digits_len_concat(d: Seq<char>, t: Seq<char>)
    requires
        forall|k: int| 0 <= k < d.len() ==> is_digit(#[trigger] d[k]),
    ensures
        digits_len(d + t) == d.len() + digits_len(t),
    decreases d.len(),
{
    if d.len() == 0 {
        assert(d + t =~= t);
    } else {
        assert((d + t).drop_first() =~= d.drop_first() + t);
        assert((d + t)[0] == d[0]);
        lemma_digits_len_concat(d.drop_first(), t);
    }
}

/// The word text of a word's token is the word itself.
pub proof fn lemma_word_text(w: Seq<char>)
    ensures
        word_text(word_token(w)) == w,
{
}

/// Words of letters and digits, each starting with a letter and separated by
/// single spaces, scan to one keyword or identifier token per word, in order,
/// followed by `End`; the texts of those tokens, joined again by single spaces,
/// give back the input.
pub proof fn law_words_round_trip(ws: Seq<Seq<char>>)
    requires
        forall|k: int| 0 <= k < ws.len() ==> is_word(#[trigger] ws[k]),
    ensures
        lex_result(join_words(ws)) == Outcome::Ok(word_tokens(ws).push(SpecToken::End)),
        join_words(word_texts(word_tokens(ws))) == join_words(ws),
    decreases ws.len(),
{
    let s = join_words(ws);
    if ws.len() == 0 {
        assert(word_tokens(ws).push(SpecToken::End) =~= seq![SpecToken::End]);
    } else {
        let w = ws[0];
        assert(is_word(w));
        let tail = ws.drop_first();
        assert forall|k: int| 0 <= k < tail.len() implies is_word(#[trigger] tail[k]) by {
            assert(tail[k] == ws[k + 1]);
        }
        let rest_text = if ws.len() == 1 {
            Seq::empty()
        } else {
            seq![' '] + join_words(tail)
        };
        assert(s =~= w + rest_text);
        lemma_word_len_concat(w, rest_text);
        assert(word_len(rest_text) == 0);
        assert(s.take(w.len() as int) =~= w);
        assert(s.skip(w.len() as int) =~= rest_text);
        law_words_round_trip(tail);
        assert(lex_result(rest_text) == lex_result(join_words(tail))) by {
            if ws.len() > 1 {
                assert(rest_text.skip(1) =~= join_words(tail));
            } else {
                assert(join_words(tail) =~= Seq::<char>::empty());
            }
        }
        assert(seq![word_token(w)] + word_tokens(tail).push(SpecToken::End) =~= word_tokens(
            ws,
        ).push(SpecToken::End));
    }
    assert forall|k: int| 0 <= k < ws.len() implies #[trigger] word_texts(word_tokens(ws))[k]
        == ws[k] by {
        lemma_word_text(ws[k]);
    }
    assert(word_texts(word_tokens(ws)) =~= ws);
}

/// A run of digits whose value fits in an `i32`, followed by neither a letter
/// nor a digit, scans to one numeral token holding that value; what follows
/// scans as it would alone.
pub proof fn law_numeral_value(d: Seq<char>, rest: Seq<char>)
    requires
        d.len() > 0,
        forall|k: int| 0 <= k < d.len() ==> is_digit(#[trigger] d[k]),
        numeral_value(d) <= i32::MAX,
        rest.len() > 0 ==> !is_letter(rest[0]) && !is_digit(rest[0]),
    ensures
        lex_result(d + rest) == prepend(seq![SpecToken::Num(numeral_value(d) as i32)], lex_result(rest)),
{
    let s = d + rest;
    assert(s[0] == d[0]);
    lemma_digits_len_concat(d, rest);
    assert(digits_len(rest) == 0);
    assert(s.take(d.len() as int) =~= d);
    assert(s.skip(d.len() as int) =~= rest);
}

/// A run of digits glued to a letter fails the scan with an invalid
/// identifier that names the text from the run's first digit on.
pub proof fn law_digits_before_letter(d: Seq<char>, rest: Seq<char>)
    requires
        d.len() > 0,
        forall|k: int| 0 <= k < d.len() ==> is_digit(#[trigger] d[k]),
        rest.len() > 0,
        is_letter(rest[0]),
    ensures
        lex_result(d + rest) == Outcome::Err(SpecLexError::InvalidIdentifier(d + rest)),
{
    let s = d + rest;
    assert(s[0] == d[0]);
    lemma_digits_len_concat(d, rest);
    assert(digits_len(rest) == 0);
    assert(s[d.len() as int] == rest[0]);
}

} // verus!

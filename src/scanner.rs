//! The scanning algorithm: its meaning as spec functions over character
//! sequences, and the executable scanner proved against it.

use vstd::prelude::*;
use crate::error::{error_message, LexError, SpecLexError};
use crate::token::{chars_of, create_identifier, tokens_view, word_token, SpecToken, Token};

verus! {

pub open spec fn is_letter(c: char) -> bool {
    ('a' <= c && c <= 'z') || ('A' <= c && c <= 'Z')
}

pub open spec fn is_digit(c: char) -> bool {
    '0' <= c && c <= '9'
}

/// The identifier alphabet: letters and digits.
pub open spec fn is_word_char(c: char) -> bool {
    is_letter(c) || is_digit(c)
}

/// Length of the longest prefix of `s` over the identifier alphabet.
pub open spec fn word_len(s: Seq<char>) -> nat
    decreases s.len(),
{
    if s.len() > 0 && is_word_char(s[0]) {
        1 + word_len(s.drop_first())
    } else {
        0
    }
}

/// Length of the longest prefix of `s` made of digits.
pub open spec fn digits_len(s: Seq<char>) -> nat
    decreases s.len(),
{
    if s.len() > 0 && is_digit(s[0]) {
        1 + digits_len(s.drop_first())
    } else {
        0
    }
}

/// Length of the prefix of `s` up to and including its first line feed, or
/// all of `s` where it holds none.
pub open spec fn line_len(s: Seq<char>) -> nat
    decreases s.len(),
{
    if s.len() == 0 {
        0
    } else if s[0] == '\n' {
        1
    } else {
        1 + line_len(s.drop_first())
    }
}

pub open spec fn digit_value(c: char) -> int {
    (c as int) - ('0' as int)
}

/// The decimal value of the digit string `d`.
pub open spec fn numeral_value(d: Seq<char>) -> int
    decreases d.len(),
{
    if d.len() == 0 {
        0
    } else {
        10 * numeral_value(d.drop_last()) + digit_value(d.last())
    }
}

/// The two-character operator that `c` followed by `=` forms.
pub open spec fn compound_token(c: char) -> Option<SpecToken> {
    if c == '<' {
        Some(SpecToken::LessEqual)
    } else if c == '>' {
        Some(SpecToken::GreaterEqual)
    } else if c == '=' {
        Some(SpecToken::Equality)
    } else if c == '!' {
        Some(SpecToken::NotEqual)
    } else {
        None
    }
}

/// The one-character operator or punctuation token that `c` forms alone.
pub open spec fn single_token(c: char) -> Option<SpecToken> {
    if c == '<' {
        Some(SpecToken::Less)
    } else if c == '>' {
        Some(SpecToken::Greater)
    } else if c == '=' {
        Some(SpecToken::Assign)
    } else if c == '+' {
        Some(SpecToken::Plus)
    } else if c == '-' {
        Some(SpecToken::Subtract)
    } else if c == '*' {
        Some(SpecToken::Multiply)
    } else if c == '/' {
        Some(SpecToken::Divide)
    } else if c == '%' {
        Some(SpecToken::Modulus)
    } else if c == '(' {
        Some(SpecToken::LeftParen)
    } else if c == ')' {
        Some(SpecToken::RightParen)
    } else if c == '{' {
        Some(SpecToken::LeftCurly)
    } else if c == '}' {
        Some(SpecToken::RightCurly)
    } else if c == '[' {
        Some(SpecToken::LeftBracket)
    } else if c == ']' {
        Some(SpecToken::RightBracket)
    } else if c == ',' {
        Some(SpecToken::Comma)
    } else if c == ';' {
        Some(SpecToken::Semicolon)
    } else {
        None
    }
}

/// One move of the scanner: emit a token and consume some characters, consume
/// characters silently, or fail.
pub enum Step {
    Emit(SpecToken, nat),
    Skip(nat),
    Fail(SpecLexError),
}

/// A word: its maximal run over the identifier alphabet, resolved against the
/// keyword table.
pub open spec fn word_step(s: Seq<char>) -> Step {
    let n = word_len(s);
    Step::Emit(word_token(s.take(n as int)), n)
}

/// A numeral: its maximal digit run, which must not touch a letter and must
/// fit in an `i32`. A failure names all of `s`, from the first digit on.
pub open spec fn numeral_step(s: Seq<char>) -> Step {
    let n = digits_len(s);
    let v = numeral_value(s.take(n as int));
    if n < s.len() && is_letter(s[n as int]) {
        Step::Fail(SpecLexError::InvalidIdentifier(s))
    } else if v > i32::MAX {
        Step::Fail(SpecLexError::NumeralOverflow(s.take(n as int)))
    } else {
        Step::Emit(SpecToken::Num(v as i32), n)
    }
}

/// An operator or punctuation: the longer token wins where `=` follows.
pub open spec fn symbol_step(s: Seq<char>) -> Step {
    let c = s[0];
    if compound_token(c) is Some && s.len() > 1 && s[1] == '=' {
        Step::Emit(compound_token(c)->0, 2)
    } else if single_token(c) is Some {
        Step::Emit(single_token(c)->0, 1)
    } else {
        Step::Fail(SpecLexError::UnrecognizedSymbol(c))
    }
}

/// What the scanner does at the start of the nonempty text `s`, by the class
/// of its first character.
pub open spec fn first_step(s: Seq<char>) -> Step {
    let c = s[0];
    if is_letter(c) {
        word_step(s)
    } else if is_digit(c) {
        numeral_step(s)
    } else if c == '#' {
        Step::Skip(line_len(s))
    } else if c == ' ' || c == '\n' {
        Step::Skip(1)
    } else {
        symbol_step(s)
    }
}

/// What scanning a whole text comes to: a token stream or an error.
pub type Outcome = Result<Seq<SpecToken>, SpecLexError>;

/// The tokens `ts` put before the outcome `r`; an error stays as it is.
pub open spec fn prepend(ts: Seq<SpecToken>, r: Outcome) -> Outcome {
    match r {
        Ok(rest) => Ok(ts + rest),
        Err(e) => Err(e),
    }
}

/// The outcome of scanning all of `s`: the token stream, ended by `End`, or
/// the first error.
pub open spec fn lex_result(s: Seq<char>) -> Outcome
    decreases s.len(),
{
    if s.len() == 0 {
        Ok(seq![SpecToken::End])
    } else {
        proof {
            lemma_step_advances(s);
        }
        match first_step(s) {
            Step::Emit(t, n) => prepend(seq![t], lex_result(s.skip(n as int))),
            Step::Skip(n) => lex_result(s.skip(n as int)),
            Step::Fail(e) => Err(e),
        }
    }
}

pub proof fn lemma_word_len_bound(s: Seq<char>)
    ensures
        word_len(s) <= s.len(),
    decreases s.len(),
{
    if s.len() > 0 && is_word_char(s[0]) {
        lemma_word_len_bound(s.drop_first());
    }
}

pub proof fn lemma_digits_len_bound(s: Seq<char>)
    ensures
        digits_len(s) <= s.len(),
    decreases s.len(),
{
    if s.len() > 0 && is_digit(s[0]) {
        lemma_digits_len_bound(s.drop_first());
    }
}

pub proof fn lemma_line_len_bound(s: Seq<char>)
    ensures
        line_len(s) <= s.len(),
    decreases s.len(),
{
    if s.len() > 0 && s[0] != '\n' {
        lemma_line_len_bound(s.drop_first());
    }
}

/// Every step on a nonempty text consumes at least one character and no
/// more than the text holds.
pub proof fn lemma_step_advances(s: Seq<char>)
    requires
        s.len() > 0,
    ensures
        match first_step(s) {
            Step::Emit(_, n) => 0 < n <= s.len(),
            Step::Skip(n) => 0 < n <= s.len(),
            Step::Fail(_) => true,
        },
{
    lemma_word_len_bound(s);
    lemma_digits_len_bound(s);
    lemma_line_len_bound(s);
}

/// Whether the step `st` is an emitted token that `r` gives, with its width,
/// or a failure that `r` reports.
pub open spec fn step_matches(st: Step, r: Result<(Token, usize), LexError>) -> bool {
    match st {
        Step::Emit(t, n) => r matches Ok((tok, m)) && tok@ == t && m as nat == n,
        Step::Skip(_) => false,
        Step::Fail(e) => r matches Err(x) && x@ == e,
    }
}

proof fn lemma_skip_next(s: Seq<char>, j: int)
    requires
        0 <= j < s.len(),
    ensures
        s.skip(j).drop_first() == s.skip(j + 1),
        s.skip(j)[0] == s[j],
{
    assert(s.skip(j).drop_first() =~= s.skip(j + 1));
}

fn letter(c: char) -> (r: bool)
    ensures
        r == is_letter(c),
{
    ('a' <= c && c <= 'z') || ('A' <= c && c <= 'Z')
}

fn digit(c: char) -> (r: bool)
    ensures
        r == is_digit(c),
{
    '0' <= c && c <= '9'
}

/// The end of the run over the identifier alphabet that starts at `start`.
fn word_end(chars: &Vec<char>, start: usize) -> (end: usize)
    requires
        start <= chars@.len(),
    ensures
        end == start + word_len(chars@.skip(start as int)),
        end <= chars@.len(),
{
    let mut j: usize = start;
    while j < chars.len() && (letter(chars[j]) || digit(chars[j]))
        invariant
            start <= j <= chars@.len(),
            word_len(chars@.skip(start as int)) == (j - start) + word_len(chars@.skip(j as int)),
        decreases chars@.len() - j,
    {
        proof {
            lemma_skip_next(chars@, j as int);
        }
        j = j + 1;
    }
    j
}

/// The end of the digit run that starts at `start`.
fn digits_end(chars: &Vec<char>, start: usize) -> (end: usize)
    requires
        start <= chars@.len(),
    ensures
        end == start + digits_len(chars@.skip(start as int)),
        end <= chars@.len(),
        forall|k: int| start <= k < end ==> is_digit(#[trigger] chars@[k]),
{
    let mut j: usize = start;
    while j < chars.len() && digit(chars[j])
        invariant
            start <= j <= chars@.len(),
            forall|k: int| start <= k < j ==> is_digit(#[trigger] chars@[k]),
            digits_len(chars@.skip(start as int)) == (j - start) + digits_len(
                chars@.skip(j as int),
            ),
        decreases chars@.len() - j,
    {
        proof {
            lemma_skip_next(chars@, j as int);
        }
        j = j + 1;
    }
    j
}

/// The position just past the line that holds `start`: past its line feed,
/// or at the end of the input.
fn line_end(chars: &Vec<char>, start: usize) -> (end: usize)
    requires
        start <= chars@.len(),
    ensures
        end == start + line_len(chars@.skip(start as int)),
        end <= chars@.len(),
{
    let mut j: usize = start;
    while j < chars.len() && chars[j] != '\n'
        invariant
            start <= j <= chars@.len(),
            line_len(chars@.skip(start as int)) == (j - start) + line_len(chars@.skip(j as int)),
        decreases chars@.len() - j,
    {
        proof {
            lemma_skip_next(chars@, j as int);
        }
        j = j + 1;
    }
    if j < chars.len() {
        proof {
            lemma_skip_next(chars@, j as int);
        }
        j + 1
    } else {
        j
    }
}

pub proof fn lemma_numeral_nonneg(d: Seq<char>)
    requires
        forall|k: int| 0 <= k < d.len() ==> is_digit(#[trigger] d[k]),
    ensures
        numeral_value(d) >= 0,
    decreases d.len(),
{
    if d.len() > 0 {
        lemma_numeral_nonneg(d.drop_last());
    }
}

/// A digit string is worth at least as much as any of its prefixes.
pub proof fn lemma_numeral_monotone(d: Seq<char>, k: int)
    requires
        0 <= k <= d.len(),
        forall|i: int| 0 <= i < d.len() ==> is_digit(#[trigger] d[i]),
    ensures
        numeral_value(d.take(k)) <= numeral_value(d),
    decreases d.len(),
{
    if k == d.len() {
        assert(d.take(k) =~= d);
    } else {
        let e = d.drop_last();
        lemma_numeral_nonneg(e);
        assert(e.take(k) =~= d.take(k));
        lemma_numeral_monotone(e, k);
    }
}

/// The value of the digits in `[start, end)`, or `None` where it exceeds
/// `i32::MAX`.
fn numeral(chars: &Vec<char>, start: usize, end: usize) -> (r: Option<i32>)
    requires
        start <= end <= chars@.len(),
        forall|k: int| start <= k < end ==> is_digit(#[trigger] chars@[k]),
    ensures
        match r {
            Some(v) => v as int == numeral_value(chars@.subrange(start as int, end as int)),
            None => numeral_value(chars@.subrange(start as int, end as int)) > i32::MAX,
        },
{
    let ghost d = chars@.subrange(start as int, end as int);
    let mut acc: i64 = 0;
    let mut k: usize = start;
    while k < end
        invariant
            start <= k <= end <= chars@.len(),
            d == chars@.subrange(start as int, end as int),
            forall|i: int| start <= i < end ==> is_digit(#[trigger] chars@[i]),
            0 <= acc <= i32::MAX,
            acc as int == numeral_value(chars@.subrange(start as int, k as int)),
        decreases end - k,
    {
        let c = chars[k];
        let dv = (c as u32 - '0' as u32) as i64;
        assert(chars@.subrange(start as int, k + 1).drop_last() =~= chars@.subrange(
            start as int,
            k as int,
        ));
        acc = acc * 10 + dv;
        k = k + 1;
        if acc > i32::MAX as i64 {
            proof {
                assert(d.take(k - start) =~= chars@.subrange(start as int, k as int));
                lemma_numeral_monotone(d, k - start);
            }
            return None;
        }
    }
    Some(acc as i32)
}

fn compound(c: char) -> (r: Option<Token>)
    ensures
        match r {
            Some(t) => compound_token(c) == Some(t@),
            None => compound_token(c) is None,
        },
{
    if c == '<' {
        Some(Token::LessEqual)
    } else if c == '>' {
        Some(Token::GreaterEqual)
    } else if c == '=' {
        Some(Token::Equality)
    } else if c == '!' {
        Some(Token::NotEqual)
    } else {
        None
    }
}

fn single(c: char) -> (r: Option<Token>)
    ensures
        match r {
            Some(t) => single_token(c) == Some(t@),
            None => single_token(c) is None,
        },
{
    if c == '<' {
        Some(Token::Less)
    } else if c == '>' {
        Some(Token::Greater)
    } else if c == '=' {
        Some(Token::Assign)
    } else if c == '+' {
        Some(Token::Plus)
    } else if c == '-' {
        Some(Token::Subtract)
    } else if c == '*' {
        Some(Token::Multiply)
    } else if c == '/' {
        Some(Token::Divide)
    } else if c == '%' {
        Some(Token::Modulus)
    } else if c == '(' {
        Some(Token::LeftParen)
    } else if c == ')' {
        Some(Token::RightParen)
    } else if c == '{' {
        Some(Token::LeftCurly)
    } else if c == '}' {
        Some(Token::RightCurly)
    } else if c == '[' {
        Some(Token::LeftBracket)
    } else if c == ']' {
        Some(Token::RightBracket)
    } else if c == ',' {
        Some(Token::Comma)
    } else if c == ';' {
        Some(Token::Semicolon)
    } else {
        None
    }
}

/// Scans the word that starts with the letter at `i`.
fn scan_word(code: &str, chars: &Vec<char>, i: usize) -> (r: (Token, usize))
    requires
        chars@ == code@,
        i < chars@.len(),
        is_letter(chars@[i as int]),
    ensures
        word_step(code@.skip(i as int)) == Step::Emit(r.0@, r.1 as nat),
{
    let ghost s = code@.skip(i as int);
    let end = word_end(chars, i);
    let text = code.substring_char(i, end);
    assert(text@ =~= s.take((end - i) as int));
    (create_identifier(text), end - i)
}

/// Scans the numeral that starts with the digit at `i`.
fn scan_numeral(code: &str, chars: &Vec<char>, i: usize) -> (r: Result<(Token, usize), LexError>)
    requires
        chars@ == code@,
        i < chars@.len(),
        is_digit(chars@[i as int]),
    ensures
        step_matches(numeral_step(code@.skip(i as int)), r),
{
    let ghost s = code@.skip(i as int);
    let end = digits_end(chars, i);
    if end < chars.len() && letter(chars[end]) {
        let rest = code.substring_char(i, chars.len());
        assert(rest@ =~= s);
        return Err(LexError::InvalidIdentifier(rest.to_owned()));
    }
    assert(chars@.subrange(i as int, end as int) =~= s.take((end - i) as int));
    match numeral(chars, i, end) {
        Some(v) => Ok((Token::Num(v), end - i)),
        None => {
            let digits = code.substring_char(i, end);
            Err(LexError::NumeralOverflow(digits.to_owned()))
        },
    }
}

/// Scans the operator or punctuation at `i`, preferring the two-character
/// operator where `=` follows.
fn scan_symbol(chars: &Vec<char>, i: usize) -> (r: Result<(Token, usize), LexError>)
    requires
        i < chars@.len(),
    ensures
        step_matches(symbol_step(chars@.skip(i as int)), r),
{
    let c = chars[i];
    if chars.len() - i >= 2 && chars[i + 1] == '=' {
        if let Some(t) = compound(c) {
            return Ok((t, 2));
        }
    }
    match single(c) {
        Some(t) => Ok((t, 1)),
        None => Err(LexError::UnrecognizedSymbol(c)),
    }
}

proof fn lemma_push_token(ts: Seq<Token>, t: Token, r: Outcome)
    ensures
        prepend(tokens_view(ts), prepend(seq![t@], r)) == prepend(tokens_view(ts.push(t)), r),
{
    assert(tokens_view(ts.push(t)) =~= tokens_view(ts) + seq![t@]);
    match r {
        Ok(rest) => {
            assert(tokens_view(ts) + (seq![t@] + rest) =~= tokens_view(ts.push(t)) + rest);
        },
        Err(_) => {},
    }
}

/// Scans all of `code`, whose characters are `chars`.
fn scan_chars(code: &str, chars: &Vec<char>) -> (r: Result<Vec<Token>, LexError>)
    requires
        chars@ == code@,
    ensures
        match r {
            Ok(ts) => lex_result(code@) == Outcome::Ok(tokens_view(ts@)),
            Err(e) => lex_result(code@) == Outcome::Err(e@),
        },
{
    let n = chars.len();
    let mut tokens: Vec<Token> = Vec::new();
    let mut i: usize = 0;
    assert(code@.skip(0) =~= code@);
    while i < n
        invariant
            n == chars@.len(),
            chars@ == code@,
            i <= n,
            lex_result(code@) == prepend(tokens_view(tokens@), lex_result(code@.skip(i as int))),
        decreases n - i,
    {
        let ghost s = code@.skip(i as int);
        let ghost before = tokens@;
        let c = chars[i];
        assert(s[0] == c);
        if c == '#' || c == ' ' || c == '\n' {
            let end = if c == '#' {
                line_end(chars, i)
            } else {
                i + 1
            };
            proof {
                lemma_step_advances(s);
                assert(s.skip(end - i) =~= code@.skip(end as int));
            }
            i = end;
        } else {
            let r = if letter(c) {
                let (t, w) = scan_word(code, chars, i);
                Ok((t, w))
            } else if digit(c) {
                scan_numeral(code, chars, i)
            } else {
                scan_symbol(chars, i)
            };
            assert(step_matches(first_step(s), r));
            match r {
                Ok((t, w)) => {
                    proof {
                        lemma_step_advances(s);
                        assert(s.skip(w as int) =~= code@.skip(i + w));
                        lemma_push_token(before, t, lex_result(s.skip(w as int)));
                    }
                    tokens.push(t);
                    i = i + w;
                },
                Err(e) => {
                    return Err(e);
                },
            }
        }
    }
    assert(code@.skip(n as int) =~= Seq::<char>::empty());
    let ghost before = tokens@;
    proof {
        lemma_push_token(before, Token::End, Ok(Seq::empty()));
        assert(seq![SpecToken::End] + Seq::<SpecToken>::empty() =~= seq![SpecToken::End]);
        assert(tokens_view(before) + Seq::<SpecToken>::empty() =~= tokens_view(before));
    }
    tokens.push(Token::End);
    Ok(tokens)
}

/// Whether `ts` ends in `End` and holds it nowhere else.
pub open spec fn ends_once(ts: Seq<SpecToken>) -> bool {
    &&& ts.len() > 0
    &&& ts.last() == SpecToken::End
    &&& forall|k: int| 0 <= k < ts.len() - 1 ==> ts[k] != SpecToken::End
}

/// Every stream that a scan produces is ended by exactly one `End`.
pub proof fn lemma_stream_ends_once(s: Seq<char>)
    ensures
        lex_result(s) matches Ok(ts) ==> ends_once(ts),
    decreases s.len(),
{
    if s.len() > 0 {
        lemma_step_advances(s);
        match first_step(s) {
            Step::Emit(t, n) => {
                lemma_stream_ends_once(s.skip(n as int));
                if let Ok(rest) = lex_result(s.skip(n as int)) {
                    let ts = seq![t] + rest;
                    assert(ts.last() == rest.last());
                    assert forall|k: int| 0 <= k < ts.len() - 1 implies ts[k] != SpecToken::End by {
                        if k > 0 {
                            assert(ts[k] == rest[k - 1]);
                        }
                    }
                }
            },
            Step::Skip(n) => {
                lemma_stream_ends_once(s.skip(n as int));
            },
            Step::Fail(_) => {},
        }
    }
}

/// Scans `code` into its token stream, or the first error.
pub fn scan(code: &str) -> (r: Result<Vec<Token>, LexError>)
    ensures
        match r {
            Ok(ts) => lex_result(code@) == Outcome::Ok(tokens_view(ts@)),
            Err(e) => lex_result(code@) == Outcome::Err(e@),
        },
        r matches Ok(ts) ==> ends_once(tokens_view(ts@)),
{
    proof {
        lemma_stream_ends_once(code@);
    }
    let chars = chars_of(code);
    scan_chars(code, &chars)
}

/// Scans `code` into its token stream; on failure, the message that
/// describes the first error.
pub fn lex(code: &str) -> (r: Result<Vec<Token>, String>)
    ensures
        match r {
            Ok(ts) => lex_result(code@) == Outcome::Ok(tokens_view(ts@)),
            Err(m) => lex_result(code@) is Err && m@ == error_message(lex_result(code@)->Err_0),
        },
        r matches Ok(ts) ==> ends_once(tokens_view(ts@)),
{
    match scan(code) {
        Ok(ts) => Ok(ts),
        Err(e) => Err(e.message()),
    }
}

} // verus!

//! Tokens, their mathematical model, and the keyword table.

use vstd::prelude::*;
use vstd::std_specs::iter::IteratorSpec;

verus! {

/// One lexical unit of the language.
#[derive(Debug, Clone, PartialEq)]
pub enum Token {
    Plus,
    Subtract,
    Multiply,
    Divide,
    Modulus,
    Assign,
    Less,
    LessEqual,
    Greater,
    GreaterEqual,
    Equality,
    NotEqual,
    Num(i32),
    Ident(String),
    If,
    While,
    Read,
    Func,
    Return,
    Int,
    Print,
    Else,
    Break,
    Continue,
    LeftParen,
    RightParen,
    LeftCurly,
    RightCurly,
    LeftBracket,
    RightBracket,
    Comma,
    Semicolon,
    End,
}

/// The model of a `Token`: an identifier carries its characters.
pub enum SpecToken {
    Plus,
    Subtract,
    Multiply,
    Divide,
    Modulus,
    Assign,
    Less,
    LessEqual,
    Greater,
    GreaterEqual,
    Equality,
    NotEqual,
    Num(i32),
    Ident(Seq<char>),
    If,
    While,
    Read,
    Func,
    Return,
    Int,
    Print,
    Else,
    Break,
    Continue,
    LeftParen,
    RightParen,
    LeftCurly,
    RightCurly,
    LeftBracket,
    RightBracket,
    Comma,
    Semicolon,
    End,
}

impl View for Token {
    type V = SpecToken;

    open spec fn view(&self) -> SpecToken {
        match self {
            Token::Plus => SpecToken::Plus,
            Token::Subtract => SpecToken::Subtract,
            Token::Multiply => SpecToken::Multiply,
            Token::Divide => SpecToken::Divide,
            Token::Modulus => SpecToken::Modulus,
            Token::Assign => SpecToken::Assign,
            Token::Less => SpecToken::Less,
            Token::LessEqual => SpecToken::LessEqual,
            Token::Greater => SpecToken::Greater,
            Token::GreaterEqual => SpecToken::GreaterEqual,
            Token::Equality => SpecToken::Equality,
            Token::NotEqual => SpecToken::NotEqual,
            Token::Num(n) => SpecToken::Num(*n),
            Token::Ident(s) => SpecToken::Ident(s@),
            Token::If => SpecToken::If,
            Token::While => SpecToken::While,
            Token::Read => SpecToken::Read,
            Token::Func => SpecToken::Func,
            Token::Return => SpecToken::Return,
            Token::Int => SpecToken::Int,
            Token::Print => SpecToken::Print,
            Token::Else => SpecToken::Else,
            Token::Break => SpecToken::Break,
            Token::Continue => SpecToken::Continue,
            Token::LeftParen => SpecToken::LeftParen,
            Token::RightParen => SpecToken::RightParen,
            Token::LeftCurly => SpecToken::LeftCurly,
            Token::RightCurly => SpecToken::RightCurly,
            Token::LeftBracket => SpecToken::LeftBracket,
            Token::RightBracket => SpecToken::RightBracket,
            Token::Comma => SpecToken::Comma,
            Token::Semicolon => SpecToken::Semicolon,
            Token::End => SpecToken::End,
        }
    }
}

/// The models of a sequence of tokens, one for one.
pub open spec fn tokens_view(ts: Seq<Token>) -> Seq<SpecToken> {
    ts.map_values(|t: Token| t@)
}

/// The keyword table: the token that the word `w` stands for, if it is reserved.
pub open spec fn keyword(w: Seq<char>) -> Option<SpecToken> {
    if w == "func"@ {
        Some(SpecToken::Func)
    } else if w == "return"@ {
        Some(SpecToken::Return)
    } else if w == "int"@ {
        Some(SpecToken::Int)
    } else if w == "print"@ {
        Some(SpecToken::Print)
    } else if w == "else"@ {
        Some(SpecToken::Else)
    } else if w == "break"@ {
        Some(SpecToken::Break)
    } else if w == "continue"@ {
        Some(SpecToken::Continue)
    } else if w == "while"@ {
        Some(SpecToken::While)
    } else if w == "if"@ {
        Some(SpecToken::If)
    } else if w == "read"@ {
        Some(SpecToken::Read)
    } else {
        None
    }
}

/// The token for a whole word: its keyword, or else an identifier holding it.
pub open spec fn word_token(w: Seq<char>) -> SpecToken {
    match keyword(w) {
        Some(t) => t,
        None => SpecToken::Ident(w),
    }
}

/// The source text that a word token stands for: a keyword's spelling, an
/// identifier's characters. Other tokens have no word text.
pub open spec fn word_text(t: SpecToken) -> Seq<char> {
    match t {
        SpecToken::Func => "func"@,
        SpecToken::Return => "return"@,
        SpecToken::Int => "int"@,
        SpecToken::Print => "print"@,
        SpecToken::Else => "else"@,
        SpecToken::Break => "break"@,
        SpecToken::Continue => "continue"@,
        SpecToken::While => "while"@,
        SpecToken::If => "if"@,
        SpecToken::Read => "read"@,
        SpecToken::Ident(w) => w,
        _ => Seq::empty(),
    }
}

/// The characters of `s`, in order.
pub fn chars_of(s: &str) -> (r: Vec<char>)
    ensures
        r@ == s@,
{
    let n = s.unicode_len();
    let mut it = s.chars();
    let mut r: Vec<char> = Vec::new();
    let mut i: usize = 0;
    while i < n
        invariant
            n == s@.len(),
            i <= n,
            r@ == s@.take(i as int),
            it.remaining() == s@.skip(i as int),
        decreases n - i,
    {
        let next = it.next();
        match next {
            Some(c) => {
                r.push(c);
            },
            None => {
                assert(false);
            },
        }
        i = i + 1;
        assert(r@ =~= s@.take(i as int));
        assert(it.remaining() =~= s@.skip(i as int));
    }
    assert(r@ =~= s@);
    r
}

/// Whether the characters `w` spell the word `kw`.
fn spells(w: &Vec<char>, kw: &str) -> (r: bool)
    ensures
        r == (w@ == kw@),
{
    let n = kw.unicode_len();
    if w.len() != n {
        return false;
    }
    let mut i: usize = 0;
    while i < n
        invariant
            n == kw@.len(),
            n == w@.len(),
            i <= n,
            forall|k: int| 0 <= k < i ==> w@[k] == kw@[k],
        decreases n - i,
    {
        if w[i] != kw.get_char(i) {
            return false;
        }
        i = i + 1;
    }
    assert(w@ =~= kw@);
    true
}

/// The token for the word `code`: a keyword where the word is reserved, an
/// identifier holding the word otherwise.
pub fn create_identifier(code: &str) -> (r: Token)
    ensures
        r@ == word_token(code@),
{
    let w = chars_of(code);
    if spells(&w, "func") {
        Token::Func
    } else if spells(&w, "return") {
        Token::Return
    } else if spells(&w, "int") {
        Token::Int
    } else if spells(&w, "print") {
        Token::Print
    } else if spells(&w, "else") {
        Token::Else
    } else if spells(&w, "break") {
        Token::Break
    } else if spells(&w, "continue") {
        Token::Continue
    } else if spells(&w, "while") {
        Token::While
    } else if spells(&w, "if") {
        Token::If
    } else if spells(&w, "read") {
        Token::Read
    } else {
        Token::Ident(code.to_owned())
    }
}

} // verus!

//! Splitting a pattern into tokens.
use vstd::prelude::*;

verus! {

/// The characters of `s`, in order.
pub fn chars_of(s: &str) -> (r: Vec<char>)
    ensures
        r@ == s@,
{
    let mut r: Vec<char> = Vec::new();
    for c in it: s.chars()
        invariant
            r@ == it.seq().take(it.index() as int),
    {
        r.push(c);
    }
    r
}

/// A token of pattern text.
#[derive(Debug, PartialEq, Eq, Clone, Copy, Structural)]
pub enum Token {
    /// A literal character, escaped or not.
    Character(char),
    /// `|`
    UnionOperator,
    /// `(`
    LeftParen,
    /// `)`
    RightParen,
    /// `*`
    StarOperator,
    /// The end of the text.
    EndOfFile,
}

/// The token at the front of `rest` and the text after it. A backslash makes
/// the character after it a literal.
pub open spec fn next_token(rest: Seq<char>) -> (Token, Seq<char>) {
    if rest.len() == 0 {
        (Token::EndOfFile, rest)
    } else if rest[0] == '\\' {
        (Token::Character(rest[1]), rest.skip(2))
    } else if rest[0] == '|' {
        (Token::UnionOperator, rest.skip(1))
    } else if rest[0] == '(' {
        (Token::LeftParen, rest.skip(1))
    } else if rest[0] == ')' {
        (Token::RightParen, rest.skip(1))
    } else if rest[0] == '*' {
        (Token::StarOperator, rest.skip(1))
    } else {
        (Token::Character(rest[0]), rest.skip(1))
    }
}

/// The text ends in a backslash with nothing after it to escape.
pub open spec fn dangling_escape(rest: Seq<char>) -> bool {
    rest.len() == 1 && rest[0] == '\\'
}

/// The name under which a token is shown.
pub open spec fn token_name(t: Token) -> Seq<char> {
    match t {
        Token::Character(_) => "Character"@,
        Token::UnionOperator => "|"@,
        Token::StarOperator => "*"@,
        Token::LeftParen => "("@,
        Token::RightParen => ")"@,
        Token::EndOfFile => "EOF"@,
    }
}

impl Token {
    /// The name under which the token is shown.
    pub fn as_str(&self) -> (r: &'static str)
        ensures
            r@ == token_name(*self),
    {
        match self {
            Token::Character(_) => "Character",
            Token::UnionOperator => "|",
            Token::StarOperator => "*",
            Token::LeftParen => "(",
            Token::RightParen => ")",
            Token::EndOfFile => "EOF",
        }
    }
}

/// Reads pattern text token by token.
pub struct Lexer {
    chars: Vec<char>,
    pos: usize,
}

impl View for Lexer {
    type V = Seq<char>;

    /// The text not yet read.
    closed spec fn view(&self) -> Seq<char> {
        self.chars@.skip(self.pos as int)
    }
}

impl Lexer {
    /// The position never passes the end of the text.
    pub closed spec fn wf(&self) -> bool {
        self.pos <= self.chars@.len()
    }

    /// A lexer at the start of `string`.
    pub fn new(string: &str) -> (r: Lexer)
        ensures
            r.wf(),
            r@ == string@,
    {
        let r = Lexer { chars: chars_of(string), pos: 0 };
        assert(r.chars@.skip(0) == r.chars@);
        r
    }

    /// Reads the next token; at the end of the text, `EndOfFile` again and
    /// again. A backslash must have a character after it to escape.
    pub fn scan(&mut self) -> (r: Token)
        requires
            old(self).wf(),
            !dangling_escape(old(self)@),
        ensures
            final(self).wf(),
            (r, final(self)@) == next_token(old(self)@),
    {
        let ghost rest = self@;
        if self.pos >= self.chars.len() {
            return Token::EndOfFile;
        }
        let c = self.chars[self.pos];
        assert(rest[0] == c);
        if c == '\\' {
            let escaped = self.chars[self.pos + 1];
            assert(rest[1] == escaped);
            self.pos = self.pos + 2;
            assert(self@ =~= rest.skip(2));
            return Token::Character(escaped);
        }
        self.pos = self.pos + 1;
        assert(self@ =~= rest.skip(1));
        if c == '|' {
            Token::UnionOperator
        } else if c == '(' {
            Token::LeftParen
        } else if c == ')' {
            Token::RightParen
        } else if c == '*' {
            Token::StarOperator
        } else {
            Token::Character(c)
        }
    }
}

} // verus!

use vstd::prelude::*;

verus! {

/// Every kind of token the lexer can produce, including the `Eof` sentinel
/// that terminates each token stream.
#[derive(Clone, Copy, Debug, PartialEq, Eq, Structural)]
pub enum TokenType {
    // Single-character tokens.
    LeftParen,
    RightParen,
    LeftBrace,
    RightBrace,
    Comma,
    Dot,
    Minus,
    Plus,
    SemiColon,
    Slash,
    Star,
    // One or two character tokens.
    Bang,
    BangEqual,
    Equal,
    EqualEqual,
    Greater,
    GreaterEqual,
    Less,
    LessEqual,
    // Literals.
    Identifier,
    String,
    Number,
    // Keywords.
    And,
    Class,
    Else,
    False,
    Fun,
    For,
    If,
    Nil,
    Or,
    Print,
    Return,
    Super,
    This,
    True,
    Var,
    While,
    Eof,
}

/// One token: its kind, the exact source slice it covers, the literal text it
/// carries (string contents without quotes, or numeric text), and its line.
/// A string literal with embedded newlines carries the line of its closing
/// quote.
#[derive(Debug)]
pub struct Token {
    pub lexeme: std::string::String,
    pub tokentype: TokenType,
    pub literal: std::string::String,
    pub line: usize,
}

/// The mathematical shadow of a token: the same fields with the strings
/// replaced by their character sequences.
pub ghost struct TokenModel {
    pub lexeme: Seq<char>,
    pub tokentype: TokenType,
    pub literal: Seq<char>,
    pub line: nat,
}

impl View for Token {
    type V = TokenModel;

    open spec fn view(&self) -> TokenModel {
        TokenModel {
            lexeme: self.lexeme@,
            tokentype: self.tokentype,
            literal: self.literal@,
            line: self.line as nat,
        }
    }
}

impl DeepView for Token {
    type V = TokenModel;

    open spec fn deep_view(&self) -> TokenModel {
        self.view()
    }
}

impl Token {
    /// An exact copy: the clone is equal, as a value, to the original.
    pub fn duplicate(&self) -> (r: Token)
        ensures
            r == *self,
    {
        Token {
            lexeme: self.lexeme.clone(),
            tokentype: self.tokentype,
            literal: self.literal.clone(),
            line: self.line,
        }
    }
}

/// Copies a whole token list, preserving every token exactly.
pub fn duplicate_tokens(tokens: &Vec<Token>) -> (r: Vec<Token>)
    ensures
        r@ == tokens@,
{
    let mut out: Vec<Token> = Vec::new();
    let mut i: usize = 0;
    while i < tokens.len()
        invariant
            i <= tokens.len(),
            out@ == tokens@.subrange(0, i as int),
        decreases tokens.len() - i,
    {
        out.push(tokens[i].duplicate());
        i += 1;
    }
    assert(out@ =~= tokens@);
    out
}

} // verus!

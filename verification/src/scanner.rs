use vstd::prelude::*;

use crate::errors::{Error, ErrorKind, ErrorModel};
use crate::token::{Token, TokenModel, TokenType};

verus! {

use vstd::string::StrSliceExecFns;

// ---------------------------------------------------------------------------
// The lexer's mathematical model: a recursive function over the character
// sequence of the source.  The executable `Scanner` below is proved to
// produce exactly this token and error sequence.
// ---------------------------------------------------------------------------
/// What lexing produces: the token stream and the recorded errors.
pub ghost struct LexOut {
    pub toks: Seq<TokenModel>,
    pub errs: Seq<ErrorModel>,
}

pub open spec fn is_digit_char(c: char) -> bool {
    '0' <= c && c <= '9'
}

pub open spec fn is_alpha_char(c: char) -> bool {
    ('a' <= c && c <= 'z') || ('A' <= c && c <= 'Z') || c == '_'
}

pub open spec fn is_alnum_char(c: char) -> bool {
    is_alpha_char(c) || is_digit_char(c)
}

/// The keyword table: identifier text that is a reserved word lexes to the
/// word's own token kind.
pub open spec fn keyword_kind(text: Seq<char>) -> TokenType {
    if text == "and"@ {
        TokenType::And
    } else if text == "class"@ {
        TokenType::Class
    } else if text == "else"@ {
        TokenType::Else
    } else if text == "false"@ {
        TokenType::False
    } else if text == "for"@ {
        TokenType::For
    } else if text == "function"@ {
        TokenType::Fun
    } else if text == "if"@ {
        TokenType::If
    } else if text == "nil"@ {
        TokenType::Nil
    } else if text == "or"@ {
        TokenType::Or
    } else if text == "print"@ {
        TokenType::Print
    } else if text == "return"@ {
        TokenType::Return
    } else if text == "super"@ {
        TokenType::Super
    } else if text == "this"@ {
        TokenType::This
    } else if text == "true"@ {
        TokenType::True
    } else if text == "var"@ {
        TokenType::Var
    } else if text == "while"@ {
        TokenType::While
    } else {
        TokenType::Identifier
    }
}

/// First position at or after `p` holding a non-digit (or the end).
pub open spec fn digits_end(src: Seq<char>, p: int) -> int
    decreases src.len() - p,
{
    if 0 <= p < src.len() && is_digit_char(src[p]) {
        digits_end(src, p + 1)
    } else {
        p
    }
}

/// First position at or after `p` holding a character that cannot continue an
/// identifier (or the end).
pub open spec fn alnum_end(src: Seq<char>, p: int) -> int
    decreases src.len() - p,
{
    if 0 <= p < src.len() && is_alnum_char(src[p]) {
        alnum_end(src, p + 1)
    } else {
        p
    }
}

/// First position at or after `p` holding a newline (or the end); a line
/// comment runs to here.
pub open spec fn comment_end(src: Seq<char>, p: int) -> int
    decreases src.len() - p,
{
    if 0 <= p < src.len() && src[p] != '\n' {
        comment_end(src, p + 1)
    } else {
        p
    }
}

/// First position at or after `p` holding a closing quote (or the end).
pub open spec fn string_end(src: Seq<char>, p: int) -> int
    decreases src.len() - p,
{
    if 0 <= p < src.len() && src[p] != '"' {
        string_end(src, p + 1)
    } else {
        p
    }
}

/// How many newline characters `src` holds in positions `[a, b)`.
pub open spec fn newlines_between(src: Seq<char>, a: int, b: int) -> nat
    decreases b - a,
{
    if a < b && 0 <= a < src.len() {
        (if src[a] == '\n' {
            1nat
        } else {
            0nat
        }) + newlines_between(src, a + 1, b)
    } else {
        0nat
    }
}

/// Where a numeric literal starting at `pos` ends: its digits, then one
/// optional fraction of a dot followed by at least one digit.
pub open spec fn number_end(src: Seq<char>, pos: int) -> int {
    let whole = digits_end(src, pos + 1);
    if whole < src.len() && src[whole] == '.' && whole + 1 < src.len() && is_digit_char(src[whole + 1]) {
        digits_end(src, whole + 2)
    } else {
        whole
    }
}

pub open spec fn tok(
    tokentype: TokenType,
    lexeme: Seq<char>,
    literal: Seq<char>,
    line: nat,
) -> TokenModel {
    TokenModel { lexeme, tokentype, literal, line }
}

pub open spec fn eof_token(line: nat) -> TokenModel {
    tok(TokenType::Eof, Seq::empty(), Seq::empty(), line)
}

/// Guards the lexer's recursion: continue from `q` when it lies past `p` and
/// within the source, else step one character.  Every real continuation
/// position lies past `p` and within bounds, so this never changes the
/// meaning; it only makes the decrease plain.
pub open spec fn step_to(src: Seq<char>, p: int, q: int) -> int {
    if p < q <= src.len() {
        q
    } else {
        p + 1
    }
}

/// Prepends one token to the output of lexing a remainder.
pub open spec fn with_tok(t: TokenModel, rest: LexOut) -> LexOut {
    LexOut { toks: seq![t] + rest.toks, errs: rest.errs }
}

/// Prepends one recorded error to the output of lexing a remainder.
pub open spec fn with_err(e: ErrorModel, rest: LexOut) -> LexOut {
    LexOut { toks: rest.toks, errs: seq![e] + rest.errs }
}

/// The lexer, one token at a time: the tokens and errors of the source from
/// `pos` onward, with `line` the current line count.
pub open spec fn lex_from(src: Seq<char>, pos: int, line: nat) -> LexOut
    decreases src.len() - pos, 0int,
{
    if !(0 <= pos < src.len()) {
        LexOut { toks: seq![eof_token(line)], errs: Seq::empty() }
    } else {
        let c = src[pos];
        if c == '(' {
            with_tok(tok(TokenType::LeftParen, seq![c], Seq::empty(), line), lex_from(src, pos + 1, line))
        } else if c == ')' {
            with_tok(tok(TokenType::RightParen, seq![c], Seq::empty(), line), lex_from(src, pos + 1, line))
        } else if c == '{' {
            with_tok(tok(TokenType::LeftBrace, seq![c], Seq::empty(), line), lex_from(src, pos + 1, line))
        } else if c == '}' {
            with_tok(tok(TokenType::RightBrace, seq![c], Seq::empty(), line), lex_from(src, pos + 1, line))
        } else if c == ',' {
            with_tok(tok(TokenType::Comma, seq![c], Seq::empty(), line), lex_from(src, pos + 1, line))
        } else if c == '.' {
            with_tok(tok(TokenType::Dot, seq![c], Seq::empty(), line), lex_from(src, pos + 1, line))
        } else if c == '-' {
            with_tok(tok(TokenType::Minus, seq![c], Seq::empty(), line), lex_from(src, pos + 1, line))
        } else if c == '+' {
            with_tok(tok(TokenType::Plus, seq![c], Seq::empty(), line), lex_from(src, pos + 1, line))
        } else if c == ';' {
            with_tok(tok(TokenType::SemiColon, seq![c], Seq::empty(), line), lex_from(src, pos + 1, line))
        } else if c == '*' {
            with_tok(tok(TokenType::Star, seq![c], Seq::empty(), line), lex_from(src, pos + 1, line))
        } else if c == '!' {
            if pos + 1 < src.len() && src[pos + 1] == '=' {
                with_tok(tok(TokenType::BangEqual, seq![c, '='], Seq::empty(), line), lex_from(src, pos + 2, line))
            } else {
                with_tok(tok(TokenType::Bang, seq![c], Seq::empty(), line), lex_from(src, pos + 1, line))
            }
        } else if c == '=' {
            if pos + 1 < src.len() && src[pos + 1] == '=' {
                with_tok(tok(TokenType::EqualEqual, seq![c, '='], Seq::empty(), line), lex_from(src, pos + 2, line))
            } else {
                with_tok(tok(TokenType::Equal, seq![c], Seq::empty(), line), lex_from(src, pos + 1, line))
            }
        } else if c == '<' {
            if pos + 1 < src.len() && src[pos + 1] == '=' {
                with_tok(tok(TokenType::LessEqual, seq![c, '='], Seq::empty(), line), lex_from(src, pos + 2, line))
            } else {
                with_tok(tok(TokenType::Less, seq![c], Seq::empty(), line), lex_from(src, pos + 1, line))
            }
        } else if c == '>' {
            if pos + 1 < src.len() && src[pos + 1] == '=' {
                with_tok(tok(TokenType::GreaterEqual, seq![c, '='], Seq::empty(), line), lex_from(src, pos + 2, line))
            } else {
                with_tok(tok(TokenType::Greater, seq![c], Seq::empty(), line), lex_from(src, pos + 1, line))
            }
        } else if c == '/' {
            if pos + 1 < src.len() && src[pos + 1] == '/' {
                // A line comment: discard through the end of the line.
                lex_from(src, step_to(src, pos, comment_end(src, pos + 2)), line)
            } else {
                with_tok(tok(TokenType::Slash, seq![c], Seq::empty(), line), lex_from(src, pos + 1, line))
            }
        } else if c == ' ' || c == '\r' || c == '\t' {
            lex_from(src, pos + 1, line)
        } else if c == '\n' {
            lex_from(src, pos + 1, line + 1)
        } else if c == '"' {
            let close = string_end(src, pos + 1);
            let line2 = line + newlines_between(src, pos + 1, close);
            if close >= src.len() {
                // End of input before the closing quote: record and stop.
                with_err(ErrorModel { kind: ErrorKind::UnterminatedString, line: line2 }, lex_from(src, step_to(src, pos, close), line2))
            } else {
                with_tok(
                    tok(TokenType::String, src.subrange(pos, close + 1), src.subrange(pos + 1, close), line2),
                    lex_from(src, step_to(src, pos, close + 1), line2),
                )
            }
        } else if is_digit_char(c) {
            let end = number_end(src, pos);
            let text = src.subrange(pos, step_to(src, pos, end));
            with_tok(tok(TokenType::Number, text, text, line), lex_from(src, step_to(src, pos, end), line))
        } else if is_alpha_char(c) {
            let end = alnum_end(src, pos + 1);
            let text = src.subrange(pos, step_to(src, pos, end));
            with_tok(tok(keyword_kind(text), text, Seq::empty(), line), lex_from(src, step_to(src, pos, end), line))
        } else {
            with_err(ErrorModel { kind: ErrorKind::UnexpectedCharacter, line }, lex_from(src, pos + 1, line))
        }
    }
}

/// The whole lexer: from the first character, on line one.
pub open spec fn lex_spec(src: Seq<char>) -> LexOut {
    lex_from(src, 0, 1)
}

/// The token sequences, viewed mathematically, of a token vector.
pub open spec fn deep_toks(s: Seq<Token>) -> Seq<TokenModel> {
    s.map_values(|t: Token| t@)
}

pub open spec fn deep_errs(s: Seq<Error>) -> Seq<ErrorModel> {
    s.map_values(|e: Error| e@)
}

// ---------------------------------------------------------------------------
// Facts about the scan-ahead helpers, used while relating the executable
// scanner's loops to the model.
// ---------------------------------------------------------------------------
pub proof fn lemma_digits_end_bounds(src: Seq<char>, p: int)
    requires
        0 <= p <= src.len(),
    ensures
        p <= digits_end(src, p) <= src.len(),
    decreases src.len() - p,
{
    if p < src.len() && is_digit_char(src[p]) {
        lemma_digits_end_bounds(src, p + 1);
    }
}

pub proof fn lemma_alnum_end_bounds(src: Seq<char>, p: int)
    requires
        0 <= p <= src.len(),
    ensures
        p <= alnum_end(src, p) <= src.len(),
    decreases src.len() - p,
{
    if p < src.len() && is_alnum_char(src[p]) {
        lemma_alnum_end_bounds(src, p + 1);
    }
}

pub proof fn lemma_comment_end_bounds(src: Seq<char>, p: int)
    requires
        0 <= p <= src.len(),
    ensures
        p <= comment_end(src, p) <= src.len(),
    decreases src.len() - p,
{
    if p < src.len() && src[p] != '\n' {
        lemma_comment_end_bounds(src, p + 1);
    }
}

pub proof fn lemma_string_end_bounds(src: Seq<char>, p: int)
    requires
        0 <= p <= src.len(),
    ensures
        p <= string_end(src, p) <= src.len(),
    decreases src.len() - p,
{
    if p < src.len() && src[p] != '"' {
        lemma_string_end_bounds(src, p + 1);
    }
}

/// Counting newlines one position further to the right adds the newline
/// standing there, if any.
pub proof fn lemma_newlines_snoc(src: Seq<char>, a: int, b: int)
    requires
        a <= b,
        0 <= a,
        b < src.len(),
    ensures
        newlines_between(src, a, b + 1) == newlines_between(src, a, b) + (
        if src[b] == '\n' {
            1nat
        } else {
            0nat
        }),
    decreases b - a,
{
    if a < b {
        lemma_newlines_snoc(src, a + 1, b);
    } else {
        assert(newlines_between(src, a + 1, b + 1) == 0nat);
        assert(newlines_between(src, a, b) == 0nat);
    }
}

/// Newlines counted between equal bounds are none.
pub proof fn lemma_newlines_empty(src: Seq<char>, a: int)
    ensures
        newlines_between(src, a, a) == 0nat,
{
}

// ---------------------------------------------------------------------------
// The executable scanner.
// ---------------------------------------------------------------------------
/// The lexer: consumes a source string in one pass, emitting tokens and
/// best-effort error records, and finishing with an `Eof` token.
pub struct Scanner {
    pub source: std::string::String,
    pub tokens: Vec<Token>,
    pub errors: Vec<Error>,
    pub start: usize,
    pub current: usize,
    pub line: usize,
}

impl Scanner {
    pub open spec fn src(&self) -> Seq<char> {
        self.source@
    }

    /// The state every freshly built scanner starts in.
    pub open spec fn fresh(&self) -> bool {
        &&& self.tokens@ == Seq::<Token>::empty()
        &&& self.errors@ == Seq::<Error>::empty()
        &&& self.start == 0
        &&& self.current == 0
        &&& self.line == 1
    }

    pub fn new(script: std::string::String) -> (r: Scanner)
        ensures
            r.fresh(),
            r.src() == script@,
    {
        Scanner {
            source: script,
            tokens: Vec::new(),
            errors: Vec::new(),
            start: 0,
            current: 0,
            line: 1,
        }
    }

    fn source_len(&self) -> (r: usize)
        ensures
            r == self.src().len(),
    {
        self.source.as_str().unicode_len()
    }

    fn at_end(&self) -> (r: bool)
        ensures
            r == (self.current >= self.src().len()),
    {
        self.current >= self.source_len()
    }

    fn advance(&mut self) -> (c: char)
        requires
            old(self).current < old(self).src().len(),
            old(self).src().len() <= usize::MAX,
        ensures
            c == old(self).src()[old(self).current as int],
            *final(self) == (Scanner { current: (old(self).current + 1) as usize, ..*old(self) }),
    {
        let c = self.source.as_str().get_char(self.current);
        self.current = self.current + 1;
        c
    }

    fn peek(&self) -> (c: char)
        ensures
            c == (if self.current < self.src().len() {
                self.src()[self.current as int]
            } else {
                '\0'
            }),
    {
        if self.at_end() {
            return '\0';
        }
        self.source.as_str().get_char(self.current)
    }

    fn peek_next(&self) -> (c: char)
        requires
            self.current < usize::MAX,
        ensures
            c == (if self.current + 1 < self.src().len() {
                self.src()[self.current + 1]
            } else {
                '\0'
            }),
    {
        if self.current + 1 >= self.source_len() {
            return '\0';
        }
        self.source.as_str().get_char(self.current + 1)
    }

    fn token_match(&mut self, expected: char) -> (r: bool)
        requires
            old(self).current <= old(self).src().len(),
            old(self).src().len() <= usize::MAX,
        ensures
            r == (old(self).current < old(self).src().len() && old(self).src()[old(self).current as int] == expected),
            r ==> *final(self) == (Scanner { current: (old(self).current + 1) as usize, ..*old(self) }),
            !r ==> *final(self) == *old(self),
    {
        if self.at_end() {
            return false;
        }
        if self.source.as_str().get_char(self.current) != expected {
            return false;
        }
        self.current = self.current + 1;
        true
    }

    fn is_digit(&self, c: char) -> (r: bool)
        ensures
            r == is_digit_char(c),
    {
        c >= '0' && c <= '9'
    }

    fn is_alpha(&self, c: char) -> (r: bool)
        ensures
            r == is_alpha_char(c),
    {
        (c >= 'a' && c <= 'z') || (c >= 'A' && c <= 'Z') || c == '_'
    }

    fn is_alphanumeric(&self, c: char) -> (r: bool)
        ensures
            r == is_alnum_char(c),
    {
        self.is_alpha(c) || self.is_digit(c)
    }

    /// Emits one token covering the source slice `[start, current)`.
    fn add_token(&mut self, tokentype: TokenType, literal: std::string::String)
        requires
            old(self).start <= old(self).current <= old(self).src().len(),
        ensures
            *final(self) == (Scanner {
                tokens: final(self).tokens,
                ..*old(self)
            }),
            final(self).tokens@.len() == old(self).tokens@.len() + 1,
            final(self).tokens@.subrange(0, old(self).tokens@.len() as int) == old(self).tokens@,
            final(self).tokens@.last()@ == tok(
                tokentype,
                old(self).src().subrange(old(self).start as int, old(self).current as int),
                literal@,
                old(self).line as nat,
            ),
    {
        let text: std::string::String = self.source.as_str().substring_char(self.start, self.current).to_owned();
        let ghost pre = self.tokens@;
        self.tokens.push(Token { lexeme: text, tokentype, literal, line: self.line });
        assert(self.tokens@.subrange(0, pre.len() as int) =~= pre);
    }

    /// Scans the remainder of a numeric literal whose first digit stands just
    /// before `current`.
    fn number(&mut self)
        requires
            old(self).current >= 1,
            old(self).start == old(self).current - 1,
            old(self).current <= old(self).src().len(),
            old(self).src().len() < usize::MAX,
        ensures
            final(self).source == old(self).source,
            final(self).errors@ == old(self).errors@,
            final(self).line == old(self).line,
            final(self).start == old(self).start,
            final(self).current as int == number_end(old(self).src(), old(self).start as int),
            final(self).current <= final(self).src().len(),
            final(self).tokens@.len() == old(self).tokens@.len() + 1,
            final(self).tokens@.subrange(0, old(self).tokens@.len() as int) == old(self).tokens@,
            final(self).tokens@.last()@ == ({
                let end = number_end(old(self).src(), old(self).start as int);
                let text = old(self).src().subrange(old(self).start as int, end);
                tok(TokenType::Number, text, text, old(self).line as nat)
            }),
    {
        let ghost src = self.src();
        let ghost p = self.start as int;
        while self.is_digit(self.peek())
            invariant
                src == self.src(),
                src.len() < usize::MAX,
                self.source == old(self).source,
                self.errors@ == old(self).errors@,
                self.tokens@ == old(self).tokens@,
                self.line == old(self).line,
                self.start == old(self).start,
                old(self).current <= self.current <= src.len(),
                digits_end(src, old(self).current as int) == digits_end(src, self.current as int),
            decreases src.len() - self.current,
        {
            self.advance();
        }
        proof {
            lemma_digits_end_bounds(src, old(self).current as int);
        }
        let ghost whole = self.current as int;
        assert(whole == digits_end(src, p + 1));
        if self.peek() == '.' && self.is_digit(self.peek_next()) {
            self.advance();
            self.advance();
            while self.is_digit(self.peek())
                invariant
                    src == self.src(),
                    src.len() < usize::MAX,
                    self.source == old(self).source,
                    self.errors@ == old(self).errors@,
                    self.tokens@ == old(self).tokens@,
                    self.line == old(self).line,
                    self.start == old(self).start,
                    whole + 2 <= self.current <= src.len(),
                    digits_end(src, whole + 2) == digits_end(src, self.current as int),
                decreases src.len() - self.current,
            {
                self.advance();
            }
            proof {
                lemma_digits_end_bounds(src, whole + 2);
            }
        }
        assert(self.current as int == number_end(src, p));
        let ghost line0 = self.line;
        let text: std::string::String = {
            let t = self.source.as_str().substring_char(self.start, self.current);
            t.to_owned()
        };
        self.add_token(TokenType::Number, text);
    }

    /// Scans the remainder of a string literal whose opening quote stands just
    /// before `current`; records the unterminated case.
    fn read_string(&mut self)
        requires
            old(self).current >= 1,
            old(self).start == old(self).current - 1,
            old(self).current <= old(self).src().len(),
            old(self).src().len() < usize::MAX,
            old(self).line as nat <= old(self).current as nat,
        ensures
            final(self).source == old(self).source,
            final(self).start == old(self).start,
            final(self).line as nat == old(self).line as nat + newlines_between(
                old(self).src(),
                old(self).current as int,
                string_end(old(self).src(), old(self).current as int),
            ),
            final(self).line as nat <= final(self).current as nat + 1,
            ({
                let src = old(self).src();
                let close = string_end(src, old(self).current as int);
                if close >= src.len() {
                    &&& final(self).tokens@ == old(self).tokens@
                    &&& final(self).errors@.len() == old(self).errors@.len() + 1
                    &&& final(self).errors@.subrange(0, old(self).errors@.len() as int) == old(self).errors@
                    &&& final(self).errors@.last()@ == (ErrorModel {
                        kind: ErrorKind::UnterminatedString,
                        line: final(self).line as nat,
                    })
                    &&& final(self).current == src.len()
                } else {
                    &&& final(self).errors@ == old(self).errors@
                    &&& final(self).tokens@.len() == old(self).tokens@.len() + 1
                    &&& final(self).tokens@.subrange(0, old(self).tokens@.len() as int) == old(self).tokens@
                    &&& final(self).tokens@.last()@ == tok(
                        TokenType::String,
                        src.subrange(old(self).start as int, close + 1),
                        src.subrange(old(self).start as int + 1, close),
                        final(self).line as nat,
                    )
                    &&& final(self).current == close + 1
                }
            }),
    {
        let ghost src = self.src();
        let ghost c0 = self.current as int;
        while self.peek() != '"' && !self.at_end()
            invariant
                src == self.src(),
                src.len() < usize::MAX,
                self.source == old(self).source,
                self.errors@ == old(self).errors@,
                self.tokens@ == old(self).tokens@,
                self.start == old(self).start,
                0 <= c0 <= self.current <= src.len(),
                string_end(src, c0) == string_end(src, self.current as int),
                self.line as nat == old(self).line as nat + newlines_between(src, c0, self.current as int),
                self.line as nat <= self.current as nat,
            decreases src.len() - self.current,
        {
            proof {
                lemma_newlines_snoc(src, c0, self.current as int);
            }
            if self.peek() == '\n' {
                self.line = self.line + 1;
            }
            self.advance();
        }
        let ghost close = string_end(src, c0);
        assert(close == self.current as int);
        if self.at_end() {
            let e = Error::new(ErrorKind::UnterminatedString, self.line);
            let ghost pre = self.errors@;
            self.errors.push(e);
            assert(self.errors@.subrange(0, pre.len() as int) =~= pre);
            return;
        }
        self.advance();
        let text: std::string::String = {
            let t = self.source.as_str().substring_char(self.start + 1, self.current - 1);
            t.to_owned()
        };
        self.add_token(TokenType::String, text);
    }

    /// Scans the remainder of an identifier or keyword whose first character
    /// stands just before `current`.
    fn identifier(&mut self)
        requires
            old(self).current >= 1,
            old(self).start == old(self).current - 1,
            old(self).current <= old(self).src().len(),
            old(self).src().len() < usize::MAX,
        ensures
            final(self).source == old(self).source,
            final(self).errors@ == old(self).errors@,
            final(self).line == old(self).line,
            final(self).start == old(self).start,
            final(self).current as int == alnum_end(old(self).src(), old(self).current as int),
            final(self).current <= final(self).src().len(),
            final(self).tokens@.len() == old(self).tokens@.len() + 1,
            final(self).tokens@.subrange(0, old(self).tokens@.len() as int) == old(self).tokens@,
            final(self).tokens@.last()@ == ({
                let end = alnum_end(old(self).src(), old(self).current as int);
                let text = old(self).src().subrange(old(self).start as int, end);
                tok(keyword_kind(text), text, Seq::empty(), old(self).line as nat)
            }),
    {
        let ghost src = self.src();
        while self.is_alphanumeric(self.peek())
            invariant
                src == self.src(),
                src.len() < usize::MAX,
                self.source == old(self).source,
                self.errors@ == old(self).errors@,
                self.tokens@ == old(self).tokens@,
                self.line == old(self).line,
                self.start == old(self).start,
                old(self).current <= self.current <= src.len(),
                alnum_end(src, old(self).current as int) == alnum_end(src, self.current as int),
            decreases src.len() - self.current,
        {
            self.advance();
        }
        proof {
            lemma_alnum_end_bounds(src, old(self).current as int);
        }
        let text: std::string::String = {
            let t = self.source.as_str().substring_char(self.start, self.current);
            t.to_owned()
        };
        let kind = keyword_or_identifier(&text);
        self.add_token(kind, std::string::String::new());
    }
}

/// True when the two strings hold the same characters.
pub(crate) fn text_eq(a: &str, b: &str) -> (r: bool)
    ensures
        r == (a@ == b@),
{
    let x = a.to_owned();
    let y = b.to_owned();
    x == y
}

/// Resolves identifier text against the keyword table.
fn keyword_or_identifier(text: &std::string::String) -> (r: TokenType)
    ensures
        r == keyword_kind(text@),
{
    let t = text.as_str();
    if text_eq(t, "and") {
        TokenType::And
    } else if text_eq(t, "class") {
        TokenType::Class
    } else if text_eq(t, "else") {
        TokenType::Else
    } else if text_eq(t, "false") {
        TokenType::False
    } else if text_eq(t, "for") {
        TokenType::For
    } else if text_eq(t, "function") {
        TokenType::Fun
    } else if text_eq(t, "if") {
        TokenType::If
    } else if text_eq(t, "nil") {
        TokenType::Nil
    } else if text_eq(t, "or") {
        TokenType::Or
    } else if text_eq(t, "print") {
        TokenType::Print
    } else if text_eq(t, "return") {
        TokenType::Return
    } else if text_eq(t, "super") {
        TokenType::Super
    } else if text_eq(t, "this") {
        TokenType::This
    } else if text_eq(t, "true") {
        TokenType::True
    } else if text_eq(t, "var") {
        TokenType::Var
    } else if text_eq(t, "while") {
        TokenType::While
    } else {
        TokenType::Identifier
    }
}


// ---------------------------------------------------------------------------
// Step lemmas: one scanned unit advances the model by exactly the emitted
// tokens and errors.
// ---------------------------------------------------------------------------
proof fn lemma_one_tok_step(
    src: Seq<char>,
    p0: int,
    l0: nat,
    t0: Seq<Token>,
    tnew: Seq<Token>,
    e0: Seq<Error>,
    enew: Seq<Error>,
    m: TokenModel,
    cur2: int,
    line2: nat,
)
    requires
        lex_from(src, p0, l0) == with_tok(m, lex_from(src, cur2, line2)),
        tnew.len() == t0.len() + 1,
        tnew.subrange(0, t0.len() as int) == t0,
        tnew.last()@ == m,
        enew == e0,
    ensures
        lex_from(src, p0, l0).toks == deep_toks(tnew.skip(t0.len() as int)) + lex_from(src, cur2, line2).toks,
        lex_from(src, p0, l0).errs == deep_errs(enew.skip(e0.len() as int)) + lex_from(src, cur2, line2).errs,
{
    assert(tnew.skip(t0.len() as int) =~= seq![tnew.last()]);
    assert(deep_toks(tnew.skip(t0.len() as int)) =~= seq![m]);
    assert(deep_errs(enew.skip(e0.len() as int)) =~= Seq::<ErrorModel>::empty());
    assert(lex_from(src, p0, l0).toks =~= deep_toks(tnew.skip(t0.len() as int)) + lex_from(src, cur2, line2).toks);
    assert(lex_from(src, p0, l0).errs =~= deep_errs(enew.skip(e0.len() as int)) + lex_from(src, cur2, line2).errs);
}

proof fn lemma_no_tok_step(
    src: Seq<char>,
    p0: int,
    l0: nat,
    t0: Seq<Token>,
    e0: Seq<Error>,
    cur2: int,
    line2: nat,
)
    requires
        lex_from(src, p0, l0) == lex_from(src, cur2, line2),
    ensures
        lex_from(src, p0, l0).toks == deep_toks(t0.skip(t0.len() as int)) + lex_from(src, cur2, line2).toks,
        lex_from(src, p0, l0).errs == deep_errs(e0.skip(e0.len() as int)) + lex_from(src, cur2, line2).errs,
{
    assert(deep_toks(t0.skip(t0.len() as int)) =~= Seq::<TokenModel>::empty());
    assert(deep_errs(e0.skip(e0.len() as int)) =~= Seq::<ErrorModel>::empty());
    assert(lex_from(src, p0, l0).toks =~= deep_toks(t0.skip(t0.len() as int)) + lex_from(src, cur2, line2).toks);
    assert(lex_from(src, p0, l0).errs =~= deep_errs(e0.skip(e0.len() as int)) + lex_from(src, cur2, line2).errs);
}

proof fn lemma_one_err_step(
    src: Seq<char>,
    p0: int,
    l0: nat,
    t0: Seq<Token>,
    tnew: Seq<Token>,
    e0: Seq<Error>,
    enew: Seq<Error>,
    m: ErrorModel,
    cur2: int,
    line2: nat,
)
    requires
        lex_from(src, p0, l0) == with_err(m, lex_from(src, cur2, line2)),
        enew.len() == e0.len() + 1,
        enew.subrange(0, e0.len() as int) == e0,
        enew.last()@ == m,
        tnew == t0,
    ensures
        lex_from(src, p0, l0).toks == deep_toks(tnew.skip(t0.len() as int)) + lex_from(src, cur2, line2).toks,
        lex_from(src, p0, l0).errs == deep_errs(enew.skip(e0.len() as int)) + lex_from(src, cur2, line2).errs,
{
    assert(enew.skip(e0.len() as int) =~= seq![enew.last()]);
    assert(deep_errs(enew.skip(e0.len() as int)) =~= seq![m]);
    assert(deep_toks(tnew.skip(t0.len() as int)) =~= Seq::<TokenModel>::empty());
    assert(lex_from(src, p0, l0).toks =~= deep_toks(tnew.skip(t0.len() as int)) + lex_from(src, cur2, line2).toks);
    assert(lex_from(src, p0, l0).errs =~= deep_errs(enew.skip(e0.len() as int)) + lex_from(src, cur2, line2).errs);
}

impl Scanner {
    /// Scans one unit: exactly the tokens and errors the model assigns to the
    /// source from `current` are emitted, and position and line move as the
    /// model says.
    fn scan_token(&mut self)
        requires
            old(self).current < old(self).src().len(),
            old(self).src().len() < usize::MAX,
            old(self).start == old(self).current,
            old(self).line as nat <= old(self).current as nat + 1,
        ensures
            final(self).source == old(self).source,
            old(self).current < final(self).current <= final(self).src().len(),
            final(self).line as nat <= final(self).current as nat + 1,
            final(self).tokens@.len() >= old(self).tokens@.len(),
            final(self).tokens@.subrange(0, old(self).tokens@.len() as int) == old(self).tokens@,
            final(self).errors@.len() >= old(self).errors@.len(),
            final(self).errors@.subrange(0, old(self).errors@.len() as int) == old(self).errors@,
            lex_from(old(self).src(), old(self).current as int, old(self).line as nat).toks == deep_toks(
                final(self).tokens@.skip(old(self).tokens@.len() as int),
            ) + lex_from(old(self).src(), final(self).current as int, final(self).line as nat).toks,
            lex_from(old(self).src(), old(self).current as int, old(self).line as nat).errs == deep_errs(
                final(self).errors@.skip(old(self).errors@.len() as int),
            ) + lex_from(old(self).src(), final(self).current as int, final(self).line as nat).errs,
    {
        let ghost src = self.src();
        let ghost p0 = self.current as int;
        let ghost l0 = self.line as nat;
        let ghost t0 = self.tokens@;
        let ghost e0 = self.errors@;
        let c = self.advance();
        if c == '(' {
            self.add_token(TokenType::LeftParen, std::string::String::new());
            proof {
                assert(src.subrange(p0, p0 + 1) =~= seq![c]);
                lemma_one_tok_step(src, p0, l0, t0, self.tokens@, e0, self.errors@, tok(TokenType::LeftParen, seq![c], Seq::empty(), l0), p0 + 1, l0);
            }
        } else if c == ')' {
            self.add_token(TokenType::RightParen, std::string::String::new());
            proof {
                assert(src.subrange(p0, p0 + 1) =~= seq![c]);
                lemma_one_tok_step(src, p0, l0, t0, self.tokens@, e0, self.errors@, tok(TokenType::RightParen, seq![c], Seq::empty(), l0), p0 + 1, l0);
            }
        } else if c == '{' {
            self.add_token(TokenType::LeftBrace, std::string::String::new());
            proof {
                assert(src.subrange(p0, p0 + 1) =~= seq![c]);
                lemma_one_tok_step(src, p0, l0, t0, self.tokens@, e0, self.errors@, tok(TokenType::LeftBrace, seq![c], Seq::empty(), l0), p0 + 1, l0);
            }
        } else if c == '}' {
            self.add_token(TokenType::RightBrace, std::string::String::new());
            proof {
                assert(src.subrange(p0, p0 + 1) =~= seq![c]);
                lemma_one_tok_step(src, p0, l0, t0, self.tokens@, e0, self.errors@, tok(TokenType::RightBrace, seq![c], Seq::empty(), l0), p0 + 1, l0);
            }
        } else if c == ',' {
            self.add_token(TokenType::Comma, std::string::String::new());
            proof {
                assert(src.subrange(p0, p0 + 1) =~= seq![c]);
                lemma_one_tok_step(src, p0, l0, t0, self.tokens@, e0, self.errors@, tok(TokenType::Comma, seq![c], Seq::empty(), l0), p0 + 1, l0);
            }
        } else if c == '.' {
            self.add_token(TokenType::Dot, std::string::String::new());
            proof {
                assert(src.subrange(p0, p0 + 1) =~= seq![c]);
                lemma_one_tok_step(src, p0, l0, t0, self.tokens@, e0, self.errors@, tok(TokenType::Dot, seq![c], Seq::empty(), l0), p0 + 1, l0);
            }
        } else if c == '-' {
            self.add_token(TokenType::Minus, std::string::String::new());
            proof {
                assert(src.subrange(p0, p0 + 1) =~= seq![c]);
                lemma_one_tok_step(src, p0, l0, t0, self.tokens@, e0, self.errors@, tok(TokenType::Minus, seq![c], Seq::empty(), l0), p0 + 1, l0);
            }
        } else if c == '+' {
            self.add_token(TokenType::Plus, std::string::String::new());
            proof {
                assert(src.subrange(p0, p0 + 1) =~= seq![c]);
                lemma_one_tok_step(src, p0, l0, t0, self.tokens@, e0, self.errors@, tok(TokenType::Plus, seq![c], Seq::empty(), l0), p0 + 1, l0);
            }
        } else if c == ';' {
            self.add_token(TokenType::SemiColon, std::string::String::new());
            proof {
                assert(src.subrange(p0, p0 + 1) =~= seq![c]);
                lemma_one_tok_step(src, p0, l0, t0, self.tokens@, e0, self.errors@, tok(TokenType::SemiColon, seq![c], Seq::empty(), l0), p0 + 1, l0);
            }
        } else if c == '*' {
            self.add_token(TokenType::Star, std::string::String::new());
            proof {
                assert(src.subrange(p0, p0 + 1) =~= seq![c]);
                lemma_one_tok_step(src, p0, l0, t0, self.tokens@, e0, self.errors@, tok(TokenType::Star, seq![c], Seq::empty(), l0), p0 + 1, l0);
            }
        } else if c == '!' {
            if self.token_match('=') {
                self.add_token(TokenType::BangEqual, std::string::String::new());
                proof {
                    assert(src.subrange(p0, p0 + 2) =~= seq![c, '=']);
                    lemma_one_tok_step(src, p0, l0, t0, self.tokens@, e0, self.errors@, tok(TokenType::BangEqual, seq![c, '='], Seq::empty(), l0), p0 + 2, l0);
                }
            } else {
                self.add_token(TokenType::Bang, std::string::String::new());
                proof {
                    assert(src.subrange(p0, p0 + 1) =~= seq![c]);
                    lemma_one_tok_step(src, p0, l0, t0, self.tokens@, e0, self.errors@, tok(TokenType::Bang, seq![c], Seq::empty(), l0), p0 + 1, l0);
                }
            }
        } else if c == '=' {
            if self.token_match('=') {
                self.add_token(TokenType::EqualEqual, std::string::String::new());
                proof {
                    assert(src.subrange(p0, p0 + 2) =~= seq![c, '=']);
                    lemma_one_tok_step(src, p0, l0, t0, self.tokens@, e0, self.errors@, tok(TokenType::EqualEqual, seq![c, '='], Seq::empty(), l0), p0 + 2, l0);
                }
            } else {
                self.add_token(TokenType::Equal, std::string::String::new());
                proof {
                    assert(src.subrange(p0, p0 + 1) =~= seq![c]);
                    lemma_one_tok_step(src, p0, l0, t0, self.tokens@, e0, self.errors@, tok(TokenType::Equal, seq![c], Seq::empty(), l0), p0 + 1, l0);
                }
            }
        } else if c == '<' {
            if self.token_match('=') {
                self.add_token(TokenType::LessEqual, std::string::String::new());
                proof {
                    assert(src.subrange(p0, p0 + 2) =~= seq![c, '=']);
                    lemma_one_tok_step(src, p0, l0, t0, self.tokens@, e0, self.errors@, tok(TokenType::LessEqual, seq![c, '='], Seq::empty(), l0), p0 + 2, l0);
                }
            } else {
                self.add_token(TokenType::Less, std::string::String::new());
                proof {
                    assert(src.subrange(p0, p0 + 1) =~= seq![c]);
                    lemma_one_tok_step(src, p0, l0, t0, self.tokens@, e0, self.errors@, tok(TokenType::Less, seq![c], Seq::empty(), l0), p0 + 1, l0);
                }
            }
        } else if c == '>' {
            if self.token_match('=') {
                self.add_token(TokenType::GreaterEqual, std::string::String::new());
                proof {
                    assert(src.subrange(p0, p0 + 2) =~= seq![c, '=']);
                    lemma_one_tok_step(src, p0, l0, t0, self.tokens@, e0, self.errors@, tok(TokenType::GreaterEqual, seq![c, '='], Seq::empty(), l0), p0 + 2, l0);
                }
            } else {
                self.add_token(TokenType::Greater, std::string::String::new());
                proof {
                    assert(src.subrange(p0, p0 + 1) =~= seq![c]);
                    lemma_one_tok_step(src, p0, l0, t0, self.tokens@, e0, self.errors@, tok(TokenType::Greater, seq![c], Seq::empty(), l0), p0 + 1, l0);
                }
            }
        } else if c == '/' {
            if self.token_match('/') {
                while self.peek() != '\n' && !self.at_end()
                    invariant
                        src == self.src(),
                        src.len() < usize::MAX,
                        self.source == old(self).source,
                        self.errors@ == e0,
                        self.tokens@ == t0,
                        self.line == old(self).line,
                        self.start == old(self).start,
                        p0 + 2 <= self.current <= src.len(),
                        comment_end(src, p0 + 2) == comment_end(src, self.current as int),
                    decreases src.len() - self.current,
                {
                    self.advance();
                }
                proof {
                    lemma_comment_end_bounds(src, p0 + 2);
                    assert(self.current as int == comment_end(src, p0 + 2));
                    lemma_no_tok_step(src, p0, l0, t0, e0, self.current as int, l0);
                }
            } else {
                self.add_token(TokenType::Slash, std::string::String::new());
                proof {
                    assert(src.subrange(p0, p0 + 1) =~= seq![c]);
                    lemma_one_tok_step(src, p0, l0, t0, self.tokens@, e0, self.errors@, tok(TokenType::Slash, seq![c], Seq::empty(), l0), p0 + 1, l0);
                }
            }
        } else if c == ' ' || c == '\r' || c == '\t' {
            proof {
                lemma_no_tok_step(src, p0, l0, t0, e0, p0 + 1, l0);
            }
        } else if c == '\n' {
            self.line = self.line + 1;
            proof {
                lemma_no_tok_step(src, p0, l0, t0, e0, p0 + 1, l0 + 1);
            }
        } else if c == '"' {
            self.read_string();
            proof {
                let close = string_end(src, p0 + 1);
                lemma_string_end_bounds(src, p0 + 1);
                let line2 = l0 + newlines_between(src, p0 + 1, close);
                if close >= src.len() {
                    lemma_one_err_step(
                        src, p0, l0, t0, self.tokens@, e0, self.errors@,
                        ErrorModel { kind: ErrorKind::UnterminatedString, line: line2 },
                        step_to(src, p0, close), line2,
                    );
                } else {
                    lemma_one_tok_step(
                        src, p0, l0, t0, self.tokens@, e0, self.errors@,
                        tok(TokenType::String, src.subrange(p0, close + 1), src.subrange(p0 + 1, close), line2),
                        step_to(src, p0, close + 1), line2,
                    );
                }
            }
        } else if self.is_digit(c) {
            self.number();
            proof {
                lemma_digits_end_bounds(src, p0 + 1);
                let whole = digits_end(src, p0 + 1);
                if whole < src.len() && src[whole] == '.' && whole + 1 < src.len() && is_digit_char(src[whole + 1]) {
                    lemma_digits_end_bounds(src, whole + 2);
                }
                let end = number_end(src, p0);
                assert(step_to(src, p0, end) == end);
                let text = src.subrange(p0, end);
                lemma_one_tok_step(src, p0, l0, t0, self.tokens@, e0, self.errors@, tok(TokenType::Number, text, text, l0), end, l0);
            }
        } else if self.is_alpha(c) {
            self.identifier();
            proof {
                lemma_alnum_end_bounds(src, p0 + 1);
                let end = alnum_end(src, p0 + 1);
                assert(step_to(src, p0, end) == end);
                let text = src.subrange(p0, end);
                lemma_one_tok_step(src, p0, l0, t0, self.tokens@, e0, self.errors@, tok(keyword_kind(text), text, Seq::empty(), l0), end, l0);
            }
        } else {
            let e = Error::new(ErrorKind::UnexpectedCharacter, self.line);
            let ghost pre = self.errors@;
            self.errors.push(e);
            proof {
                assert(self.errors@.subrange(0, pre.len() as int) =~= pre);
                lemma_one_err_step(
                    src, p0, l0, t0, self.tokens@, e0, self.errors@,
                    ErrorModel { kind: ErrorKind::UnexpectedCharacter, line: l0 },
                    p0 + 1, l0,
                );
            }
        }
    }

    /// Lexes the whole source: the returned tokens, and the recorded errors,
    /// are exactly what the model assigns to the source text.
    pub fn scan_tokens(&mut self) -> (r: Vec<Token>)
        requires
            old(self).fresh(),
            old(self).src().len() < usize::MAX,
        ensures
            final(self).source == old(self).source,
            r@ == final(self).tokens@,
            deep_toks(r@) == lex_spec(old(self).src()).toks,
            deep_errs(final(self).errors@) == lex_spec(old(self).src()).errs,
    {
        let ghost src = self.src();
        while !self.at_end()
            invariant
                src == self.src(),
                src.len() < usize::MAX,
                self.source == old(self).source,
                self.current <= src.len(),
                self.line as nat <= self.current as nat + 1,
                lex_spec(src).toks == deep_toks(self.tokens@) + lex_from(src, self.current as int, self.line as nat).toks,
                lex_spec(src).errs == deep_errs(self.errors@) + lex_from(src, self.current as int, self.line as nat).errs,
            decreases src.len() - self.current,
        {
            self.start = self.current;
            let ghost t_pre = self.tokens@;
            let ghost e_pre = self.errors@;
            self.scan_token();
            proof {
                let delta_t = self.tokens@.skip(t_pre.len() as int);
                let delta_e = self.errors@.skip(e_pre.len() as int);
                assert(self.tokens@ =~= t_pre + delta_t);
                assert(self.errors@ =~= e_pre + delta_e);
                assert(deep_toks(t_pre + delta_t) =~= deep_toks(t_pre) + deep_toks(delta_t));
                assert(deep_errs(e_pre + delta_e) =~= deep_errs(e_pre) + deep_errs(delta_e));
                assert(lex_spec(src).toks =~= deep_toks(self.tokens@) + lex_from(src, self.current as int, self.line as nat).toks);
                assert(lex_spec(src).errs =~= deep_errs(self.errors@) + lex_from(src, self.current as int, self.line as nat).errs);
            }
        }
        self.start = self.current;
        let ghost t_pre = self.tokens@;
        self.add_token(TokenType::Eof, std::string::String::new());
        proof {
            assert(lex_from(src, self.current as int, self.line as nat).toks =~= seq![eof_token(self.line as nat)]);
            assert(lex_from(src, self.current as int, self.line as nat).errs =~= Seq::<ErrorModel>::empty());
            assert(src.subrange(self.current as int, self.current as int) =~= Seq::<char>::empty());
            assert(self.tokens@ =~= t_pre + seq![self.tokens@.last()]);
            assert(deep_toks(t_pre + seq![self.tokens@.last()]) =~= deep_toks(t_pre) + seq![self.tokens@.last()@]);
            assert(deep_toks(self.tokens@) =~= lex_spec(src).toks);
            assert(deep_errs(self.errors@) =~= lex_spec(src).errs);
        }
        let r = crate::token::duplicate_tokens(&self.tokens);
        assert(deep_toks(r@) =~= deep_toks(self.tokens@));
        r
    }
}

} // verus!

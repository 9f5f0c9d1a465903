use vstd::prelude::*;

use crate::errors::{Error, ErrorKind, ErrorModel};
use crate::expressions::{expr_view, ExprModel, Expression, FunctionType, Object, ObjectModel};
use crate::numbers::{is_number_string, is_number_text, num_of_text, num_parse};
use crate::scanner::{deep_errs, deep_toks};
use crate::statements::{stmt_view, Statement, StmtModel};
use crate::token::{Token, TokenModel, TokenType};

verus! {

// ---------------------------------------------------------------------------
// The parser's mathematical model: recursive descent over the token
// sequence, one function per grammar level.  Each function takes the
// position of its first token and returns the parsed tree with the position
// after it, or the error and the position where parsing stopped.
//
// `step_tok` only guards the recursion: every real continuation position
// lies past the entry position and within the list, and then `step_tok`
// returns it unchanged.
// ---------------------------------------------------------------------------
pub open spec fn step_tok(n: int, p: int, q: int) -> int {
    if p < q <= n {
        q
    } else {
        p + 1
    }
}

/// The well-formed token lists: what the lexer produces.  One end-of-input
/// sentinel, standing last.
pub open spec fn wf_tokens(t: Seq<TokenModel>) -> bool {
    &&& t.len() >= 1
    &&& t.last().tokentype == TokenType::Eof
    &&& forall|i: int| 0 <= i < t.len() - 1 ==> (#[trigger] t[i].tokentype) != TokenType::Eof
}

pub open spec fn perr(t: Seq<TokenModel>, kind: ErrorKind, p: int) -> (ErrorModel, int) {
    (ErrorModel { kind, line: t[p].line }, p)
}

/// Expects one token of the given kind at `p`.
pub open spec fn p_expect(t: Seq<TokenModel>, p: int, tt: TokenType) -> Result<
    (TokenModel, int),
    (ErrorModel, int),
> {
    if !(0 <= p < t.len()) {
        Err((ErrorModel { kind: ErrorKind::UnexpectedToken, line: 0 }, p))
    } else if t[p].tokentype == tt {
        Ok((t[p], p + 1))
    } else {
        Err(perr(t, ErrorKind::UnexpectedToken, p))
    }
}

#[verifier::opaque]
pub open spec fn p_expression(t: Seq<TokenModel>, p: int) -> Result<
    (ExprModel, int),
    (ErrorModel, int),
>
    decreases t.len() - p, 16int,
{
    if !(0 <= p < t.len()) {
        Err((ErrorModel { kind: ErrorKind::UnexpectedToken, line: 0 }, p))
    } else {
        p_assignment(t, p)
    }
}

/// Assignment is right-associative; the target must be a variable (becoming
/// `Assign`) or a property access (becoming `SetProperty`).
#[verifier::opaque]
pub open spec fn p_assignment(t: Seq<TokenModel>, p: int) -> Result<
    (ExprModel, int),
    (ErrorModel, int),
>
    decreases t.len() - p, 15int,
{
    let n = t.len() as int;
    if !(0 <= p < n) {
        Err((ErrorModel { kind: ErrorKind::UnexpectedToken, line: 0 }, p))
    } else {
        match p_or(t, p) {
            Err(e) => Err(e),
            Ok((target, p1)) => {
                if 0 <= p1 < n && t[p1].tokentype == TokenType::Equal {
                    match p_assignment(t, step_tok(n, p, p1 + 1)) {
                        Err(e) => Err(e),
                        Ok((value, p2)) => match target {
                            ExprModel::Variable { name } => Ok(
                                (ExprModel::Assign { name, value: Box::new(value) }, p2),
                            ),
                            ExprModel::Get { object, name } => Ok(
                                (
                                    ExprModel::SetProperty {
                                        object,
                                        name,
                                        value: Box::new(value),
                                    },
                                    p2,
                                ),
                            ),
                            _ => Err(
                                (
                                    ErrorModel {
                                        kind: ErrorKind::InvalidAssignmentTarget,
                                        line: t[p1].line,
                                    },
                                    p2,
                                ),
                            ),
                        },
                    }
                } else {
                    Ok((target, p1))
                }
            },
        }
    }
}

#[verifier::opaque]
pub open spec fn p_or(t: Seq<TokenModel>, p: int) -> Result<(ExprModel, int), (ErrorModel, int)>
    decreases t.len() - p, 14int,
{
    if !(0 <= p < t.len()) {
        Err((ErrorModel { kind: ErrorKind::UnexpectedToken, line: 0 }, p))
    } else {
        match p_and(t, p) {
            Err(e) => Err(e),
            Ok((first, p1)) => p_or_tail(t, first, step_tok(t.len() as int, p, p1)),
        }
    }
}

#[verifier::opaque]
pub open spec fn p_or_tail(t: Seq<TokenModel>, left: ExprModel, p: int) -> Result<
    (ExprModel, int),
    (ErrorModel, int),
>
    decreases t.len() - p, 13int,
{
    let n = t.len() as int;
    if 0 <= p < n && t[p].tokentype == TokenType::Or {
        match p_and(t, p + 1) {
            Err(e) => Err(e),
            Ok((right, p2)) => p_or_tail(
                t,
                ExprModel::Logical {
                    left: Box::new(left),
                    operator: t[p],
                    right: Box::new(right),
                },
                step_tok(n, p, p2),
            ),
        }
    } else {
        Ok((left, p))
    }
}

#[verifier::opaque]
pub open spec fn p_and(t: Seq<TokenModel>, p: int) -> Result<(ExprModel, int), (ErrorModel, int)>
    decreases t.len() - p, 12int,
{
    if !(0 <= p < t.len()) {
        Err((ErrorModel { kind: ErrorKind::UnexpectedToken, line: 0 }, p))
    } else {
        match p_equality(t, p) {
            Err(e) => Err(e),
            Ok((first, p1)) => p_and_tail(t, first, step_tok(t.len() as int, p, p1)),
        }
    }
}

#[verifier::opaque]
pub open spec fn p_and_tail(t: Seq<TokenModel>, left: ExprModel, p: int) -> Result<
    (ExprModel, int),
    (ErrorModel, int),
>
    decreases t.len() - p, 11int,
{
    let n = t.len() as int;
    if 0 <= p < n && t[p].tokentype == TokenType::And {
        match p_equality(t, p + 1) {
            Err(e) => Err(e),
            Ok((right, p2)) => p_and_tail(
                t,
                ExprModel::Logical {
                    left: Box::new(left),
                    operator: t[p],
                    right: Box::new(right),
                },
                step_tok(n, p, p2),
            ),
        }
    } else {
        Ok((left, p))
    }
}

pub open spec fn is_equality_op(tt: TokenType) -> bool {
    tt == TokenType::BangEqual || tt == TokenType::EqualEqual
}

#[verifier::opaque]
pub open spec fn p_equality(t: Seq<TokenModel>, p: int) -> Result<
    (ExprModel, int),
    (ErrorModel, int),
>
    decreases t.len() - p, 10int,
{
    if !(0 <= p < t.len()) {
        Err((ErrorModel { kind: ErrorKind::UnexpectedToken, line: 0 }, p))
    } else {
        match p_comparison(t, p) {
            Err(e) => Err(e),
            Ok((first, p1)) => p_equality_tail(t, first, step_tok(t.len() as int, p, p1)),
        }
    }
}

#[verifier::opaque]
pub open spec fn p_equality_tail(t: Seq<TokenModel>, left: ExprModel, p: int) -> Result<
    (ExprModel, int),
    (ErrorModel, int),
>
    decreases t.len() - p, 9int,
{
    let n = t.len() as int;
    if 0 <= p < n && is_equality_op(t[p].tokentype) {
        match p_comparison(t, p + 1) {
            Err(e) => Err(e),
            Ok((right, p2)) => p_equality_tail(
                t,
                ExprModel::Binary {
                    left: Box::new(left),
                    operator: t[p],
                    right: Box::new(right),
                },
                step_tok(n, p, p2),
            ),
        }
    } else {
        Ok((left, p))
    }
}

pub open spec fn is_comparison_op(tt: TokenType) -> bool {
    tt == TokenType::Greater || tt == TokenType::GreaterEqual || tt == TokenType::Less || tt
        == TokenType::LessEqual
}

#[verifier::opaque]
pub open spec fn p_comparison(t: Seq<TokenModel>, p: int) -> Result<
    (ExprModel, int),
    (ErrorModel, int),
>
    decreases t.len() - p, 8int,
{
    if !(0 <= p < t.len()) {
        Err((ErrorModel { kind: ErrorKind::UnexpectedToken, line: 0 }, p))
    } else {
        match p_term(t, p) {
            Err(e) => Err(e),
            Ok((first, p1)) => p_comparison_tail(t, first, step_tok(t.len() as int, p, p1)),
        }
    }
}

#[verifier::opaque]
pub open spec fn p_comparison_tail(t: Seq<TokenModel>, left: ExprModel, p: int) -> Result<
    (ExprModel, int),
    (ErrorModel, int),
>
    decreases t.len() - p, 7int,
{
    let n = t.len() as int;
    if 0 <= p < n && is_comparison_op(t[p].tokentype) {
        match p_term(t, p + 1) {
            Err(e) => Err(e),
            Ok((right, p2)) => p_comparison_tail(
                t,
                ExprModel::Binary {
                    left: Box::new(left),
                    operator: t[p],
                    right: Box::new(right),
                },
                step_tok(n, p, p2),
            ),
        }
    } else {
        Ok((left, p))
    }
}

pub open spec fn is_term_op(tt: TokenType) -> bool {
    tt == TokenType::Minus || tt == TokenType::Plus
}

#[verifier::opaque]
pub open spec fn p_term(t: Seq<TokenModel>, p: int) -> Result<(ExprModel, int), (ErrorModel, int)>
    decreases t.len() - p, 6int,
{
    if !(0 <= p < t.len()) {
        Err((ErrorModel { kind: ErrorKind::UnexpectedToken, line: 0 }, p))
    } else {
        match p_factor(t, p) {
            Err(e) => Err(e),
            Ok((first, p1)) => p_term_tail(t, first, step_tok(t.len() as int, p, p1)),
        }
    }
}

#[verifier::opaque]
pub open spec fn p_term_tail(t: Seq<TokenModel>, left: ExprModel, p: int) -> Result<
    (ExprModel, int),
    (ErrorModel, int),
>
    decreases t.len() - p, 5int,
{
    let n = t.len() as int;
    if 0 <= p < n && is_term_op(t[p].tokentype) {
        match p_factor(t, p + 1) {
            Err(e) => Err(e),
            Ok((right, p2)) => p_term_tail(
                t,
                ExprModel::Binary {
                    left: Box::new(left),
                    operator: t[p],
                    right: Box::new(right),
                },
                step_tok(n, p, p2),
            ),
        }
    } else {
        Ok((left, p))
    }
}

pub open spec fn is_factor_op(tt: TokenType) -> bool {
    tt == TokenType::Slash || tt == TokenType::Star
}

#[verifier::opaque]
pub open spec fn p_factor(t: Seq<TokenModel>, p: int) -> Result<(ExprModel, int), (ErrorModel, int)>
    decreases t.len() - p, 4int,
{
    if !(0 <= p < t.len()) {
        Err((ErrorModel { kind: ErrorKind::UnexpectedToken, line: 0 }, p))
    } else {
        match p_unary(t, p) {
            Err(e) => Err(e),
            Ok((first, p1)) => p_factor_tail(t, first, step_tok(t.len() as int, p, p1)),
        }
    }
}

#[verifier::opaque]
pub open spec fn p_factor_tail(t: Seq<TokenModel>, left: ExprModel, p: int) -> Result<
    (ExprModel, int),
    (ErrorModel, int),
>
    decreases t.len() - p, 3int,
{
    let n = t.len() as int;
    if 0 <= p < n && is_factor_op(t[p].tokentype) {
        match p_unary(t, p + 1) {
            Err(e) => Err(e),
            Ok((right, p2)) => p_factor_tail(
                t,
                ExprModel::Binary {
                    left: Box::new(left),
                    operator: t[p],
                    right: Box::new(right),
                },
                step_tok(n, p, p2),
            ),
        }
    } else {
        Ok((left, p))
    }
}

#[verifier::opaque]
pub open spec fn p_unary(t: Seq<TokenModel>, p: int) -> Result<(ExprModel, int), (ErrorModel, int)>
    decreases t.len() - p, 2int,
{
    let n = t.len() as int;
    if !(0 <= p < n) {
        Err((ErrorModel { kind: ErrorKind::UnexpectedToken, line: 0 }, p))
    } else if t[p].tokentype == TokenType::Bang || t[p].tokentype == TokenType::Minus {
        match p_unary(t, p + 1) {
            Err(e) => Err(e),
            Ok((right, p2)) => Ok(
                (ExprModel::Unary { operator: t[p], right: Box::new(right) }, p2),
            ),
        }
    } else {
        p_call(t, p)
    }
}

#[verifier::opaque]
pub open spec fn p_call(t: Seq<TokenModel>, p: int) -> Result<(ExprModel, int), (ErrorModel, int)>
    decreases t.len() - p, 1int,
{
    if !(0 <= p < t.len()) {
        Err((ErrorModel { kind: ErrorKind::UnexpectedToken, line: 0 }, p))
    } else {
        match p_primary(t, p) {
            Err(e) => Err(e),
            Ok((first, p1)) => p_call_tail(t, first, step_tok(t.len() as int, p, p1)),
        }
    }
}

/// Suffixes of a call chain: argument lists and property accesses.
#[verifier::opaque]
pub open spec fn p_call_tail(t: Seq<TokenModel>, callee: ExprModel, p: int) -> Result<
    (ExprModel, int),
    (ErrorModel, int),
>
    decreases t.len() - p, 0int,
{
    let n = t.len() as int;
    if 0 <= p < n && t[p].tokentype == TokenType::LeftParen {
        match p_arguments(t, p + 1) {
            Err(e) => Err(e),
            Ok((arguments, paren, p2)) => p_call_tail(
                t,
                ExprModel::Call { callee: Box::new(callee), paren, arguments },
                step_tok(n, p, p2),
            ),
        }
    } else if 0 <= p < n && t[p].tokentype == TokenType::Dot {
        match p_expect(t, p + 1, TokenType::Identifier) {
            Err(e) => Err(e),
            Ok((name, p2)) => p_call_tail(
                t,
                ExprModel::Get { object: Box::new(callee), name },
                step_tok(n, p, p2),
            ),
        }
    } else {
        Ok((callee, p))
    }
}

/// The argument list after an opening parenthesis, through the closing one,
/// which is returned as the call's `paren` token.
#[verifier::opaque]
pub open spec fn p_arguments(t: Seq<TokenModel>, p: int) -> Result<
    (Seq<ExprModel>, TokenModel, int),
    (ErrorModel, int),
>
    decreases t.len() - p, 18int,
{
    let n = t.len() as int;
    if !(0 <= p < n) {
        Err((ErrorModel { kind: ErrorKind::UnexpectedToken, line: 0 }, p))
    } else if t[p].tokentype == TokenType::RightParen {
        Ok((Seq::empty(), t[p], p + 1))
    } else {
        match p_expression(t, p) {
            Err(e) => Err(e),
            Ok((first, p1)) => p_arguments_more(t, seq![first], step_tok(n, p, p1)),
        }
    }
}

#[verifier::opaque]
pub open spec fn p_arguments_more(t: Seq<TokenModel>, acc: Seq<ExprModel>, p: int) -> Result<
    (Seq<ExprModel>, TokenModel, int),
    (ErrorModel, int),
>
    decreases t.len() - p, 17int,
{
    let n = t.len() as int;
    if 0 <= p < n && t[p].tokentype == TokenType::Comma {
        if acc.len() >= 255 {
            Err((ErrorModel { kind: ErrorKind::TooManyArguments, line: t[p].line }, p))
        } else {
            match p_expression(t, p + 1) {
                Err(e) => Err(e),
                Ok((next, p2)) => p_arguments_more(t, acc.push(next), step_tok(n, p, p2)),
            }
        }
    } else {
        match p_expect(t, p, TokenType::RightParen) {
            Err(e) => Err(e),
            Ok((paren, p2)) => Ok((acc, paren, p2)),
        }
    }
}

/// Primary expressions: literals, `this`, `super.method`, parenthesized
/// expressions, and plain identifiers.
#[verifier::opaque]
pub open spec fn p_primary(t: Seq<TokenModel>, p: int) -> Result<
    (ExprModel, int),
    (ErrorModel, int),
>
    decreases t.len() - p, 0int,
{
    let n = t.len() as int;
    if !(0 <= p < n) {
        Err((ErrorModel { kind: ErrorKind::UnexpectedToken, line: 0 }, p))
    } else if t[p].tokentype == TokenType::False {
        Ok((ExprModel::Literal { value: ObjectModel::BoolV(false) }, p + 1))
    } else if t[p].tokentype == TokenType::True {
        Ok((ExprModel::Literal { value: ObjectModel::BoolV(true) }, p + 1))
    } else if t[p].tokentype == TokenType::Nil {
        Ok((ExprModel::Literal { value: ObjectModel::NilV }, p + 1))
    } else if t[p].tokentype == TokenType::Number {
        if is_number_text(t[p].literal) {
            Ok((ExprModel::Literal { value: ObjectModel::NumberV(num_of_text(t[p].literal)) }, p + 1))
        } else {
            Err(perr(t, ErrorKind::UnexpectedToken, p))
        }
    } else if t[p].tokentype == TokenType::String {
        Ok((ExprModel::Literal { value: ObjectModel::StringV(t[p].literal) }, p + 1))
    } else if t[p].tokentype == TokenType::Identifier {
        Ok((ExprModel::Variable { name: t[p] }, p + 1))
    } else if t[p].tokentype == TokenType::This {
        Ok((ExprModel::This { keyword: t[p] }, p + 1))
    } else if t[p].tokentype == TokenType::Super {
        match p_expect(t, p + 1, TokenType::Dot) {
            Err(e) => Err(e),
            Ok((_d, p1)) => match p_expect(t, p1, TokenType::Identifier) {
                Err(e) => Err(e),
                Ok((method, p2)) => Ok((ExprModel::Super { keyword: t[p], method }, p2)),
            },
        }
    } else if t[p].tokentype == TokenType::LeftParen {
        match p_expression(t, p + 1) {
            Err(e) => Err(e),
            Ok((inner, p1)) => match p_expect(t, step_tok(n, p, p1), TokenType::RightParen) {
                Err(e) => Err(e),
                Ok((_rp, p2)) => Ok((ExprModel::Grouping { expression: Box::new(inner) }, p2)),
            },
        }
    } else {
        Err(perr(t, ErrorKind::UnexpectedToken, p))
    }
}


// ---------------------------------------------------------------------------
// Statement-level grammar.
// ---------------------------------------------------------------------------
#[verifier::opaque]
pub open spec fn p_declaration(t: Seq<TokenModel>, p: int) -> Result<
    (StmtModel, int),
    (ErrorModel, int),
>
    decreases t.len() - p, 30int,
{
    let n = t.len() as int;
    if !(0 <= p < n) {
        Err((ErrorModel { kind: ErrorKind::UnexpectedToken, line: 0 }, p))
    } else if t[p].tokentype == TokenType::Var {
        p_var_declaration(t, p + 1)
    } else if t[p].tokentype == TokenType::Fun {
        p_function(t, p + 1, FunctionType::Function)
    } else if t[p].tokentype == TokenType::Class {
        p_class(t, p + 1)
    } else {
        p_statement(t, p)
    }
}

#[verifier::opaque]
pub open spec fn p_statement(t: Seq<TokenModel>, p: int) -> Result<
    (StmtModel, int),
    (ErrorModel, int),
>
    decreases t.len() - p, 29int,
{
    let n = t.len() as int;
    if !(0 <= p < n) {
        Err((ErrorModel { kind: ErrorKind::UnexpectedToken, line: 0 }, p))
    } else if t[p].tokentype == TokenType::Print {
        p_print_statement(t, p + 1)
    } else if t[p].tokentype == TokenType::LeftBrace {
        p_block(t, p)
    } else if t[p].tokentype == TokenType::If {
        p_if_statement(t, p + 1)
    } else if t[p].tokentype == TokenType::While {
        p_while_statement(t, p + 1)
    } else if t[p].tokentype == TokenType::For {
        p_for_statement(t, p + 1)
    } else if t[p].tokentype == TokenType::Return {
        p_return_statement(t, t[p], p + 1)
    } else {
        p_expression_statement(t, p)
    }
}

#[verifier::opaque]
pub open spec fn p_print_statement(t: Seq<TokenModel>, p: int) -> Result<
    (StmtModel, int),
    (ErrorModel, int),
>
    decreases t.len() - p, 27int,
{
    match p_expression(t, p) {
        Err(e) => Err(e),
        Ok((e1, p1)) => match p_expect(t, p1, TokenType::SemiColon) {
            Err(e) => Err(e),
            Ok((_s, p2)) => Ok((StmtModel::Print { expression: e1 }, p2)),
        },
    }
}

#[verifier::opaque]
pub open spec fn p_expression_statement(t: Seq<TokenModel>, p: int) -> Result<
    (StmtModel, int),
    (ErrorModel, int),
>
    decreases t.len() - p, 27int,
{
    match p_expression(t, p) {
        Err(e) => Err(e),
        Ok((e1, p1)) => match p_expect(t, p1, TokenType::SemiColon) {
            Err(e) => Err(e),
            Ok((_s, p2)) => Ok((StmtModel::Expression { expression: e1 }, p2)),
        },
    }
}

#[verifier::opaque]
pub open spec fn p_var_declaration(t: Seq<TokenModel>, p: int) -> Result<
    (StmtModel, int),
    (ErrorModel, int),
>
    decreases t.len() - p, 27int,
{
    let n = t.len() as int;
    match p_expect(t, p, TokenType::Identifier) {
        Err(e) => Err(e),
        Ok((name, p1)) => {
            if 0 <= p1 < n && t[p1].tokentype == TokenType::Equal {
                match p_expression(t, p1 + 1) {
                    Err(e) => Err(e),
                    Ok((init, p2)) => match p_expect(t, p2, TokenType::SemiColon) {
                        Err(e) => Err(e),
                        Ok((_s, p3)) => Ok(
                            (StmtModel::Variable { name, init: Some(init) }, p3),
                        ),
                    },
                }
            } else {
                match p_expect(t, p1, TokenType::SemiColon) {
                    Err(e) => Err(e),
                    Ok((_s, p2)) => Ok((StmtModel::Variable { name, init: None }, p2)),
                }
            }
        },
    }
}

#[verifier::opaque]
pub open spec fn p_return_statement(t: Seq<TokenModel>, keyword: TokenModel, p: int) -> Result<
    (StmtModel, int),
    (ErrorModel, int),
>
    decreases t.len() - p, 27int,
{
    let n = t.len() as int;
    if 0 <= p < n && t[p].tokentype == TokenType::SemiColon {
        Ok((StmtModel::Return { keyword, value: None }, p + 1))
    } else {
        match p_expression(t, p) {
            Err(e) => Err(e),
            Ok((e1, p1)) => match p_expect(t, p1, TokenType::SemiColon) {
                Err(e) => Err(e),
                Ok((_s, p2)) => Ok((StmtModel::Return { keyword, value: Some(e1) }, p2)),
            },
        }
    }
}

#[verifier::opaque]
pub open spec fn p_block(t: Seq<TokenModel>, p: int) -> Result<(StmtModel, int), (ErrorModel, int)>
    decreases t.len() - p, 28int,
{
    match p_expect(t, p, TokenType::LeftBrace) {
        Err(e) => Err(e),
        Ok((_lb, p1)) => match p_block_items(t, Seq::empty(), p1) {
            Err(e) => Err(e),
            Ok((items, p2)) => match p_expect(t, p2, TokenType::RightBrace) {
                Err(e) => Err(e),
                Ok((_rb, p3)) => Ok((StmtModel::Block { statements: items }, p3)),
            },
        },
    }
}

#[verifier::opaque]
pub open spec fn p_block_items(t: Seq<TokenModel>, acc: Seq<StmtModel>, p: int) -> Result<
    (Seq<StmtModel>, int),
    (ErrorModel, int),
>
    decreases t.len() - p, 31int,
{
    let n = t.len() as int;
    if !(0 <= p < n) || t[p].tokentype == TokenType::RightBrace || t[p].tokentype
        == TokenType::Eof {
        Ok((acc, p))
    } else {
        match p_declaration(t, p) {
            Err(e) => Err(e),
            Ok((s1, p1)) => p_block_items(t, acc.push(s1), step_tok(n, p, p1)),
        }
    }
}

#[verifier::opaque]
pub open spec fn p_if_statement(t: Seq<TokenModel>, p: int) -> Result<
    (StmtModel, int),
    (ErrorModel, int),
>
    decreases t.len() - p, 27int,
{
    let n = t.len() as int;
    match p_expect(t, p, TokenType::LeftParen) {
        Err(e) => Err(e),
        Ok((_lp, p1)) => match p_expression(t, p1) {
            Err(e) => Err(e),
            Ok((cond, p2)) => match p_expect(t, p2, TokenType::RightParen) {
                Err(e) => Err(e),
                Ok((_rp, p3)) => match p_block(t, step_tok(n, p, p3)) {
                    Err(e) => Err(e),
                    Ok((then_b, p4)) => {
                        if 0 <= p4 < n && t[p4].tokentype == TokenType::Else {
                            match p_block(t, step_tok(n, p, p4 + 1)) {
                                Err(e) => Err(e),
                                Ok((else_b, p5)) => Ok(
                                    (
                                        StmtModel::If {
                                            condition: cond,
                                            then_branch: Box::new(then_b),
                                            else_branch: Some(Box::new(else_b)),
                                        },
                                        p5,
                                    ),
                                ),
                            }
                        } else {
                            Ok(
                                (
                                    StmtModel::If {
                                        condition: cond,
                                        then_branch: Box::new(then_b),
                                        else_branch: None,
                                    },
                                    p4,
                                ),
                            )
                        }
                    },
                },
            },
        },
    }
}

#[verifier::opaque]
pub open spec fn p_while_statement(t: Seq<TokenModel>, p: int) -> Result<
    (StmtModel, int),
    (ErrorModel, int),
>
    decreases t.len() - p, 27int,
{
    let n = t.len() as int;
    match p_expect(t, p, TokenType::LeftParen) {
        Err(e) => Err(e),
        Ok((_lp, p1)) => match p_expression(t, p1) {
            Err(e) => Err(e),
            Ok((cond, p2)) => match p_expect(t, p2, TokenType::RightParen) {
                Err(e) => Err(e),
                Ok((_rp, p3)) => match p_block(t, step_tok(n, p, p3)) {
                    Err(e) => Err(e),
                    Ok((body, p4)) => Ok(
                        (StmtModel::While { condition: cond, body: Box::new(body) }, p4),
                    ),
                },
            },
        },
    }
}

#[verifier::opaque]
pub open spec fn p_for_statement(t: Seq<TokenModel>, p: int) -> Result<
    (StmtModel, int),
    (ErrorModel, int),
>
    decreases t.len() - p, 27int,
{
    let n = t.len() as int;
    match p_expect(t, p, TokenType::LeftParen) {
        Err(e) => Err(e),
        Ok((_lp, p1)) => {
            let init_res: Result<(Option<StmtModel>, int), (ErrorModel, int)> = if 0 <= p1 < n
                && t[p1].tokentype == TokenType::SemiColon {
                Ok((None, p1 + 1))
            } else if 0 <= p1 < n && t[p1].tokentype == TokenType::Var {
                match p_var_declaration(t, step_tok(n, p, p1 + 1)) {
                    Err(e) => Err(e),
                    Ok((s1, q)) => Ok((Some(s1), q)),
                }
            } else {
                match p_expression_statement(t, step_tok(n, p, p1)) {
                    Err(e) => Err(e),
                    Ok((s1, q)) => Ok((Some(s1), q)),
                }
            };
            match init_res {
                Err(e) => Err(e),
                Ok((init, p2)) => {
                    let cond_res: Result<(Option<ExprModel>, int), (ErrorModel, int)> = if 0 <= p2
                        < n && t[p2].tokentype == TokenType::SemiColon {
                        Ok((None, p2))
                    } else {
                        match p_expression(t, step_tok(n, p, p2)) {
                            Err(e) => Err(e),
                            Ok((c1, q)) => Ok((Some(c1), q)),
                        }
                    };
                    match cond_res {
                        Err(e) => Err(e),
                        Ok((cond, p3)) => match p_expect(t, p3, TokenType::SemiColon) {
                            Err(e) => Err(e),
                            Ok((_s, p4)) => {
                                let incr_res: Result<
                                    (Option<ExprModel>, int),
                                    (ErrorModel, int),
                                > = if 0 <= p4 < n && t[p4].tokentype == TokenType::RightParen {
                                    Ok((None, p4))
                                } else {
                                    match p_expression(t, step_tok(n, p, p4)) {
                                        Err(e) => Err(e),
                                        Ok((i1, q)) => Ok((Some(i1), q)),
                                    }
                                };
                                match incr_res {
                                    Err(e) => Err(e),
                                    Ok((incr, p5)) => match p_expect(
                                        t,
                                        p5,
                                        TokenType::RightParen,
                                    ) {
                                        Err(e) => Err(e),
                                        Ok((_rp, p6)) => match p_block(t, step_tok(n, p, p6)) {
                                            Err(e) => Err(e),
                                            Ok((body, p7)) => Ok(
                                                (
                                                    StmtModel::For {
                                                        init: match init {
                                                            Some(s1) => Some(Box::new(s1)),
                                                            None => None,
                                                        },
                                                        condition: cond,
                                                        increment: incr,
                                                        body: Box::new(body),
                                                    },
                                                    p7,
                                                ),
                                            ),
                                        },
                                    },
                                }
                            },
                        },
                    }
                },
            }
        },
    }
}

/// A function or method declaration, after its introducing keyword: name,
/// parameter list, block body.
#[verifier::opaque]
pub open spec fn p_function(t: Seq<TokenModel>, p: int, functype: FunctionType) -> Result<
    (StmtModel, int),
    (ErrorModel, int),
>
    decreases t.len() - p, 29int,
{
    let n = t.len() as int;
    match p_expect(t, p, TokenType::Identifier) {
        Err(e) => Err(e),
        Ok((name, p1)) => match p_expect(t, p1, TokenType::LeftParen) {
            Err(e) => Err(e),
            Ok((_lp, p2)) => match p_parameters(t, step_tok(n, p, p2)) {
                Err(e) => Err(e),
                Ok((params, p3)) => match p_expect(t, p3, TokenType::RightParen) {
                    Err(e) => Err(e),
                    Ok((_rp, p4)) => match p_block(t, step_tok(n, p, p4)) {
                        Err(e) => Err(e),
                        Ok((body, p5)) => Ok(
                            (
                                StmtModel::Function {
                                    name,
                                    params,
                                    body: Box::new(body),
                                    functype,
                                },
                                p5,
                            ),
                        ),
                    },
                },
            },
        },
    }
}

#[verifier::opaque]
pub open spec fn p_parameters(t: Seq<TokenModel>, p: int) -> Result<
    (Seq<TokenModel>, int),
    (ErrorModel, int),
>
    decreases t.len() - p, 1int,
{
    let n = t.len() as int;
    if !(0 <= p < n) {
        Err((ErrorModel { kind: ErrorKind::UnexpectedToken, line: 0 }, p))
    } else if t[p].tokentype == TokenType::RightParen {
        Ok((Seq::empty(), p))
    } else {
        match p_expect(t, p, TokenType::Identifier) {
            Err(e) => Err(e),
            Ok((first, p1)) => p_parameters_more(t, seq![first], step_tok(n, p, p1)),
        }
    }
}

#[verifier::opaque]
pub open spec fn p_parameters_more(t: Seq<TokenModel>, acc: Seq<TokenModel>, p: int) -> Result<
    (Seq<TokenModel>, int),
    (ErrorModel, int),
>
    decreases t.len() - p, 0int,
{
    let n = t.len() as int;
    if 0 <= p < n && t[p].tokentype == TokenType::Comma {
        if acc.len() >= 255 {
            Err((ErrorModel { kind: ErrorKind::TooManyArguments, line: t[p].line }, p))
        } else {
            match p_expect(t, p + 1, TokenType::Identifier) {
                Err(e) => Err(e),
                Ok((next, p2)) => p_parameters_more(t, acc.push(next), step_tok(n, p, p2)),
            }
        }
    } else {
        Ok((acc, p))
    }
}

/// A class declaration after the `class` keyword: name, optional `<`
/// superclass name, and a braced method list.
#[verifier::opaque]
pub open spec fn p_class(t: Seq<TokenModel>, p: int) -> Result<(StmtModel, int), (ErrorModel, int)>
    decreases t.len() - p, 27int,
{
    let n = t.len() as int;
    match p_expect(t, p, TokenType::Identifier) {
        Err(e) => Err(e),
        Ok((name, p1)) => {
            let sup_res: Result<(Option<TokenModel>, int), (ErrorModel, int)> = if 0 <= p1 < n
                && t[p1].tokentype == TokenType::Less {
                match p_expect(t, p1 + 1, TokenType::Identifier) {
                    Err(e) => Err(e),
                    Ok((sup, q)) => Ok((Some(sup), q)),
                }
            } else {
                Ok((None, p1))
            };
            match sup_res {
                Err(e) => Err(e),
                Ok((superclass, p2)) => match p_expect(t, p2, TokenType::LeftBrace) {
                    Err(e) => Err(e),
                    Ok((_lb, p3)) => match p_class_methods(t, Seq::empty(), step_tok(n, p, p3)) {
                        Err(e) => Err(e),
                        Ok((methods, p4)) => match p_expect(t, p4, TokenType::RightBrace) {
                            Err(e) => Err(e),
                            Ok((_rb, p5)) => Ok(
                                (StmtModel::Class { name, superclass, methods }, p5),
                            ),
                        },
                    },
                },
            }
        },
    }
}

#[verifier::opaque]
pub open spec fn p_class_methods(t: Seq<TokenModel>, acc: Seq<StmtModel>, p: int) -> Result<
    (Seq<StmtModel>, int),
    (ErrorModel, int),
>
    decreases t.len() - p, 31int,
{
    let n = t.len() as int;
    if !(0 <= p < n) || t[p].tokentype == TokenType::RightBrace || t[p].tokentype
        == TokenType::Eof {
        Ok((acc, p))
    } else {
        match p_function(t, p, FunctionType::Method) {
            Err(e) => Err(e),
            Ok((m, p1)) => p_class_methods(t, acc.push(m), step_tok(n, p, p1)),
        }
    }
}

// ---------------------------------------------------------------------------
// Recovery and the whole program.
// ---------------------------------------------------------------------------
pub open spec fn is_sync_keyword(tt: TokenType) -> bool {
    tt == TokenType::Class || tt == TokenType::Fun || tt == TokenType::Var || tt == TokenType::For
        || tt == TokenType::If || tt == TokenType::While || tt == TokenType::Print || tt
        == TokenType::Return
}

#[verifier::opaque]
pub open spec fn sync_scan(t: Seq<TokenModel>, p: int) -> int
    decreases t.len() - p,
{
    let n = t.len() as int;
    if !(0 <= p < n) || t[p].tokentype == TokenType::Eof {
        p
    } else if p >= 1 && t[p - 1].tokentype == TokenType::SemiColon {
        p
    } else if is_sync_keyword(t[p].tokentype) {
        p
    } else {
        sync_scan(t, p + 1)
    }
}

/// Where parsing resumes after an error at `p`: skip one token, then skip to
/// just after a semicolon or to the next statement keyword.
pub open spec fn sync_pos(t: Seq<TokenModel>, p: int) -> int {
    let n = t.len() as int;
    if 0 <= p < n && t[p].tokentype != TokenType::Eof {
        sync_scan(t, p + 1)
    } else {
        sync_scan(t, p)
    }
}

/// The whole program: declarations until the end-of-input sentinel, errors
/// recorded and skipped past.
#[verifier::opaque]
pub open spec fn p_program(t: Seq<TokenModel>, p: int) -> (Seq<StmtModel>, Seq<ErrorModel>)
    decreases t.len() - p,
{
    let n = t.len() as int;
    if !(0 <= p < n) || t[p].tokentype == TokenType::Eof {
        (Seq::empty(), Seq::empty())
    } else {
        match p_declaration(t, p) {
            Ok((s1, p1)) => {
                let rest = p_program(t, step_tok(n, p, p1));
                (seq![s1] + rest.0, rest.1)
            },
            Err((em, pe)) => {
                let pe2 = if p <= pe <= n {
                    pe
                } else {
                    p
                };
                let rest = p_program(t, step_tok(n, p, sync_pos(t, pe2)));
                (rest.0, seq![em] + rest.1)
            },
        }
    }
}


// ---------------------------------------------------------------------------
// How an executable result corresponds to the model's: the same tree (as a
// view) and the same stopping position.
// ---------------------------------------------------------------------------
pub open spec fn expr_outcome(
    res: Result<(ExprModel, int), (ErrorModel, int)>,
    r: Result<Expression, Error>,
    cur: int,
) -> bool {
    match res {
        Ok((em, p2)) => r matches Ok(e) && e@ == em && cur == p2,
        Err((em, pe)) => r matches Err(er) && er@ == em && cur == pe,
    }
}

pub open spec fn stmt_outcome(
    res: Result<(StmtModel, int), (ErrorModel, int)>,
    r: Result<Statement, Error>,
    cur: int,
) -> bool {
    match res {
        Ok((sm, p2)) => r matches Ok(st) && st@ == sm && cur == p2,
        Err((em, pe)) => r matches Err(er) && er@ == em && cur == pe,
    }
}

pub open spec fn tok_outcome(
    res: Result<(TokenModel, int), (ErrorModel, int)>,
    r: Result<Token, Error>,
    cur: int,
) -> bool {
    match res {
        Ok((tm, p2)) => r matches Ok(tk) && tk@ == tm && cur == p2,
        Err((em, pe)) => r matches Err(er) && er@ == em && cur == pe,
    }
}

/// The recursive-descent parser: one token of lookahead over the lexer's
/// token list.  Every method is proved to produce exactly what the model
/// functions above assign to its position.
pub struct Parser {
    pub tokens: Vec<Token>,
    pub current: usize,
}

impl Parser {
    pub open spec fn toks(&self) -> Seq<TokenModel> {
        deep_toks(self.tokens@)
    }

    /// The parser's running invariant: a well-formed token list, the cursor
    /// on a token.
    pub open spec fn wf(&self) -> bool {
        &&& wf_tokens(self.toks())
        &&& self.current < self.tokens@.len()
    }

    pub fn new(tokens: Vec<Token>) -> (r: Parser)
        requires
            wf_tokens(deep_toks(tokens@)),
        ensures
            r.tokens@ == tokens@,
            r.current == 0,
            r.wf(),
    {
        Parser { tokens, current: 0 }
    }

    fn peek_type(&self) -> (k: TokenType)
        requires
            self.wf(),
        ensures
            k == self.toks()[self.current as int].tokentype,
    {
        self.tokens[self.current].tokentype
    }

    fn peek(&self) -> (r: Token)
        requires
            self.wf(),
        ensures
            r@ == self.toks()[self.current as int],
    {
        self.tokens[self.current].duplicate()
    }

    fn previous(&self) -> (r: Token)
        requires
            self.wf(),
            self.current >= 1,
        ensures
            r@ == self.toks()[self.current - 1],
    {
        self.tokens[self.current - 1].duplicate()
    }

    fn at_end(&self) -> (r: bool)
        requires
            self.wf(),
        ensures
            r == (self.toks()[self.current as int].tokentype == TokenType::Eof),
    {
        self.peek_type() == TokenType::Eof
    }

    fn advance(&mut self) -> (r: Token)
        requires
            old(self).wf(),
            old(self).toks()[old(self).current as int].tokentype != TokenType::Eof,
        ensures
            final(self).wf(),
            final(self).tokens@ == old(self).tokens@,
            final(self).current == old(self).current + 1,
            r@ == old(self).toks()[old(self).current as int],
    {
        let r = self.tokens[self.current].duplicate();
        let n = self.tokens.len();
        assert(self.current != self.tokens@.len() - 1);
        self.current = self.current + 1;
        r
    }

    fn check(&self, tokentype: TokenType) -> (r: bool)
        requires
            self.wf(),
        ensures
            r == (self.toks()[self.current as int].tokentype == tokentype
                && self.toks()[self.current as int].tokentype != TokenType::Eof),
    {
        if self.at_end() {
            return false;
        }
        self.peek_type() == tokentype
    }

    fn matches(&mut self, tokentypes: Vec<TokenType>) -> (r: bool)
        requires
            old(self).wf(),
        ensures
            final(self).wf(),
            final(self).tokens@ == old(self).tokens@,
            r == (tokentypes@.contains(old(self).toks()[old(self).current as int].tokentype)
                && old(self).toks()[old(self).current as int].tokentype != TokenType::Eof),
            r ==> final(self).current == old(self).current + 1,
            !r ==> final(self).current == old(self).current,
    {
        let ghost k = self.toks()[self.current as int].tokentype;
        let mut i: usize = 0;
        while i < tokentypes.len()
            invariant
                *self == *old(self),
                self.wf(),
                k == self.toks()[self.current as int].tokentype,
                i <= tokentypes@.len(),
                forall|j: int| 0 <= j < i ==> (#[trigger] tokentypes@[j]) != k || k == TokenType::Eof,
            decreases tokentypes@.len() - i,
        {
            if self.check(tokentypes[i]) {
                assert(tokentypes@.contains(k)) by {
                    assert(tokentypes@[i as int] == k);
                }
                self.advance();
                return true;
            }
            i += 1;
        }
        assert(!(tokentypes@.contains(k) && k != TokenType::Eof)) by {
            if tokentypes@.contains(k) && k != TokenType::Eof {
                let j = choose|j: int| 0 <= j < tokentypes@.len() && tokentypes@[j] == k;
                assert(tokentypes@[j] != k || k == TokenType::Eof);
            }
        }
        false
    }

    fn consume(&mut self, tokentype: TokenType, _message: &str) -> (r: Result<Token, Error>)
        requires
            old(self).wf(),
            tokentype != TokenType::Eof,
        ensures
            final(self).wf(),
            final(self).tokens@ == old(self).tokens@,
            old(self).current <= final(self).current,
            r is Ok ==> final(self).current > old(self).current,
            tok_outcome(
                p_expect(old(self).toks(), old(self).current as int, tokentype),
                r,
                final(self).current as int,
            ),
    {
        if self.check(tokentype) {
            Ok(self.advance())
        } else {
            Err(Error::new(ErrorKind::UnexpectedToken, self.tokens[self.current].line))
        }
    }
}




pub proof fn lemma_exprs_view_props(s: Seq<Expression>)
    ensures
        crate::expressions::exprs_view(s).len() == s.len(),
        forall|i: int|
            0 <= i < s.len() ==> crate::expressions::exprs_view(s)[i] == expr_view(#[trigger] s[i]),
    decreases s.len(),
{
    if s.len() > 0 {
        lemma_exprs_view_props(s.drop_first());
        assert forall|i: int| 0 <= i < s.len() implies crate::expressions::exprs_view(s)[i]
            == expr_view(#[trigger] s[i]) by {
            if i > 0 {
                assert(s.drop_first()[i - 1] == s[i]);
            }
        }
    }
}

pub proof fn lemma_exprs_view_push(s: Seq<Expression>, e: Expression)
    ensures
        crate::expressions::exprs_view(s.push(e)) == crate::expressions::exprs_view(s).push(
            expr_view(e),
        ),
{
    lemma_exprs_view_props(s);
    lemma_exprs_view_props(s.push(e));
    assert forall|i: int| 0 <= i < s.len() + 1 implies crate::expressions::exprs_view(s.push(e))[i]
        == crate::expressions::exprs_view(s).push(expr_view(e))[i] by {
        if i < s.len() {
            assert(s.push(e)[i] == s[i]);
        } else {
            assert(s.push(e)[i] == e);
        }
    }
    assert(crate::expressions::exprs_view(s.push(e)) =~= crate::expressions::exprs_view(s).push(
        expr_view(e),
    ));
}

// ---------------------------------------------------------------------------
// One-step unfolding lemmas for the opaque grammar functions, used while
// relating the executable parser to the model.
// ---------------------------------------------------------------------------
proof fn lemma_p_assignment_unfold(t: Seq<TokenModel>, p: int)
    requires
        0 <= p < t.len(),
    ensures
        p_assignment(t, p) == ({
            let n = t.len() as int;
            match p_or(t, p) {
                Err(e) => Err(e),
                Ok((target, p1)) => {
                    if 0 <= p1 < n && t[p1].tokentype == TokenType::Equal {
                        match p_assignment(t, step_tok(n, p, p1 + 1)) {
                            Err(e) => Err(e),
                            Ok((value, p2)) => match target {
                                ExprModel::Variable { name } => Ok(
                                    (ExprModel::Assign { name, value: Box::new(value) }, p2),
                                ),
                                ExprModel::Get { object, name } => Ok(
                                    (
                                        ExprModel::SetProperty {
                                            object,
                                            name,
                                            value: Box::new(value),
                                        },
                                        p2,
                                    ),
                                ),
                                _ => Err(
                                    (
                                        ErrorModel {
                                            kind: ErrorKind::InvalidAssignmentTarget,
                                            line: t[p1].line,
                                        },
                                        p2,
                                    ),
                                ),
                            },
                        }
                    } else {
                        Ok((target, p1))
                    }
                },
            }
        }),
{
    reveal(p_assignment);
    reveal(p_or);
}

proof fn lemma_p_or_unfold(t: Seq<TokenModel>, p: int)
    requires
        0 <= p < t.len(),
    ensures
        p_or(t, p) == (match p_and(t, p) {
            Err(e) => Err(e),
            Ok((first, p1)) => p_or_tail(t, first, step_tok(t.len() as int, p, p1)),
        }),
{
    reveal(p_or);
    reveal(p_and);
    reveal(p_or_tail);
}

proof fn lemma_p_or_tail_unfold(t: Seq<TokenModel>, left: ExprModel, p: int)
    ensures
        p_or_tail(t, left, p) == ({
            let n = t.len() as int;
            if 0 <= p < n && t[p].tokentype == TokenType::Or {
                match p_and(t, p + 1) {
                    Err(e) => Err(e),
                    Ok((right, p2)) => p_or_tail(
                        t,
                        ExprModel::Logical {
                            left: Box::new(left),
                            operator: t[p],
                            right: Box::new(right),
                        },
                        step_tok(n, p, p2),
                    ),
                }
            } else {
                Ok((left, p))
            }
        }),
{
    reveal(p_or_tail);
    reveal(p_and);
}

proof fn lemma_p_and_unfold(t: Seq<TokenModel>, p: int)
    requires
        0 <= p < t.len(),
    ensures
        p_and(t, p) == (match p_equality(t, p) {
            Err(e) => Err(e),
            Ok((first, p1)) => p_and_tail(t, first, step_tok(t.len() as int, p, p1)),
        }),
{
    reveal(p_and);
    reveal(p_equality);
    reveal(p_and_tail);
}

proof fn lemma_p_and_tail_unfold(t: Seq<TokenModel>, left: ExprModel, p: int)
    ensures
        p_and_tail(t, left, p) == ({
            let n = t.len() as int;
            if 0 <= p < n && t[p].tokentype == TokenType::And {
                match p_equality(t, p + 1) {
                    Err(e) => Err(e),
                    Ok((right, p2)) => p_and_tail(
                        t,
                        ExprModel::Logical {
                            left: Box::new(left),
                            operator: t[p],
                            right: Box::new(right),
                        },
                        step_tok(n, p, p2),
                    ),
                }
            } else {
                Ok((left, p))
            }
        }),
{
    reveal(p_and_tail);
    reveal(p_equality);
}

proof fn lemma_p_equality_unfold(t: Seq<TokenModel>, p: int)
    requires
        0 <= p < t.len(),
    ensures
        p_equality(t, p) == (match p_comparison(t, p) {
            Err(e) => Err(e),
            Ok((first, p1)) => p_equality_tail(t, first, step_tok(t.len() as int, p, p1)),
        }),
{
    reveal(p_equality);
    reveal(p_comparison);
    reveal(p_equality_tail);
}

proof fn lemma_p_equality_tail_unfold(t: Seq<TokenModel>, left: ExprModel, p: int)
    ensures
        p_equality_tail(t, left, p) == ({
            let n = t.len() as int;
            if 0 <= p < n && is_equality_op(t[p].tokentype) {
                match p_comparison(t, p + 1) {
                    Err(e) => Err(e),
                    Ok((right, p2)) => p_equality_tail(
                        t,
                        ExprModel::Binary {
                            left: Box::new(left),
                            operator: t[p],
                            right: Box::new(right),
                        },
                        step_tok(n, p, p2),
                    ),
                }
            } else {
                Ok((left, p))
            }
        }),
{
    reveal(p_equality_tail);
    reveal(p_comparison);
}

proof fn lemma_p_comparison_unfold(t: Seq<TokenModel>, p: int)
    requires
        0 <= p < t.len(),
    ensures
        p_comparison(t, p) == (match p_term(t, p) {
            Err(e) => Err(e),
            Ok((first, p1)) => p_comparison_tail(t, first, step_tok(t.len() as int, p, p1)),
        }),
{
    reveal(p_comparison);
    reveal(p_term);
    reveal(p_comparison_tail);
}

proof fn lemma_p_comparison_tail_unfold(t: Seq<TokenModel>, left: ExprModel, p: int)
    ensures
        p_comparison_tail(t, left, p) == ({
            let n = t.len() as int;
            if 0 <= p < n && is_comparison_op(t[p].tokentype) {
                match p_term(t, p + 1) {
                    Err(e) => Err(e),
                    Ok((right, p2)) => p_comparison_tail(
                        t,
                        ExprModel::Binary {
                            left: Box::new(left),
                            operator: t[p],
                            right: Box::new(right),
                        },
                        step_tok(n, p, p2),
                    ),
                }
            } else {
                Ok((left, p))
            }
        }),
{
    reveal(p_comparison_tail);
    reveal(p_term);
}

proof fn lemma_p_term_unfold(t: Seq<TokenModel>, p: int)
    requires
        0 <= p < t.len(),
    ensures
        p_term(t, p) == (match p_factor(t, p) {
            Err(e) => Err(e),
            Ok((first, p1)) => p_term_tail(t, first, step_tok(t.len() as int, p, p1)),
        }),
{
    reveal(p_term);
    reveal(p_factor);
    reveal(p_term_tail);
}

proof fn lemma_p_term_tail_unfold(t: Seq<TokenModel>, left: ExprModel, p: int)
    ensures
        p_term_tail(t, left, p) == ({
            let n = t.len() as int;
            if 0 <= p < n && is_term_op(t[p].tokentype) {
                match p_factor(t, p + 1) {
                    Err(e) => Err(e),
                    Ok((right, p2)) => p_term_tail(
                        t,
                        ExprModel::Binary {
                            left: Box::new(left),
                            operator: t[p],
                            right: Box::new(right),
                        },
                        step_tok(n, p, p2),
                    ),
                }
            } else {
                Ok((left, p))
            }
        }),
{
    reveal(p_term_tail);
    reveal(p_factor);
}

proof fn lemma_p_factor_unfold(t: Seq<TokenModel>, p: int)
    requires
        0 <= p < t.len(),
    ensures
        p_factor(t, p) == (match p_unary(t, p) {
            Err(e) => Err(e),
            Ok((first, p1)) => p_factor_tail(t, first, step_tok(t.len() as int, p, p1)),
        }),
{
    reveal(p_factor);
    reveal(p_unary);
    reveal(p_factor_tail);
}

proof fn lemma_p_factor_tail_unfold(t: Seq<TokenModel>, left: ExprModel, p: int)
    ensures
        p_factor_tail(t, left, p) == ({
            let n = t.len() as int;
            if 0 <= p < n && is_factor_op(t[p].tokentype) {
                match p_unary(t, p + 1) {
                    Err(e) => Err(e),
                    Ok((right, p2)) => p_factor_tail(
                        t,
                        ExprModel::Binary {
                            left: Box::new(left),
                            operator: t[p],
                            right: Box::new(right),
                        },
                        step_tok(n, p, p2),
                    ),
                }
            } else {
                Ok((left, p))
            }
        }),
{
    reveal(p_factor_tail);
    reveal(p_unary);
}

proof fn lemma_p_expression_unfold(t: Seq<TokenModel>, p: int)
    requires
        0 <= p < t.len(),
    ensures
        p_expression(t, p) == p_assignment(t, p),
{
    reveal(p_expression);
    reveal(p_assignment);
}

proof fn lemma_p_unary_unfold(t: Seq<TokenModel>, p: int)
    requires
        0 <= p < t.len(),
    ensures
        (t[p].tokentype == TokenType::Bang || t[p].tokentype == TokenType::Minus)
            ==> p_unary(t, p) == (match p_unary(t, p + 1) {
            Err(e) => Err(e),
            Ok((right, p2)) => Ok((ExprModel::Unary { operator: t[p], right: Box::new(right) }, p2)),
        }),
        !(t[p].tokentype == TokenType::Bang || t[p].tokentype == TokenType::Minus) ==> p_unary(t, p)
            == p_call(t, p),
{
    reveal(p_unary);
    reveal(p_call);
}

proof fn lemma_p_call_unfold(t: Seq<TokenModel>, p: int)
    requires
        0 <= p < t.len(),
    ensures
        p_call(t, p) == (match p_primary(t, p) {
            Err(e) => Err(e),
            Ok((first, p1)) => p_call_tail(t, first, step_tok(t.len() as int, p, p1)),
        }),
{
    reveal(p_call);
    reveal(p_primary);
    reveal(p_call_tail);
}

proof fn lemma_p_call_tail_unfold(t: Seq<TokenModel>, callee: ExprModel, p: int)
    ensures
        p_call_tail(t, callee, p) == ({
            let n = t.len() as int;
            if 0 <= p < n && t[p].tokentype == TokenType::LeftParen {
                match p_arguments(t, p + 1) {
                    Err(e) => Err(e),
                    Ok((arguments, paren, p2)) => p_call_tail(
                        t,
                        ExprModel::Call { callee: Box::new(callee), paren, arguments },
                        step_tok(n, p, p2),
                    ),
                }
            } else if 0 <= p < n && t[p].tokentype == TokenType::Dot {
                match p_expect(t, p + 1, TokenType::Identifier) {
                    Err(e) => Err(e),
                    Ok((name, p2)) => p_call_tail(
                        t,
                        ExprModel::Get { object: Box::new(callee), name },
                        step_tok(n, p, p2),
                    ),
                }
            } else {
                Ok((callee, p))
            }
        }),
{
    reveal(p_call_tail);
    reveal(p_arguments);
}

proof fn lemma_p_arguments_unfold(t: Seq<TokenModel>, p: int)
    ensures
        p_arguments(t, p) == ({
            let n = t.len() as int;
            if !(0 <= p < n) {
                Err((ErrorModel { kind: ErrorKind::UnexpectedToken, line: 0 }, p))
            } else if t[p].tokentype == TokenType::RightParen {
                Ok((Seq::<ExprModel>::empty(), t[p], p + 1))
            } else {
                match p_expression(t, p) {
                    Err(e) => Err(e),
                    Ok((first, p1)) => p_arguments_more(t, seq![first], step_tok(n, p, p1)),
                }
            }
        }),
{
    reveal(p_arguments);
    reveal(p_expression);
    reveal(p_arguments_more);
}

proof fn lemma_p_arguments_more_unfold(t: Seq<TokenModel>, acc: Seq<ExprModel>, p: int)
    ensures
        p_arguments_more(t, acc, p) == ({
            let n = t.len() as int;
            if 0 <= p < n && t[p].tokentype == TokenType::Comma {
                if acc.len() >= 255 {
                    Err((ErrorModel { kind: ErrorKind::TooManyArguments, line: t[p].line }, p))
                } else {
                    match p_expression(t, p + 1) {
                        Err(e) => Err(e),
                        Ok((next, p2)) => p_arguments_more(t, acc.push(next), step_tok(n, p, p2)),
                    }
                }
            } else {
                match p_expect(t, p, TokenType::RightParen) {
                    Err(e) => Err(e),
                    Ok((paren, p2)) => Ok((acc, paren, p2)),
                }
            }
        }),
{
    reveal(p_arguments_more);
    reveal(p_expression);
}

proof fn lemma_p_primary_unfold(t: Seq<TokenModel>, p: int)
    requires
        0 <= p < t.len(),
    ensures
        p_primary(t, p) == ({
            let n = t.len() as int;
            if t[p].tokentype == TokenType::False {
                Ok((ExprModel::Literal { value: ObjectModel::BoolV(false) }, p + 1))
            } else if t[p].tokentype == TokenType::True {
                Ok((ExprModel::Literal { value: ObjectModel::BoolV(true) }, p + 1))
            } else if t[p].tokentype == TokenType::Nil {
                Ok((ExprModel::Literal { value: ObjectModel::NilV }, p + 1))
            } else if t[p].tokentype == TokenType::Number {
                if is_number_text(t[p].literal) {
                    Ok(
                        (
                            ExprModel::Literal {
                                value: ObjectModel::NumberV(num_of_text(t[p].literal)),
                            },
                            p + 1,
                        ),
                    )
                } else {
                    Err(perr(t, ErrorKind::UnexpectedToken, p))
                }
            } else if t[p].tokentype == TokenType::String {
                Ok((ExprModel::Literal { value: ObjectModel::StringV(t[p].literal) }, p + 1))
            } else if t[p].tokentype == TokenType::Identifier {
                Ok((ExprModel::Variable { name: t[p] }, p + 1))
            } else if t[p].tokentype == TokenType::This {
                Ok((ExprModel::This { keyword: t[p] }, p + 1))
            } else if t[p].tokentype == TokenType::Super {
                match p_expect(t, p + 1, TokenType::Dot) {
                    Err(e) => Err(e),
                    Ok((_d, p1)) => match p_expect(t, p1, TokenType::Identifier) {
                        Err(e) => Err(e),
                        Ok((method, p2)) => Ok((ExprModel::Super { keyword: t[p], method }, p2)),
                    },
                }
            } else if t[p].tokentype == TokenType::LeftParen {
                match p_expression(t, p + 1) {
                    Err(e) => Err(e),
                    Ok((inner, p1)) => match p_expect(t, step_tok(n, p, p1), TokenType::RightParen) {
                        Err(e) => Err(e),
                        Ok((_rp, p2)) => Ok((ExprModel::Grouping { expression: Box::new(inner) }, p2)),
                    },
                }
            } else {
                Err(perr(t, ErrorKind::UnexpectedToken, p))
            }
        }),
{
    reveal(p_primary);
    reveal(p_expression);
}

impl Parser {
    pub fn expression(&mut self) -> (r: Result<Expression, Error>)
        requires
            old(self).wf(),
        ensures
            final(self).wf(),
            final(self).tokens@ == old(self).tokens@,
            old(self).current <= final(self).current,
            r is Ok ==> final(self).current > old(self).current,
            expr_outcome(
                p_expression(old(self).toks(), old(self).current as int),
                r,
                final(self).current as int,
            ),
        decreases self.tokens@.len() - self.current, 16int,
    {
        let ghost t = self.toks();
        let ghost p0 = self.current as int;
        proof {
            lemma_p_expression_unfold(t, p0);
        }
        self.assignment()
    }

    fn assignment(&mut self) -> (r: Result<Expression, Error>)
        requires
            old(self).wf(),
        ensures
            final(self).wf(),
            final(self).tokens@ == old(self).tokens@,
            old(self).current <= final(self).current,
            r is Ok ==> final(self).current > old(self).current,
            expr_outcome(
                p_assignment(old(self).toks(), old(self).current as int),
                r,
                final(self).current as int,
            ),
        decreases self.tokens@.len() - self.current, 15int,
    {
        let ghost t = self.toks();
        let ghost p0 = self.current as int;
        proof {
            lemma_p_assignment_unfold(t, p0);
        }
        let target = match self.or() {
            Ok(e) => e,
            Err(er) => {
                return Err(er);
            },
        };
        if self.check(TokenType::Equal) {
            let eq = self.advance();
            let value = match self.assignment() {
                Ok(e) => e,
                Err(er) => {
                    return Err(er);
                },
            };
            match target {
                Expression::Variable { name } => Ok(
                    Expression::Assign { name, value: Box::new(value) },
                ),
                Expression::Get { object, name } => Ok(
                    Expression::SetProperty { object, name, value: Box::new(value) },
                ),
                _ => Err(Error::new(ErrorKind::InvalidAssignmentTarget, eq.line)),
            }
        } else {
            Ok(target)
        }
    }

    fn or(&mut self) -> (r: Result<Expression, Error>)
        requires
            old(self).wf(),
        ensures
            final(self).wf(),
            final(self).tokens@ == old(self).tokens@,
            old(self).current <= final(self).current,
            r is Ok ==> final(self).current > old(self).current,
            expr_outcome(
                p_or(old(self).toks(), old(self).current as int),
                r,
                final(self).current as int,
            ),
        decreases self.tokens@.len() - self.current, 14int,
    {
        let ghost t = self.toks();
        let ghost p0 = self.current as int;
        proof {
            lemma_p_or_unfold(t, p0);
        }
        let mut expr = match self.and() {
            Ok(e) => e,
            Err(er) => {
                return Err(er);
            },
        };
        while self.check(TokenType::Or)
            invariant
                self.wf(),
                self.tokens@ == old(self).tokens@,
                t == self.toks(),
                p0 == old(self).current,
                p0 < self.current,
                p_or(t, p0) == p_or_tail(t, expr@, self.current as int),
            decreases t.len() - self.current,
        {
            proof {
                lemma_p_or_tail_unfold(t, expr@, self.current as int);
            }
            let operator = self.advance();
            let right = match self.and() {
                Ok(e) => e,
                Err(er) => {
                    return Err(er);
                },
            };
            expr = Expression::Logical { left: Box::new(expr), operator, right: Box::new(right) };
        }
        proof {
            lemma_p_or_tail_unfold(t, expr@, self.current as int);
        }
        Ok(expr)
    }

    fn and(&mut self) -> (r: Result<Expression, Error>)
        requires
            old(self).wf(),
        ensures
            final(self).wf(),
            final(self).tokens@ == old(self).tokens@,
            old(self).current <= final(self).current,
            r is Ok ==> final(self).current > old(self).current,
            expr_outcome(
                p_and(old(self).toks(), old(self).current as int),
                r,
                final(self).current as int,
            ),
        decreases self.tokens@.len() - self.current, 12int,
    {
        let ghost t = self.toks();
        let ghost p0 = self.current as int;
        proof {
            lemma_p_and_unfold(t, p0);
        }
        let mut expr = match self.equality() {
            Ok(e) => e,
            Err(er) => {
                return Err(er);
            },
        };
        while self.check(TokenType::And)
            invariant
                self.wf(),
                self.tokens@ == old(self).tokens@,
                t == self.toks(),
                p0 == old(self).current,
                p0 < self.current,
                p_and(t, p0) == p_and_tail(t, expr@, self.current as int),
            decreases t.len() - self.current,
        {
            proof {
                lemma_p_and_tail_unfold(t, expr@, self.current as int);
            }
            let operator = self.advance();
            let right = match self.equality() {
                Ok(e) => e,
                Err(er) => {
                    return Err(er);
                },
            };
            expr = Expression::Logical { left: Box::new(expr), operator, right: Box::new(right) };
        }
        proof {
            lemma_p_and_tail_unfold(t, expr@, self.current as int);
        }
        Ok(expr)
    }

    fn equality(&mut self) -> (r: Result<Expression, Error>)
        requires
            old(self).wf(),
        ensures
            final(self).wf(),
            final(self).tokens@ == old(self).tokens@,
            old(self).current <= final(self).current,
            r is Ok ==> final(self).current > old(self).current,
            expr_outcome(
                p_equality(old(self).toks(), old(self).current as int),
                r,
                final(self).current as int,
            ),
        decreases self.tokens@.len() - self.current, 10int,
    {
        let ghost t = self.toks();
        let ghost p0 = self.current as int;
        proof {
            lemma_p_equality_unfold(t, p0);
        }
        let mut expr = match self.comparison() {
            Ok(e) => e,
            Err(er) => {
                return Err(er);
            },
        };
        while self.check(TokenType::BangEqual) || self.check(TokenType::EqualEqual)
            invariant
                self.wf(),
                self.tokens@ == old(self).tokens@,
                t == self.toks(),
                p0 == old(self).current,
                p0 < self.current,
                p_equality(t, p0) == p_equality_tail(t, expr@, self.current as int),
            decreases t.len() - self.current,
        {
            proof {
                lemma_p_equality_tail_unfold(t, expr@, self.current as int);
            }
            let operator = self.advance();
            let right = match self.comparison() {
                Ok(e) => e,
                Err(er) => {
                    return Err(er);
                },
            };
            expr = Expression::Binary { left: Box::new(expr), operator, right: Box::new(right) };
        }
        proof {
            lemma_p_equality_tail_unfold(t, expr@, self.current as int);
        }
        Ok(expr)
    }

    fn comparison(&mut self) -> (r: Result<Expression, Error>)
        requires
            old(self).wf(),
        ensures
            final(self).wf(),
            final(self).tokens@ == old(self).tokens@,
            old(self).current <= final(self).current,
            r is Ok ==> final(self).current > old(self).current,
            expr_outcome(
                p_comparison(old(self).toks(), old(self).current as int),
                r,
                final(self).current as int,
            ),
        decreases self.tokens@.len() - self.current, 8int,
    {
        let ghost t = self.toks();
        let ghost p0 = self.current as int;
        proof {
            lemma_p_comparison_unfold(t, p0);
        }
        let mut expr = match self.term() {
            Ok(e) => e,
            Err(er) => {
                return Err(er);
            },
        };
        while self.check(TokenType::Greater) || self.check(TokenType::GreaterEqual) || self.check(
            TokenType::Less,
        ) || self.check(TokenType::LessEqual)
            invariant
                self.wf(),
                self.tokens@ == old(self).tokens@,
                t == self.toks(),
                p0 == old(self).current,
                p0 < self.current,
                p_comparison(t, p0) == p_comparison_tail(t, expr@, self.current as int),
            decreases t.len() - self.current,
        {
            proof {
                lemma_p_comparison_tail_unfold(t, expr@, self.current as int);
            }
            let operator = self.advance();
            let right = match self.term() {
                Ok(e) => e,
                Err(er) => {
                    return Err(er);
                },
            };
            expr = Expression::Binary { left: Box::new(expr), operator, right: Box::new(right) };
        }
        proof {
            lemma_p_comparison_tail_unfold(t, expr@, self.current as int);
        }
        Ok(expr)
    }

    fn term(&mut self) -> (r: Result<Expression, Error>)
        requires
            old(self).wf(),
        ensures
            final(self).wf(),
            final(self).tokens@ == old(self).tokens@,
            old(self).current <= final(self).current,
            r is Ok ==> final(self).current > old(self).current,
            expr_outcome(
                p_term(old(self).toks(), old(self).current as int),
                r,
                final(self).current as int,
            ),
        decreases self.tokens@.len() - self.current, 6int,
    {
        let ghost t = self.toks();
        let ghost p0 = self.current as int;
        proof {
            lemma_p_term_unfold(t, p0);
        }
        let mut expr = match self.factor() {
            Ok(e) => e,
            Err(er) => {
                return Err(er);
            },
        };
        while self.check(TokenType::Minus) || self.check(TokenType::Plus)
            invariant
                self.wf(),
                self.tokens@ == old(self).tokens@,
                t == self.toks(),
                p0 == old(self).current,
                p0 < self.current,
                p_term(t, p0) == p_term_tail(t, expr@, self.current as int),
            decreases t.len() - self.current,
        {
            proof {
                lemma_p_term_tail_unfold(t, expr@, self.current as int);
            }
            let operator = self.advance();
            let right = match self.factor() {
                Ok(e) => e,
                Err(er) => {
                    return Err(er);
                },
            };
            expr = Expression::Binary { left: Box::new(expr), operator, right: Box::new(right) };
        }
        proof {
            lemma_p_term_tail_unfold(t, expr@, self.current as int);
        }
        Ok(expr)
    }

    #[verifier::rlimit(60)]
    fn factor(&mut self) -> (r: Result<Expression, Error>)
        requires
            old(self).wf(),
        ensures
            final(self).wf(),
            final(self).tokens@ == old(self).tokens@,
            old(self).current <= final(self).current,
            r is Ok ==> final(self).current > old(self).current,
            expr_outcome(
                p_factor(old(self).toks(), old(self).current as int),
                r,
                final(self).current as int,
            ),
        decreases self.tokens@.len() - self.current, 4int,
    {
        let ghost t = self.toks();
        let ghost p0 = self.current as int;
        proof {
            lemma_p_factor_unfold(t, p0);
        }
        let mut expr = match self.unary() {
            Ok(e) => e,
            Err(er) => {
                return Err(er);
            },
        };
        while self.check(TokenType::Slash) || self.check(TokenType::Star)
            invariant
                self.wf(),
                self.tokens@ == old(self).tokens@,
                t == self.toks(),
                p0 == old(self).current,
                p0 < self.current,
                p_factor(t, p0) == p_factor_tail(t, expr@, self.current as int),
            decreases t.len() - self.current,
        {
            proof {
                lemma_p_factor_tail_unfold(t, expr@, self.current as int);
            }
            let operator = self.advance();
            let right = match self.unary() {
                Ok(e) => e,
                Err(er) => {
                    return Err(er);
                },
            };
            expr = Expression::Binary { left: Box::new(expr), operator, right: Box::new(right) };
        }
        proof {
            lemma_p_factor_tail_unfold(t, expr@, self.current as int);
        }
        Ok(expr)
    }

    fn unary(&mut self) -> (r: Result<Expression, Error>)
        requires
            old(self).wf(),
        ensures
            final(self).wf(),
            final(self).tokens@ == old(self).tokens@,
            old(self).current <= final(self).current,
            r is Ok ==> final(self).current > old(self).current,
            expr_outcome(
                p_unary(old(self).toks(), old(self).current as int),
                r,
                final(self).current as int,
            ),
        decreases self.tokens@.len() - self.current, 2int,
    {
        let ghost t = self.toks();
        let ghost p0 = self.current as int;
        proof {
            lemma_p_unary_unfold(t, p0);
        }
        let k = self.peek_type();
        if k == TokenType::Bang || k == TokenType::Minus {
            let operator = self.advance();
            let right = match self.unary() {
                Ok(e) => e,
                Err(er) => {
                    return Err(er);
                },
            };
            Ok(Expression::Unary { operator, right: Box::new(right) })
        } else {
            self.call()
        }
    }

    #[verifier::rlimit(60)]
    fn call(&mut self) -> (r: Result<Expression, Error>)
        requires
            old(self).wf(),
        ensures
            final(self).wf(),
            final(self).tokens@ == old(self).tokens@,
            old(self).current <= final(self).current,
            r is Ok ==> final(self).current > old(self).current,
            expr_outcome(
                p_call(old(self).toks(), old(self).current as int),
                r,
                final(self).current as int,
            ),
        decreases self.tokens@.len() - self.current, 1int,
    {
        let ghost t = self.toks();
        let ghost p0 = self.current as int;
        proof {
            lemma_p_call_unfold(t, p0);
        }
        let mut expr = match self.primary() {
            Ok(e) => e,
            Err(er) => {
                return Err(er);
            },
        };
        while self.check(TokenType::LeftParen) || self.check(TokenType::Dot)
            invariant
                self.wf(),
                self.tokens@ == old(self).tokens@,
                t == self.toks(),
                p0 == old(self).current,
                p0 < self.current,
                p_call(t, p0) == p_call_tail(t, expr@, self.current as int),
            decreases t.len() - self.current,
        {
            proof {
                lemma_p_call_tail_unfold(t, expr@, self.current as int);
            }
            if self.check(TokenType::LeftParen) {
                expr = match self.do_call(expr) {
                    Ok(e) => e,
                    Err(er) => {
                        return Err(er);
                    },
                };
            } else {
                let _dot = self.advance();
                let name = match self.consume(TokenType::Identifier, "expect property name after '.'") {
                    Ok(tk) => tk,
                    Err(er) => {
                        return Err(er);
                    },
                };
                expr = Expression::Get { object: Box::new(expr), name };
            }
        }
        proof {
            lemma_p_call_tail_unfold(t, expr@, self.current as int);
        }
        Ok(expr)
    }

    /// Parses one argument list, the opening parenthesis standing at the
    /// cursor, and wraps the callee into the call node.
    #[verifier::rlimit(60)]
    fn do_call(&mut self, callee: Expression) -> (r: Result<Expression, Error>)
        requires
            old(self).wf(),
            old(self).toks()[old(self).current as int].tokentype == TokenType::LeftParen,
        ensures
            final(self).wf(),
            final(self).tokens@ == old(self).tokens@,
            old(self).current < final(self).current,
            ({
                let res = p_arguments(old(self).toks(), old(self).current + 1);
                match res {
                    Ok((argsm, parenm, p2)) => r matches Ok(e) && e@ == (ExprModel::Call {
                        callee: Box::new(expr_view(callee)),
                        paren: parenm,
                        arguments: argsm,
                    }) && final(self).current == p2,
                    Err((em, pe)) => r matches Err(er) && er@ == em && final(self).current == pe,
                }
            }),
        decreases self.tokens@.len() - self.current, 0int,
    {
        let ghost t = self.toks();
        let ghost p0 = self.current as int;
        proof {
            lemma_p_arguments_unfold(t, p0 + 1);
        }
        let _lp = self.advance();
        let mut arguments: Vec<Expression> = Vec::new();
        if self.check(TokenType::RightParen) {
            let paren = self.advance();
            proof {
                assert(crate::expressions::exprs_view(arguments@) =~= Seq::<ExprModel>::empty());
            }
            return Ok(Expression::Call { callee: Box::new(callee), paren, arguments });
        }
        let first = match self.expression() {
            Ok(e) => e,
            Err(er) => {
                return Err(er);
            },
        };
        let ghost pre = arguments@;
        arguments.push(first);
        proof {
            lemma_exprs_view_push(pre, first);
            assert(crate::expressions::exprs_view(pre) =~= Seq::<ExprModel>::empty());
        }
        while self.check(TokenType::Comma)
            invariant
                self.wf(),
                self.tokens@ == old(self).tokens@,
                t == self.toks(),
                p0 == old(self).current,
                p0 < self.current,
                p_arguments(t, p0 + 1) == p_arguments_more(
                    t,
                    crate::expressions::exprs_view(arguments@),
                    self.current as int,
                ),
            decreases t.len() - self.current,
        {
            proof {
                lemma_p_arguments_more_unfold(t, crate::expressions::exprs_view(arguments@), self.current as int);
                lemma_exprs_view_props(arguments@);
            }
            if arguments.len() >= 255 {
                return Err(
                    Error::new(ErrorKind::TooManyArguments, self.tokens[self.current].line),
                );
            }
            let _comma = self.advance();
            let next = match self.expression() {
                Ok(e) => e,
                Err(er) => {
                    return Err(er);
                },
            };
            let ghost pre2 = arguments@;
            arguments.push(next);
            proof {
                lemma_exprs_view_push(pre2, next);
            }
        }
        proof {
            lemma_p_arguments_more_unfold(t, crate::expressions::exprs_view(arguments@), self.current as int);
        }
        let paren = match self.consume(TokenType::RightParen, "expect ')' after arguments") {
            Ok(tk) => tk,
            Err(er) => {
                return Err(er);
            },
        };
        Ok(Expression::Call { callee: Box::new(callee), paren, arguments })
    }

    #[verifier::rlimit(60)]
    fn primary(&mut self) -> (r: Result<Expression, Error>)
        requires
            old(self).wf(),
        ensures
            final(self).wf(),
            final(self).tokens@ == old(self).tokens@,
            old(self).current <= final(self).current,
            r is Ok ==> final(self).current > old(self).current,
            expr_outcome(
                p_primary(old(self).toks(), old(self).current as int),
                r,
                final(self).current as int,
            ),
        decreases self.tokens@.len() - self.current, 0int,
    {
        let ghost t = self.toks();
        let ghost p0 = self.current as int;
        proof {
            lemma_p_primary_unfold(t, p0);
        }
        let k = self.peek_type();
        if k == TokenType::False {
            let _tk = self.advance();
            proof {
                assert(crate::expressions::obj_view(Object::BoolObject(false))
                    == ObjectModel::BoolV(false));
            }
            Ok(Expression::Literal { value: Object::BoolObject(false) })
        } else if k == TokenType::True {
            let _tk = self.advance();
            proof {
                assert(crate::expressions::obj_view(Object::BoolObject(true))
                    == ObjectModel::BoolV(true));
            }
            Ok(Expression::Literal { value: Object::BoolObject(true) })
        } else if k == TokenType::Nil {
            let _tk = self.advance();
            proof {
                assert(crate::expressions::obj_view(Object::NilObject) == ObjectModel::NilV);
            }
            Ok(Expression::Literal { value: Object::NilObject })
        } else if k == TokenType::Number {
            let tokn = self.peek();
            if is_number_string(tokn.literal.as_str()) {
                let tk = self.advance();
                let bits = num_parse(tk.literal.as_str());
                proof {
                    assert(crate::expressions::obj_view(Object::NumberObject(bits))
                        == ObjectModel::NumberV(bits));
                }
                Ok(Expression::Literal { value: Object::NumberObject(bits) })
            } else {
                Err(Error::new(ErrorKind::UnexpectedToken, tokn.line))
            }
        } else if k == TokenType::String {
            let tk = self.advance();
            proof {
                assert(crate::expressions::obj_view(Object::StringObject(tk.literal))
                    == ObjectModel::StringV(tk.literal@));
            }
            Ok(Expression::Literal { value: Object::StringObject(tk.literal) })
        } else if k == TokenType::Identifier {
            let tk = self.advance();
            Ok(Expression::Variable { name: tk })
        } else if k == TokenType::This {
            let tk = self.advance();
            Ok(Expression::This { keyword: tk })
        } else if k == TokenType::Super {
            let keyword = self.advance();
            let _dot = match self.consume(TokenType::Dot, "expect '.' after 'super'") {
                Ok(tk) => tk,
                Err(er) => {
                    return Err(er);
                },
            };
            let method = match self.consume(TokenType::Identifier, "expect superclass method name") {
                Ok(tk) => tk,
                Err(er) => {
                    return Err(er);
                },
            };
            Ok(Expression::Super { keyword, method })
        } else if k == TokenType::LeftParen {
            let _lp = self.advance();
            let inner = match self.expression() {
                Ok(e) => e,
                Err(er) => {
                    return Err(er);
                },
            };
            let _rp = match self.consume(TokenType::RightParen, "expect ')' after expression") {
                Ok(tk) => tk,
                Err(er) => {
                    return Err(er);
                },
            };
            Ok(Expression::Grouping { expression: Box::new(inner) })
        } else {
            Err(Error::new(ErrorKind::UnexpectedToken, self.tokens[self.current].line))
        }
    }
}


// ---------------------------------------------------------------------------
// One-step unfolding lemmas for the statement-level grammar.
// ---------------------------------------------------------------------------

proof fn lemma_p_declaration_unfold(t: Seq<TokenModel>, p: int)
    ensures
        p_declaration(t, p) == ({

            let n = t.len() as int;
            if !(0 <= p < n) {
                Err((ErrorModel { kind: ErrorKind::UnexpectedToken, line: 0 }, p))
            } else if t[p].tokentype == TokenType::Var {
                p_var_declaration(t, p + 1)
            } else if t[p].tokentype == TokenType::Fun {
                p_function(t, p + 1, FunctionType::Function)
            } else if t[p].tokentype == TokenType::Class {
                p_class(t, p + 1)
            } else {
                p_statement(t, p)
            }
        }),
{
    reveal(p_class);
    reveal(p_declaration);
    reveal(p_function);
    reveal(p_statement);
    reveal(p_var_declaration);
}


proof fn lemma_p_statement_unfold(t: Seq<TokenModel>, p: int)
    ensures
        p_statement(t, p) == ({

            let n = t.len() as int;
            if !(0 <= p < n) {
                Err((ErrorModel { kind: ErrorKind::UnexpectedToken, line: 0 }, p))
            } else if t[p].tokentype == TokenType::Print {
                p_print_statement(t, p + 1)
            } else if t[p].tokentype == TokenType::LeftBrace {
                p_block(t, p)
            } else if t[p].tokentype == TokenType::If {
                p_if_statement(t, p + 1)
            } else if t[p].tokentype == TokenType::While {
                p_while_statement(t, p + 1)
            } else if t[p].tokentype == TokenType::For {
                p_for_statement(t, p + 1)
            } else if t[p].tokentype == TokenType::Return {
                p_return_statement(t, t[p], p + 1)
            } else {
                p_expression_statement(t, p)
            }
        }),
{
    reveal(p_block);
    reveal(p_expression_statement);
    reveal(p_for_statement);
    reveal(p_if_statement);
    reveal(p_print_statement);
    reveal(p_return_statement);
    reveal(p_statement);
    reveal(p_while_statement);
}


proof fn lemma_p_print_statement_unfold(t: Seq<TokenModel>, p: int)
    ensures
        p_print_statement(t, p) == ({

            match p_expression(t, p) {
                Err(e) => Err(e),
                Ok((e1, p1)) => match p_expect(t, p1, TokenType::SemiColon) {
                    Err(e) => Err(e),
                    Ok((_s, p2)) => Ok((StmtModel::Print { expression: e1 }, p2)),
                },
            }
        }),
{
    reveal(p_expression);
    reveal(p_print_statement);
}


proof fn lemma_p_expression_statement_unfold(t: Seq<TokenModel>, p: int)
    ensures
        p_expression_statement(t, p) == ({

            match p_expression(t, p) {
                Err(e) => Err(e),
                Ok((e1, p1)) => match p_expect(t, p1, TokenType::SemiColon) {
                    Err(e) => Err(e),
                    Ok((_s, p2)) => Ok((StmtModel::Expression { expression: e1 }, p2)),
                },
            }
        }),
{
    reveal(p_expression);
    reveal(p_expression_statement);
}


proof fn lemma_p_var_declaration_unfold(t: Seq<TokenModel>, p: int)
    ensures
        p_var_declaration(t, p) == ({

            let n = t.len() as int;
            match p_expect(t, p, TokenType::Identifier) {
                Err(e) => Err(e),
                Ok((name, p1)) => {
                    if 0 <= p1 < n && t[p1].tokentype == TokenType::Equal {
                        match p_expression(t, p1 + 1) {
                            Err(e) => Err(e),
                            Ok((init, p2)) => match p_expect(t, p2, TokenType::SemiColon) {
                                Err(e) => Err(e),
                                Ok((_s, p3)) => Ok(
                                    (StmtModel::Variable { name, init: Some(init) }, p3),
                                ),
                            },
                        }
                    } else {
                        match p_expect(t, p1, TokenType::SemiColon) {
                            Err(e) => Err(e),
                            Ok((_s, p2)) => Ok((StmtModel::Variable { name, init: None }, p2)),
                        }
                    }
                },
            }
        }),
{
    reveal(p_expression);
    reveal(p_var_declaration);
}


proof fn lemma_p_return_statement_unfold(t: Seq<TokenModel>, keyword: TokenModel, p: int)
    ensures
        p_return_statement(t, keyword, p) == ({

            let n = t.len() as int;
            if 0 <= p < n && t[p].tokentype == TokenType::SemiColon {
                Ok((StmtModel::Return { keyword, value: None }, p + 1))
            } else {
                match p_expression(t, p) {
                    Err(e) => Err(e),
                    Ok((e1, p1)) => match p_expect(t, p1, TokenType::SemiColon) {
                        Err(e) => Err(e),
                        Ok((_s, p2)) => Ok((StmtModel::Return { keyword, value: Some(e1) }, p2)),
                    },
                }
            }
        }),
{
    reveal(p_expression);
    reveal(p_return_statement);
}


proof fn lemma_p_block_unfold(t: Seq<TokenModel>, p: int)
    ensures
        p_block(t, p) == ({

            match p_expect(t, p, TokenType::LeftBrace) {
                Err(e) => Err(e),
                Ok((_lb, p1)) => match p_block_items(t, Seq::empty(), p1) {
                    Err(e) => Err(e),
                    Ok((items, p2)) => match p_expect(t, p2, TokenType::RightBrace) {
                        Err(e) => Err(e),
                        Ok((_rb, p3)) => Ok((StmtModel::Block { statements: items }, p3)),
                    },
                },
            }
        }),
{
    reveal(p_block);
    reveal(p_block_items);
}


proof fn lemma_p_block_items_unfold(t: Seq<TokenModel>, acc: Seq<StmtModel>, p: int)
    ensures
        p_block_items(t, acc, p) == ({

            let n = t.len() as int;
            if !(0 <= p < n) || t[p].tokentype == TokenType::RightBrace || t[p].tokentype
                == TokenType::Eof {
                Ok((acc, p))
            } else {
                match p_declaration(t, p) {
                    Err(e) => Err(e),
                    Ok((s1, p1)) => p_block_items(t, acc.push(s1), step_tok(n, p, p1)),
                }
            }
        }),
{
    reveal(p_block_items);
    reveal(p_declaration);
}


proof fn lemma_p_if_statement_unfold(t: Seq<TokenModel>, p: int)
    ensures
        p_if_statement(t, p) == ({

            let n = t.len() as int;
            match p_expect(t, p, TokenType::LeftParen) {
                Err(e) => Err(e),
                Ok((_lp, p1)) => match p_expression(t, p1) {
                    Err(e) => Err(e),
                    Ok((cond, p2)) => match p_expect(t, p2, TokenType::RightParen) {
                        Err(e) => Err(e),
                        Ok((_rp, p3)) => match p_block(t, step_tok(n, p, p3)) {
                            Err(e) => Err(e),
                            Ok((then_b, p4)) => {
                                if 0 <= p4 < n && t[p4].tokentype == TokenType::Else {
                                    match p_block(t, step_tok(n, p, p4 + 1)) {
                                        Err(e) => Err(e),
                                        Ok((else_b, p5)) => Ok(
                                            (
                                                StmtModel::If {
                                                    condition: cond,
                                                    then_branch: Box::new(then_b),
                                                    else_branch: Some(Box::new(else_b)),
                                                },
                                                p5,
                                            ),
                                        ),
                                    }
                                } else {
                                    Ok(
                                        (
                                            StmtModel::If {
                                                condition: cond,
                                                then_branch: Box::new(then_b),
                                                else_branch: None,
                                            },
                                            p4,
                                        ),
                                    )
                                }
                            },
                        },
                    },
                },
            }
        }),
{
    reveal(p_block);
    reveal(p_expression);
    reveal(p_if_statement);
}


proof fn lemma_p_while_statement_unfold(t: Seq<TokenModel>, p: int)
    ensures
        p_while_statement(t, p) == ({

            let n = t.len() as int;
            match p_expect(t, p, TokenType::LeftParen) {
                Err(e) => Err(e),
                Ok((_lp, p1)) => match p_expression(t, p1) {
                    Err(e) => Err(e),
                    Ok((cond, p2)) => match p_expect(t, p2, TokenType::RightParen) {
                        Err(e) => Err(e),
                        Ok((_rp, p3)) => match p_block(t, step_tok(n, p, p3)) {
                            Err(e) => Err(e),
                            Ok((body, p4)) => Ok(
                                (StmtModel::While { condition: cond, body: Box::new(body) }, p4),
                            ),
                        },
                    },
                },
            }
        }),
{
    reveal(p_block);
    reveal(p_expression);
    reveal(p_while_statement);
}


proof fn lemma_p_for_statement_unfold(t: Seq<TokenModel>, p: int)
    ensures
        p_for_statement(t, p) == ({

            let n = t.len() as int;
            match p_expect(t, p, TokenType::LeftParen) {
                Err(e) => Err(e),
                Ok((_lp, p1)) => {
                    let init_res: Result<(Option<StmtModel>, int), (ErrorModel, int)> = if 0 <= p1 < n
                        && t[p1].tokentype == TokenType::SemiColon {
                        Ok((None, p1 + 1))
                    } else if 0 <= p1 < n && t[p1].tokentype == TokenType::Var {
                        match p_var_declaration(t, step_tok(n, p, p1 + 1)) {
                            Err(e) => Err(e),
                            Ok((s1, q)) => Ok((Some(s1), q)),
                        }
                    } else {
                        match p_expression_statement(t, step_tok(n, p, p1)) {
                            Err(e) => Err(e),
                            Ok((s1, q)) => Ok((Some(s1), q)),
                        }
                    };
                    match init_res {
                        Err(e) => Err(e),
                        Ok((init, p2)) => {
                            let cond_res: Result<(Option<ExprModel>, int), (ErrorModel, int)> = if 0 <= p2
                                < n && t[p2].tokentype == TokenType::SemiColon {
                                Ok((None, p2))
                            } else {
                                match p_expression(t, step_tok(n, p, p2)) {
                                    Err(e) => Err(e),
                                    Ok((c1, q)) => Ok((Some(c1), q)),
                                }
                            };
                            match cond_res {
                                Err(e) => Err(e),
                                Ok((cond, p3)) => match p_expect(t, p3, TokenType::SemiColon) {
                                    Err(e) => Err(e),
                                    Ok((_s, p4)) => {
                                        let incr_res: Result<
                                            (Option<ExprModel>, int),
                                            (ErrorModel, int),
                                        > = if 0 <= p4 < n && t[p4].tokentype == TokenType::RightParen {
                                            Ok((None, p4))
                                        } else {
                                            match p_expression(t, step_tok(n, p, p4)) {
                                                Err(e) => Err(e),
                                                Ok((i1, q)) => Ok((Some(i1), q)),
                                            }
                                        };
                                        match incr_res {
                                            Err(e) => Err(e),
                                            Ok((incr, p5)) => match p_expect(
                                                t,
                                                p5,
                                                TokenType::RightParen,
                                            ) {
                                                Err(e) => Err(e),
                                                Ok((_rp, p6)) => match p_block(t, step_tok(n, p, p6)) {
                                                    Err(e) => Err(e),
                                                    Ok((body, p7)) => Ok(
                                                        (
                                                            StmtModel::For {
                                                                init: match init {
                                                                    Some(s1) => Some(Box::new(s1)),
                                                                    None => None,
                                                                },
                                                                condition: cond,
                                                                increment: incr,
                                                                body: Box::new(body),
                                                            },
                                                            p7,
                                                        ),
                                                    ),
                                                },
                                            },
                                        }
                                    },
                                },
                            }
                        },
                    }
                },
            }
        }),
{
    reveal(p_block);
    reveal(p_expression);
    reveal(p_expression_statement);
    reveal(p_for_statement);
    reveal(p_var_declaration);
}


proof fn lemma_p_function_unfold(t: Seq<TokenModel>, p: int, functype: FunctionType)
    ensures
        p_function(t, p, functype) == ({

            let n = t.len() as int;
            match p_expect(t, p, TokenType::Identifier) {
                Err(e) => Err(e),
                Ok((name, p1)) => match p_expect(t, p1, TokenType::LeftParen) {
                    Err(e) => Err(e),
                    Ok((_lp, p2)) => match p_parameters(t, step_tok(n, p, p2)) {
                        Err(e) => Err(e),
                        Ok((params, p3)) => match p_expect(t, p3, TokenType::RightParen) {
                            Err(e) => Err(e),
                            Ok((_rp, p4)) => match p_block(t, step_tok(n, p, p4)) {
                                Err(e) => Err(e),
                                Ok((body, p5)) => Ok(
                                    (
                                        StmtModel::Function {
                                            name,
                                            params,
                                            body: Box::new(body),
                                            functype,
                                        },
                                        p5,
                                    ),
                                ),
                            },
                        },
                    },
                },
            }
        }),
{
    reveal(p_block);
    reveal(p_function);
    reveal(p_parameters);
}


proof fn lemma_p_parameters_unfold(t: Seq<TokenModel>, p: int)
    ensures
        p_parameters(t, p) == ({

            let n = t.len() as int;
            if !(0 <= p < n) {
                Err((ErrorModel { kind: ErrorKind::UnexpectedToken, line: 0 }, p))
            } else if t[p].tokentype == TokenType::RightParen {
                Ok((Seq::empty(), p))
            } else {
                match p_expect(t, p, TokenType::Identifier) {
                    Err(e) => Err(e),
                    Ok((first, p1)) => p_parameters_more(t, seq![first], step_tok(n, p, p1)),
                }
            }
        }),
{
    reveal(p_parameters);
    reveal(p_parameters_more);
}


proof fn lemma_p_parameters_more_unfold(t: Seq<TokenModel>, acc: Seq<TokenModel>, p: int)
    ensures
        p_parameters_more(t, acc, p) == ({

            let n = t.len() as int;
            if 0 <= p < n && t[p].tokentype == TokenType::Comma {
                if acc.len() >= 255 {
                    Err((ErrorModel { kind: ErrorKind::TooManyArguments, line: t[p].line }, p))
                } else {
                    match p_expect(t, p + 1, TokenType::Identifier) {
                        Err(e) => Err(e),
                        Ok((next, p2)) => p_parameters_more(t, acc.push(next), step_tok(n, p, p2)),
                    }
                }
            } else {
                Ok((acc, p))
            }
        }),
{
    reveal(p_parameters_more);
}


proof fn lemma_p_class_unfold(t: Seq<TokenModel>, p: int)
    ensures
        p_class(t, p) == ({

            let n = t.len() as int;
            match p_expect(t, p, TokenType::Identifier) {
                Err(e) => Err(e),
                Ok((name, p1)) => {
                    let sup_res: Result<(Option<TokenModel>, int), (ErrorModel, int)> = if 0 <= p1 < n
                        && t[p1].tokentype == TokenType::Less {
                        match p_expect(t, p1 + 1, TokenType::Identifier) {
                            Err(e) => Err(e),
                            Ok((sup, q)) => Ok((Some(sup), q)),
                        }
                    } else {
                        Ok((None, p1))
                    };
                    match sup_res {
                        Err(e) => Err(e),
                        Ok((superclass, p2)) => match p_expect(t, p2, TokenType::LeftBrace) {
                            Err(e) => Err(e),
                            Ok((_lb, p3)) => match p_class_methods(t, Seq::empty(), step_tok(n, p, p3)) {
                                Err(e) => Err(e),
                                Ok((methods, p4)) => match p_expect(t, p4, TokenType::RightBrace) {
                                    Err(e) => Err(e),
                                    Ok((_rb, p5)) => Ok(
                                        (StmtModel::Class { name, superclass, methods }, p5),
                                    ),
                                },
                            },
                        },
                    }
                },
            }
        }),
{
    reveal(p_class);
    reveal(p_class_methods);
}


proof fn lemma_p_class_methods_unfold(t: Seq<TokenModel>, acc: Seq<StmtModel>, p: int)
    ensures
        p_class_methods(t, acc, p) == ({

            let n = t.len() as int;
            if !(0 <= p < n) || t[p].tokentype == TokenType::RightBrace || t[p].tokentype
                == TokenType::Eof {
                Ok((acc, p))
            } else {
                match p_function(t, p, FunctionType::Method) {
                    Err(e) => Err(e),
                    Ok((m, p1)) => p_class_methods(t, acc.push(m), step_tok(n, p, p1)),
                }
            }
        }),
{
    reveal(p_class_methods);
    reveal(p_function);
}


proof fn lemma_sync_scan_unfold(t: Seq<TokenModel>, p: int)
    ensures
        sync_scan(t, p) == ({

            let n = t.len() as int;
            if !(0 <= p < n) || t[p].tokentype == TokenType::Eof {
                p
            } else if p >= 1 && t[p - 1].tokentype == TokenType::SemiColon {
                p
            } else if is_sync_keyword(t[p].tokentype) {
                p
            } else {
                sync_scan(t, p + 1)
            }
        }),
{
    reveal(sync_scan);
}


proof fn lemma_p_program_unfold(t: Seq<TokenModel>, p: int)
    ensures
        p_program(t, p) == ({

            let n = t.len() as int;
            if !(0 <= p < n) || t[p].tokentype == TokenType::Eof {
                (Seq::empty(), Seq::empty())
            } else {
                match p_declaration(t, p) {
                    Ok((s1, p1)) => {
                        let rest = p_program(t, step_tok(n, p, p1));
                        (seq![s1] + rest.0, rest.1)
                    },
                    Err((em, pe)) => {
                        let pe2 = if p <= pe <= n {
                            pe
                        } else {
                            p
                        };
                        let rest = p_program(t, step_tok(n, p, sync_pos(t, pe2)));
                        (rest.0, seq![em] + rest.1)
                    },
                }
            }
        }),
{
    reveal(p_declaration);
    reveal(p_program);
}



proof fn lemma_sync_scan_bounds(t: Seq<TokenModel>, p: int)
    requires
        0 <= p <= t.len(),
    ensures
        p <= sync_scan(t, p) <= t.len(),
    decreases t.len() - p,
{
    reveal(sync_scan);
    if 0 <= p < t.len() && t[p].tokentype != TokenType::Eof && !(p >= 1 && t[p - 1].tokentype
        == TokenType::SemiColon) && !is_sync_keyword(t[p].tokentype) {
        lemma_sync_scan_bounds(t, p + 1);
    }
}

pub proof fn lemma_deep_toks_push(s: Seq<Token>, e: Token)
    ensures
        deep_toks(s.push(e)) == deep_toks(s).push(e@),
{
    assert forall|i: int| 0 <= i < s.len() + 1 implies deep_toks(s.push(e))[i] == deep_toks(
        s,
    ).push(e@)[i] by {
        if i < s.len() {
            assert(s.push(e)[i] == s[i]);
        } else {
            assert(s.push(e)[i] == e);
        }
    }
    assert(deep_toks(s.push(e)) =~= deep_toks(s).push(e@));
}

pub proof fn lemma_deep_errs_push(s: Seq<Error>, e: Error)
    ensures
        deep_errs(s.push(e)) == deep_errs(s).push(e@),
{
    assert forall|i: int| 0 <= i < s.len() + 1 implies deep_errs(s.push(e))[i] == deep_errs(
        s,
    ).push(e@)[i] by {
        if i < s.len() {
            assert(s.push(e)[i] == s[i]);
        } else {
            assert(s.push(e)[i] == e);
        }
    }
    assert(deep_errs(s.push(e)) =~= deep_errs(s).push(e@));
}

pub proof fn lemma_stmts_view_props(s: Seq<Statement>)
    ensures
        crate::statements::stmts_view(s).len() == s.len(),
        forall|i: int|
            0 <= i < s.len() ==> crate::statements::stmts_view(s)[i] == stmt_view(#[trigger] s[i]),
    decreases s.len(),
{
    if s.len() > 0 {
        lemma_stmts_view_props(s.drop_first());
        assert forall|i: int| 0 <= i < s.len() implies crate::statements::stmts_view(s)[i]
            == stmt_view(#[trigger] s[i]) by {
            if i > 0 {
                assert(s.drop_first()[i - 1] == s[i]);
            }
        }
    }
}

pub proof fn lemma_stmts_view_push(s: Seq<Statement>, e: Statement)
    ensures
        crate::statements::stmts_view(s.push(e)) == crate::statements::stmts_view(s).push(
            stmt_view(e),
        ),
{
    lemma_stmts_view_props(s);
    lemma_stmts_view_props(s.push(e));
    assert forall|i: int| 0 <= i < s.len() + 1 implies crate::statements::stmts_view(s.push(e))[i]
        == crate::statements::stmts_view(s).push(stmt_view(e))[i] by {
        if i < s.len() {
            assert(s.push(e)[i] == s[i]);
        } else {
            assert(s.push(e)[i] == e);
        }
    }
    assert(crate::statements::stmts_view(s.push(e)) =~= crate::statements::stmts_view(s).push(
        stmt_view(e),
    ));
}

impl Parser {
    #[verifier::rlimit(60)]
    fn declaration(&mut self) -> (r: Result<Statement, Error>)
        requires
            old(self).wf(),
        ensures
            final(self).wf(),
            final(self).tokens@ == old(self).tokens@,
            old(self).current <= final(self).current,
            r is Ok ==> final(self).current > old(self).current,
            stmt_outcome(
                p_declaration(old(self).toks(), old(self).current as int),
                r,
                final(self).current as int,
            ),
        decreases self.tokens@.len() - self.current, 30int,
    {
        let ghost t = self.toks();
        let ghost p0 = self.current as int;
        proof {
            lemma_p_declaration_unfold(t, p0);
        }
        let k = self.peek_type();
        if k == TokenType::Var {
            let _kw = self.advance();
            self.var_declaration()
        } else if k == TokenType::Fun {
            let _kw = self.advance();
            self.function(FunctionType::Function)
        } else if k == TokenType::Class {
            let _kw = self.advance();
            self.class_declaration()
        } else {
            self.statement()
        }
    }

    #[verifier::rlimit(60)]
    fn statement(&mut self) -> (r: Result<Statement, Error>)
        requires
            old(self).wf(),
        ensures
            final(self).wf(),
            final(self).tokens@ == old(self).tokens@,
            old(self).current <= final(self).current,
            r is Ok ==> final(self).current > old(self).current,
            stmt_outcome(
                p_statement(old(self).toks(), old(self).current as int),
                r,
                final(self).current as int,
            ),
        decreases self.tokens@.len() - self.current, 29int,
    {
        let ghost t = self.toks();
        let ghost p0 = self.current as int;
        proof {
            lemma_p_statement_unfold(t, p0);
        }
        let k = self.peek_type();
        if k == TokenType::Print {
            let _kw = self.advance();
            self.print_statement()
        } else if k == TokenType::LeftBrace {
            self.block()
        } else if k == TokenType::If {
            let _kw = self.advance();
            self.if_statement()
        } else if k == TokenType::While {
            let _kw = self.advance();
            self.while_statement()
        } else if k == TokenType::For {
            let _kw = self.advance();
            self.for_statement()
        } else if k == TokenType::Return {
            let keyword = self.advance();
            self.return_statement(keyword)
        } else {
            self.expr_statement()
        }
    }

    fn print_statement(&mut self) -> (r: Result<Statement, Error>)
        requires
            old(self).wf(),
        ensures
            final(self).wf(),
            final(self).tokens@ == old(self).tokens@,
            old(self).current <= final(self).current,
            r is Ok ==> final(self).current > old(self).current,
            stmt_outcome(
                p_print_statement(old(self).toks(), old(self).current as int),
                r,
                final(self).current as int,
            ),
        decreases self.tokens@.len() - self.current, 27int,
    {
        let ghost t = self.toks();
        let ghost p0 = self.current as int;
        proof {
            lemma_p_print_statement_unfold(t, p0);
        }
        let expression = match self.expression() {
            Ok(e) => e,
            Err(er) => {
                return Err(er);
            },
        };
        let _semi = match self.consume(TokenType::SemiColon, "expected ; after print value") {
            Ok(tk) => tk,
            Err(er) => {
                return Err(er);
            },
        };
        Ok(Statement::Print { expression })
    }

    fn expr_statement(&mut self) -> (r: Result<Statement, Error>)
        requires
            old(self).wf(),
        ensures
            final(self).wf(),
            final(self).tokens@ == old(self).tokens@,
            old(self).current <= final(self).current,
            r is Ok ==> final(self).current > old(self).current,
            stmt_outcome(
                p_expression_statement(old(self).toks(), old(self).current as int),
                r,
                final(self).current as int,
            ),
        decreases self.tokens@.len() - self.current, 27int,
    {
        let ghost t = self.toks();
        let ghost p0 = self.current as int;
        proof {
            lemma_p_expression_statement_unfold(t, p0);
        }
        let expression = match self.expression() {
            Ok(e) => e,
            Err(er) => {
                return Err(er);
            },
        };
        let _semi = match self.consume(TokenType::SemiColon, "expected ; after expression") {
            Ok(tk) => tk,
            Err(er) => {
                return Err(er);
            },
        };
        Ok(Statement::Expression { expression })
    }

    fn var_declaration(&mut self) -> (r: Result<Statement, Error>)
        requires
            old(self).wf(),
        ensures
            final(self).wf(),
            final(self).tokens@ == old(self).tokens@,
            old(self).current <= final(self).current,
            r is Ok ==> final(self).current > old(self).current,
            stmt_outcome(
                p_var_declaration(old(self).toks(), old(self).current as int),
                r,
                final(self).current as int,
            ),
        decreases self.tokens@.len() - self.current, 27int,
    {
        let ghost t = self.toks();
        let ghost p0 = self.current as int;
        proof {
            lemma_p_var_declaration_unfold(t, p0);
        }
        let name = match self.consume(TokenType::Identifier, "expected variable name") {
            Ok(tk) => tk,
            Err(er) => {
                return Err(er);
            },
        };
        if self.check(TokenType::Equal) {
            let _eq = self.advance();
            let init = match self.expression() {
                Ok(e) => e,
                Err(er) => {
                    return Err(er);
                },
            };
            let _semi = match self.consume(TokenType::SemiColon, "expected semicolon after initializer") {
                Ok(tk) => tk,
                Err(er) => {
                    return Err(er);
                },
            };
            Ok(Statement::Variable { name, init: Some(init) })
        } else {
            let _semi = match self.consume(TokenType::SemiColon, "expected semicolon after declaration") {
                Ok(tk) => tk,
                Err(er) => {
                    return Err(er);
                },
            };
            Ok(Statement::Variable { name, init: None })
        }
    }

    fn return_statement(&mut self, keyword: Token) -> (r: Result<Statement, Error>)
        requires
            old(self).wf(),
        ensures
            final(self).wf(),
            final(self).tokens@ == old(self).tokens@,
            old(self).current <= final(self).current,
            r is Ok ==> final(self).current > old(self).current,
            stmt_outcome(
                p_return_statement(old(self).toks(), keyword@, old(self).current as int),
                r,
                final(self).current as int,
            ),
        decreases self.tokens@.len() - self.current, 27int,
    {
        let ghost t = self.toks();
        let ghost p0 = self.current as int;
        proof {
            lemma_p_return_statement_unfold(t, keyword@, p0);
        }
        if self.check(TokenType::SemiColon) {
            let _semi = self.advance();
            Ok(Statement::Return { keyword, value: None })
        } else {
            let value = match self.expression() {
                Ok(e) => e,
                Err(er) => {
                    return Err(er);
                },
            };
            let _semi = match self.consume(TokenType::SemiColon, "expected semicolon after return") {
                Ok(tk) => tk,
                Err(er) => {
                    return Err(er);
                },
            };
            Ok(Statement::Return { keyword, value: Some(value) })
        }
    }

    #[verifier::rlimit(60)]
    fn block(&mut self) -> (r: Result<Statement, Error>)
        requires
            old(self).wf(),
        ensures
            final(self).wf(),
            final(self).tokens@ == old(self).tokens@,
            old(self).current <= final(self).current,
            r is Ok ==> final(self).current > old(self).current,
            stmt_outcome(
                p_block(old(self).toks(), old(self).current as int),
                r,
                final(self).current as int,
            ),
        decreases self.tokens@.len() - self.current, 28int,
    {
        let ghost t = self.toks();
        let ghost p0 = self.current as int;
        proof {
            lemma_p_block_unfold(t, p0);
        }
        let _lb = match self.consume(TokenType::LeftBrace, "expect '{' before block") {
            Ok(tk) => tk,
            Err(er) => {
                return Err(er);
            },
        };
        let statements = match self.block_items() {
            Ok(v) => v,
            Err(er) => {
                return Err(er);
            },
        };
        let _rb = match self.consume(TokenType::RightBrace, "expect '}' after block") {
            Ok(tk) => tk,
            Err(er) => {
                return Err(er);
            },
        };
        Ok(Statement::Block { statements })
    }

    /// The declarations of a block, up to its closing brace (not consumed).
    #[verifier::rlimit(60)]
    fn block_items(&mut self) -> (r: Result<Vec<Statement>, Error>)
        requires
            old(self).wf(),
        ensures
            final(self).wf(),
            final(self).tokens@ == old(self).tokens@,
            old(self).current <= final(self).current,
            ({
                let res = p_block_items(old(self).toks(), Seq::empty(), old(self).current as int);
                match res {
                    Ok((items, p2)) => r matches Ok(v) && crate::statements::stmts_view(v@)
                        == items && final(self).current == p2,
                    Err((em, pe)) => r matches Err(er) && er@ == em && final(self).current == pe,
                }
            }),
        decreases self.tokens@.len() - self.current, 31int,
    {
        let ghost t = self.toks();
        let ghost p0 = self.current as int;
        let mut stmnts: Vec<Statement> = Vec::new();
        proof {
            assert(crate::statements::stmts_view(stmnts@) =~= Seq::<StmtModel>::empty());
        }
        while !self.check(TokenType::RightBrace) && !self.at_end()
            invariant
                self.wf(),
                self.tokens@ == old(self).tokens@,
                t == self.toks(),
                p0 == old(self).current,
                p0 <= self.current,
                p_block_items(t, Seq::empty(), p0) == p_block_items(
                    t,
                    crate::statements::stmts_view(stmnts@),
                    self.current as int,
                ),
            decreases t.len() - self.current,
        {
            proof {
                lemma_p_block_items_unfold(
                    t,
                    crate::statements::stmts_view(stmnts@),
                    self.current as int,
                );
            }
            let d = match self.declaration() {
                Ok(st) => st,
                Err(er) => {
                    return Err(er);
                },
            };
            let ghost pre = stmnts@;
            stmnts.push(d);
            proof {
                lemma_stmts_view_push(pre, d);
            }
        }
        proof {
            lemma_p_block_items_unfold(
                t,
                crate::statements::stmts_view(stmnts@),
                self.current as int,
            );
        }
        Ok(stmnts)
    }

    fn if_statement(&mut self) -> (r: Result<Statement, Error>)
        requires
            old(self).wf(),
        ensures
            final(self).wf(),
            final(self).tokens@ == old(self).tokens@,
            old(self).current <= final(self).current,
            r is Ok ==> final(self).current > old(self).current,
            stmt_outcome(
                p_if_statement(old(self).toks(), old(self).current as int),
                r,
                final(self).current as int,
            ),
        decreases self.tokens@.len() - self.current, 27int,
    {
        let ghost t = self.toks();
        let ghost p0 = self.current as int;
        proof {
            lemma_p_if_statement_unfold(t, p0);
        }
        let _lp = match self.consume(TokenType::LeftParen, "expect '(' after 'if'") {
            Ok(tk) => tk,
            Err(er) => {
                return Err(er);
            },
        };
        let condition = match self.expression() {
            Ok(e) => e,
            Err(er) => {
                return Err(er);
            },
        };
        let _rp = match self.consume(TokenType::RightParen, "expect ')' after 'if'") {
            Ok(tk) => tk,
            Err(er) => {
                return Err(er);
            },
        };
        let then_b = match self.block() {
            Ok(st) => st,
            Err(er) => {
                return Err(er);
            },
        };
        if self.check(TokenType::Else) {
            let _kw = self.advance();
            let else_b = match self.block() {
                Ok(st) => st,
                Err(er) => {
                    return Err(er);
                },
            };
            Ok(Statement::If {
                condition,
                then_branch: Box::new(then_b),
                else_branch: Some(Box::new(else_b)),
            })
        } else {
            Ok(Statement::If { condition, then_branch: Box::new(then_b), else_branch: None })
        }
    }

    fn while_statement(&mut self) -> (r: Result<Statement, Error>)
        requires
            old(self).wf(),
        ensures
            final(self).wf(),
            final(self).tokens@ == old(self).tokens@,
            old(self).current <= final(self).current,
            r is Ok ==> final(self).current > old(self).current,
            stmt_outcome(
                p_while_statement(old(self).toks(), old(self).current as int),
                r,
                final(self).current as int,
            ),
        decreases self.tokens@.len() - self.current, 27int,
    {
        let ghost t = self.toks();
        let ghost p0 = self.current as int;
        proof {
            lemma_p_while_statement_unfold(t, p0);
        }
        let _lp = match self.consume(TokenType::LeftParen, "expect '(' after 'while'") {
            Ok(tk) => tk,
            Err(er) => {
                return Err(er);
            },
        };
        let condition = match self.expression() {
            Ok(e) => e,
            Err(er) => {
                return Err(er);
            },
        };
        let _rp = match self.consume(TokenType::RightParen, "expect ')' after 'while'") {
            Ok(tk) => tk,
            Err(er) => {
                return Err(er);
            },
        };
        let body = match self.block() {
            Ok(st) => st,
            Err(er) => {
                return Err(er);
            },
        };
        Ok(Statement::While { condition, body: Box::new(body) })
    }

    #[verifier::rlimit(60)]
    fn for_statement(&mut self) -> (r: Result<Statement, Error>)
        requires
            old(self).wf(),
        ensures
            final(self).wf(),
            final(self).tokens@ == old(self).tokens@,
            old(self).current <= final(self).current,
            r is Ok ==> final(self).current > old(self).current,
            stmt_outcome(
                p_for_statement(old(self).toks(), old(self).current as int),
                r,
                final(self).current as int,
            ),
        decreases self.tokens@.len() - self.current, 27int,
    {
        let ghost t = self.toks();
        let ghost p0 = self.current as int;
        proof {
            lemma_p_for_statement_unfold(t, p0);
        }
        let _lp = match self.consume(TokenType::LeftParen, "expect '(' after 'for'") {
            Ok(tk) => tk,
            Err(er) => {
                return Err(er);
            },
        };
        let init: Option<Statement>;
        if self.check(TokenType::SemiColon) {
            let _semi = self.advance();
            init = None;
        } else if self.check(TokenType::Var) {
            let _kw = self.advance();
            let s1 = match self.var_declaration() {
                Ok(st) => st,
                Err(er) => {
                    return Err(er);
                },
            };
            init = Some(s1);
        } else {
            let s1 = match self.expr_statement() {
                Ok(st) => st,
                Err(er) => {
                    return Err(er);
                },
            };
            init = Some(s1);
        }
        let condition: Option<Expression>;
        if self.check(TokenType::SemiColon) {
            condition = None;
        } else {
            let c1 = match self.expression() {
                Ok(e) => e,
                Err(er) => {
                    return Err(er);
                },
            };
            condition = Some(c1);
        }
        let _semi = match self.consume(TokenType::SemiColon, "expect ';' after loop condition") {
            Ok(tk) => tk,
            Err(er) => {
                return Err(er);
            },
        };
        let increment: Option<Expression>;
        if self.check(TokenType::RightParen) {
            increment = None;
        } else {
            let i1 = match self.expression() {
                Ok(e) => e,
                Err(er) => {
                    return Err(er);
                },
            };
            increment = Some(i1);
        }
        let _rp = match self.consume(TokenType::RightParen, "expect ')' after 'for' clauses") {
            Ok(tk) => tk,
            Err(er) => {
                return Err(er);
            },
        };
        let body = match self.block() {
            Ok(st) => st,
            Err(er) => {
                return Err(er);
            },
        };
        Ok(Statement::For {
            init: Box::new(init),
            condition,
            increment,
            body: Box::new(body),
        })
    }

    #[verifier::rlimit(60)]
    fn function(&mut self, functype: FunctionType) -> (r: Result<Statement, Error>)
        requires
            old(self).wf(),
        ensures
            final(self).wf(),
            final(self).tokens@ == old(self).tokens@,
            old(self).current <= final(self).current,
            r is Ok ==> final(self).current > old(self).current,
            stmt_outcome(
                p_function(old(self).toks(), old(self).current as int, functype),
                r,
                final(self).current as int,
            ),
        decreases self.tokens@.len() - self.current, 27int,
    {
        let ghost t = self.toks();
        let ghost p0 = self.current as int;
        proof {
            lemma_p_function_unfold(t, p0, functype);
        }
        let name = match self.consume(TokenType::Identifier, "expect a name") {
            Ok(tk) => tk,
            Err(er) => {
                return Err(er);
            },
        };
        let _lp = match self.consume(TokenType::LeftParen, "expect '(' after the name") {
            Ok(tk) => tk,
            Err(er) => {
                return Err(er);
            },
        };
        let params = match self.parameters() {
            Ok(v) => v,
            Err(er) => {
                return Err(er);
            },
        };
        let _rp = match self.consume(TokenType::RightParen, "expect ')' after params") {
            Ok(tk) => tk,
            Err(er) => {
                return Err(er);
            },
        };
        let body = match self.block() {
            Ok(st) => st,
            Err(er) => {
                return Err(er);
            },
        };
        Ok(Statement::Function { name, params, body: Box::new(body), functype })
    }

    /// A parameter list, up to the closing parenthesis (not consumed); more
    /// than 255 parameters is an error.
    fn parameters(&mut self) -> (r: Result<Vec<Token>, Error>)
        requires
            old(self).wf(),
        ensures
            final(self).wf(),
            final(self).tokens@ == old(self).tokens@,
            old(self).current <= final(self).current,
            ({
                let res = p_parameters(old(self).toks(), old(self).current as int);
                match res {
                    Ok((ps, p2)) => r matches Ok(v) && deep_toks(v@) == ps && final(self).current
                        == p2,
                    Err((em, pe)) => r matches Err(er) && er@ == em && final(self).current == pe,
                }
            }),
    {
        let ghost t = self.toks();
        let ghost p0 = self.current as int;
        proof {
            lemma_p_parameters_unfold(t, p0);
        }
        let mut params: Vec<Token> = Vec::new();
        if self.check(TokenType::RightParen) {
            proof {
                assert(deep_toks(params@) =~= Seq::<TokenModel>::empty());
            }
            return Ok(params);
        }
        let first = match self.consume(TokenType::Identifier, "expected identifier in params") {
            Ok(tk) => tk,
            Err(er) => {
                return Err(er);
            },
        };
        let ghost pre0 = params@;
        params.push(first);
        proof {
            lemma_deep_toks_push(pre0, first);
            assert(deep_toks(pre0) =~= Seq::<TokenModel>::empty());
            assert(deep_toks(params@) =~= seq![first@]);
        }
        while self.check(TokenType::Comma)
            invariant
                self.wf(),
                self.tokens@ == old(self).tokens@,
                t == self.toks(),
                p0 == old(self).current,
                p0 <= self.current,
                p_parameters(t, p0) == p_parameters_more(
                    t,
                    deep_toks(params@),
                    self.current as int,
                ),
            decreases t.len() - self.current,
        {
            proof {
                lemma_p_parameters_more_unfold(t, deep_toks(params@), self.current as int);
            }
            if params.len() >= 255 {
                return Err(
                    Error::new(ErrorKind::TooManyArguments, self.tokens[self.current].line),
                );
            }
            let _comma = self.advance();
            let next = match self.consume(TokenType::Identifier, "expected identifier in params") {
                Ok(tk) => tk,
                Err(er) => {
                    return Err(er);
                },
            };
            let ghost pre = params@;
            params.push(next);
            proof {
                lemma_deep_toks_push(pre, next);
            }
        }
        proof {
            lemma_p_parameters_more_unfold(t, deep_toks(params@), self.current as int);
        }
        Ok(params)
    }

    #[verifier::rlimit(60)]
    fn class_declaration(&mut self) -> (r: Result<Statement, Error>)
        requires
            old(self).wf(),
        ensures
            final(self).wf(),
            final(self).tokens@ == old(self).tokens@,
            old(self).current <= final(self).current,
            r is Ok ==> final(self).current > old(self).current,
            stmt_outcome(
                p_class(old(self).toks(), old(self).current as int),
                r,
                final(self).current as int,
            ),
        decreases self.tokens@.len() - self.current, 27int,
    {
        let ghost t = self.toks();
        let ghost p0 = self.current as int;
        proof {
            lemma_p_class_unfold(t, p0);
        }
        let name = match self.consume(TokenType::Identifier, "expect class name") {
            Ok(tk) => tk,
            Err(er) => {
                return Err(er);
            },
        };
        let superclass: Option<Token>;
        if self.check(TokenType::Less) {
            let _less = self.advance();
            let sup = match self.consume(TokenType::Identifier, "expect superclass name") {
                Ok(tk) => tk,
                Err(er) => {
                    return Err(er);
                },
            };
            superclass = Some(sup);
        } else {
            superclass = None;
        }
        let _lb = match self.consume(TokenType::LeftBrace, "expect '{' before class body") {
            Ok(tk) => tk,
            Err(er) => {
                return Err(er);
            },
        };
        let methods = match self.class_methods() {
            Ok(v) => v,
            Err(er) => {
                return Err(er);
            },
        };
        let _rb = match self.consume(TokenType::RightBrace, "expect '}' after class body") {
            Ok(tk) => tk,
            Err(er) => {
                return Err(er);
            },
        };
        Ok(Statement::Class { name, superclass, methods })
    }

    /// The methods of a class body, up to its closing brace (not consumed).
    #[verifier::rlimit(60)]
    fn class_methods(&mut self) -> (r: Result<Vec<Statement>, Error>)
        requires
            old(self).wf(),
        ensures
            final(self).wf(),
            final(self).tokens@ == old(self).tokens@,
            old(self).current <= final(self).current,
            ({
                let res = p_class_methods(old(self).toks(), Seq::empty(), old(self).current as int);
                match res {
                    Ok((items, p2)) => r matches Ok(v) && crate::statements::stmts_view(v@)
                        == items && final(self).current == p2,
                    Err((em, pe)) => r matches Err(er) && er@ == em && final(self).current == pe,
                }
            }),
        decreases self.tokens@.len() - self.current, 31int,
    {
        let ghost t = self.toks();
        let ghost p0 = self.current as int;
        let mut methods: Vec<Statement> = Vec::new();
        proof {
            assert(crate::statements::stmts_view(methods@) =~= Seq::<StmtModel>::empty());
        }
        while !self.check(TokenType::RightBrace) && !self.at_end()
            invariant
                self.wf(),
                self.tokens@ == old(self).tokens@,
                t == self.toks(),
                p0 == old(self).current,
                p0 <= self.current,
                p_class_methods(t, Seq::empty(), p0) == p_class_methods(
                    t,
                    crate::statements::stmts_view(methods@),
                    self.current as int,
                ),
            decreases t.len() - self.current,
        {
            proof {
                lemma_p_class_methods_unfold(
                    t,
                    crate::statements::stmts_view(methods@),
                    self.current as int,
                );
            }
            let m = match self.function(FunctionType::Method) {
                Ok(st) => st,
                Err(er) => {
                    return Err(er);
                },
            };
            let ghost pre = methods@;
            methods.push(m);
            proof {
                lemma_stmts_view_push(pre, m);
            }
        }
        proof {
            lemma_p_class_methods_unfold(
                t,
                crate::statements::stmts_view(methods@),
                self.current as int,
            );
        }
        Ok(methods)
    }

    /// After a syntax error: discards tokens through the next semicolon or to
    /// the start of the next statement keyword.
    fn synchronize(&mut self)
        requires
            old(self).wf(),
        ensures
            final(self).wf(),
            final(self).tokens@ == old(self).tokens@,
            old(self).current <= final(self).current,
            final(self).current as int == sync_pos(old(self).toks(), old(self).current as int),
    {
        let ghost t = self.toks();
        let ghost p0 = self.current as int;
        if !self.at_end() {
            let _skipped = self.advance();
        }
        while !self.at_end()
            invariant
                self.wf(),
                self.tokens@ == old(self).tokens@,
                t == self.toks(),
                p0 == old(self).current,
                p0 <= self.current,
                self.current > p0 || t[p0].tokentype == TokenType::Eof,
                sync_pos(t, p0) == sync_scan(t, self.current as int),
            decreases t.len() - self.current,
        {
            proof {
                lemma_sync_scan_unfold(t, self.current as int);
            }
            if self.tokens[self.current - 1].tokentype == TokenType::SemiColon {
                return;
            }
            let k = self.peek_type();
            if k == TokenType::Class || k == TokenType::Fun || k == TokenType::Var || k
                == TokenType::For || k == TokenType::If || k == TokenType::While || k
                == TokenType::Print || k == TokenType::Return {
                return;
            }
            let _skipped = self.advance();
        }
        proof {
            lemma_sync_scan_unfold(t, self.current as int);
        }
    }

    /// Parses the whole program: the returned statements and recorded errors
    /// are exactly what the grammar model assigns to the token list, errors
    /// skipped past by `synchronize`.
    pub fn parse(&mut self) -> (r: (Vec<Statement>, Vec<Error>))
        requires
            old(self).wf(),
            old(self).current == 0,
        ensures
            final(self).wf(),
            final(self).tokens@ == old(self).tokens@,
            crate::statements::stmts_view(r.0@) == p_program(old(self).toks(), 0).0,
            deep_errs(r.1@) == p_program(old(self).toks(), 0).1,
    {
        let ghost t = self.toks();
        let mut statements: Vec<Statement> = Vec::new();
        let mut errors: Vec<Error> = Vec::new();
        proof {
            assert(crate::statements::stmts_view(statements@) =~= Seq::<StmtModel>::empty());
            assert(deep_errs(errors@) =~= Seq::<ErrorModel>::empty());
        }
        while !self.at_end()
            invariant
                self.wf(),
                self.tokens@ == old(self).tokens@,
                t == self.toks(),
                p_program(t, 0).0 == crate::statements::stmts_view(statements@) + p_program(
                    t,
                    self.current as int,
                ).0,
                p_program(t, 0).1 == deep_errs(errors@) + p_program(t, self.current as int).1,
            decreases t.len() - self.current,
        {
            let ghost cur0 = self.current as int;
            proof {
                lemma_p_program_unfold(t, cur0);
            }
            match self.declaration() {
                Ok(st) => {
                    let ghost pre = statements@;
                    statements.push(st);
                    proof {
                        lemma_stmts_view_push(pre, st);
                        assert(p_program(t, 0).0 =~= crate::statements::stmts_view(statements@)
                            + p_program(t, self.current as int).0);
                        assert(p_program(t, 0).1 =~= deep_errs(errors@) + p_program(
                            t,
                            self.current as int,
                        ).1);
                    }
                },
                Err(er) => {
                    let ghost epre = errors@;
                    let ghost pe = self.current as int;
                    errors.push(er);
                    self.synchronize();
                    proof {
                        lemma_deep_errs_push(epre, er);
                        if t[pe].tokentype != TokenType::Eof {
                            lemma_sync_scan_bounds(t, pe + 1);
                        } else {
                            lemma_sync_scan_bounds(t, pe);
                        }
                        assert(p_program(t, 0).0 =~= crate::statements::stmts_view(statements@)
                            + p_program(t, self.current as int).0);
                        assert(p_program(t, 0).1 =~= deep_errs(errors@) + p_program(
                            t,
                            self.current as int,
                        ).1);
                    }
                },
            }
        }
        proof {
            lemma_p_program_unfold(t, self.current as int);
            assert(crate::statements::stmts_view(statements@) =~= p_program(t, 0).0);
            assert(deep_errs(errors@) =~= p_program(t, 0).1);
        }
        (statements, errors)
    }
}

/// Every token list the lexer produces is well formed: one end-of-input
/// sentinel, standing last.
pub proof fn lemma_wf_prepend(tm: TokenModel, s: Seq<TokenModel>)
    requires
        wf_tokens(s),
        tm.tokentype != TokenType::Eof,
    ensures
        wf_tokens(seq![tm] + s),
{
    let joined = seq![tm] + s;
    assert(joined.last() == s.last());
    assert forall|i: int| 0 <= i < joined.len() - 1 implies (#[trigger] joined[i].tokentype)
        != TokenType::Eof by {
        if i > 0 {
            assert(joined[i] == s[i - 1]);
        }
    }
}

pub proof fn lemma_lex_from_wf(src: Seq<char>, pos: int, line: nat)
    ensures
        wf_tokens(crate::scanner::lex_from(src, pos, line).toks),
    decreases src.len() - pos,
{
    let out = crate::scanner::lex_from(src, pos, line);
    if !(0 <= pos < src.len()) {
        assert(out.toks == seq![crate::scanner::eof_token(line)]);
    } else {
        let c = src[pos];
        if c == '"' {
            let close = crate::scanner::string_end(src, pos + 1);
            let line2 = line + crate::scanner::newlines_between(src, pos + 1, close);
            if close >= src.len() {
                lemma_lex_from_wf(src, crate::scanner::step_to(src, pos, close), line2);
            } else {
                lemma_lex_from_wf(src, crate::scanner::step_to(src, pos, close + 1), line2);
                lemma_wf_prepend(
                    crate::scanner::tok(
                        TokenType::String,
                        src.subrange(pos, close + 1),
                        src.subrange(pos + 1, close),
                        line2,
                    ),
                    crate::scanner::lex_from(
                        src,
                        crate::scanner::step_to(src, pos, close + 1),
                        line2,
                    ).toks,
                );
            }
        } else if crate::scanner::is_digit_char(c) {
            let end = crate::scanner::number_end(src, pos);
            let next = crate::scanner::step_to(src, pos, end);
            lemma_lex_from_wf(src, next, line);
            let text = src.subrange(pos, next);
            lemma_wf_prepend(
                crate::scanner::tok(TokenType::Number, text, text, line),
                crate::scanner::lex_from(src, next, line).toks,
            );
        } else if crate::scanner::is_alpha_char(c) {
            let end = crate::scanner::alnum_end(src, pos + 1);
            let next = crate::scanner::step_to(src, pos, end);
            lemma_lex_from_wf(src, next, line);
            let text = src.subrange(pos, next);
            lemma_wf_prepend(
                crate::scanner::tok(crate::scanner::keyword_kind(text), text, Seq::empty(), line),
                crate::scanner::lex_from(src, next, line).toks,
            );
            assert(crate::scanner::keyword_kind(text) != TokenType::Eof);
        } else if c == '!' || c == '=' || c == '<' || c == '>' {
            if pos + 1 < src.len() && src[pos + 1] == '=' {
                lemma_lex_from_wf(src, pos + 2, line);
                lemma_wf_prepend(out.toks[0], crate::scanner::lex_from(src, pos + 2, line).toks);
            } else {
                lemma_lex_from_wf(src, pos + 1, line);
                lemma_wf_prepend(out.toks[0], crate::scanner::lex_from(src, pos + 1, line).toks);
            }
        } else if c == '/' {
            if pos + 1 < src.len() && src[pos + 1] == '/' {
                lemma_lex_from_wf(
                    src,
                    crate::scanner::step_to(src, pos, crate::scanner::comment_end(src, pos + 2)),
                    line,
                );
            } else {
                lemma_lex_from_wf(src, pos + 1, line);
                lemma_wf_prepend(out.toks[0], crate::scanner::lex_from(src, pos + 1, line).toks);
            }
        } else if c == ' ' || c == '\r' || c == '\t' {
            lemma_lex_from_wf(src, pos + 1, line);
        } else if c == '\n' {
            lemma_lex_from_wf(src, pos + 1, line + 1);
        } else if c == '(' || c == ')' || c == '{' || c == '}' || c == ',' || c == '.' || c == '-'
            || c == '+' || c == ';' || c == '*' {
            lemma_lex_from_wf(src, pos + 1, line);
            lemma_wf_prepend(out.toks[0], crate::scanner::lex_from(src, pos + 1, line).toks);
        } else {
            lemma_lex_from_wf(src, pos + 1, line);
        }
    }
}

/// The lexer's whole output is a well-formed token list, so it can be handed
/// to `Parser::new` directly.
pub proof fn lemma_lex_spec_wf(src: Seq<char>)
    ensures
        wf_tokens(crate::scanner::lex_spec(src).toks),
{
    lemma_lex_from_wf(src, 0, 1);
}


/// The whole front end: lexes the source, then parses the token list.  The
/// returned statements follow the grammar model applied to the lexer model's
/// tokens; the returned errors are the lexer's, then the parser's, in order.
pub fn parse_source(script: std::string::String) -> (r: (Vec<Statement>, Vec<Error>))
    requires
        script@.len() < usize::MAX,
    ensures
        crate::statements::stmts_view(r.0@) == p_program(
            crate::scanner::lex_spec(script@).toks,
            0,
        ).0,
        deep_errs(r.1@) == crate::scanner::lex_spec(script@).errs + p_program(
            crate::scanner::lex_spec(script@).toks,
            0,
        ).1,
{
    let ghost src = script@;
    let mut scanner = crate::scanner::Scanner::new(script);
    let tokens = scanner.scan_tokens();
    proof {
        lemma_lex_spec_wf(src);
    }
    let mut parser = Parser::new(tokens);
    let (statements, parse_errors) = parser.parse();
    let mut errors = scanner.errors;
    let ghost lex_errs = errors@;
    let mut rest = parse_errors;
    let ghost rest0 = rest@;
    let mut i: usize = 0;
    while i < rest.len()
        invariant
            i <= rest0.len(),
            rest@ == rest0,
            errors@ == lex_errs + rest0.subrange(0, i as int),
        decreases rest0.len() - i,
    {
        let e = rest[i];
        errors.push(e);
        i += 1;
        proof {
            assert(errors@ =~= lex_errs + rest0.subrange(0, i as int));
        }
    }
    proof {
        assert(rest0.subrange(0, rest0.len() as int) =~= rest0);
        assert(errors@ == lex_errs + rest0);
        assert(deep_errs(lex_errs + rest0) =~= deep_errs(lex_errs) + deep_errs(rest0));
    }
    (statements, errors)
}

} // verus!

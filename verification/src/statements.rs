use vstd::prelude::*;

use crate::expressions::{expr_view, ExprModel, Expression, FunctionType};
use crate::scanner::deep_toks;
use crate::token::{Token, TokenModel};

verus! {

/// A statement tree node.  `For` is kept as its own node rather than
/// desugared to `While`, so the evaluator manages the loop's scope itself.
#[derive(Debug)]
pub enum Statement {
    Block { statements: Vec<Statement> },
    Class { name: Token, superclass: Option<Token>, methods: Vec<Statement> },
    Expression { expression: Expression },
    Function { name: Token, params: Vec<Token>, body: Box<Statement>, functype: FunctionType },
    If { condition: Expression, then_branch: Box<Statement>, else_branch: Option<Box<Statement>> },
    Print { expression: Expression },
    Return { keyword: Token, value: Option<Expression> },
    Variable { name: Token, init: Option<Expression> },
    While { condition: Expression, body: Box<Statement> },
    For {
        init: Box<Option<Statement>>,
        condition: Option<Expression>,
        increment: Option<Expression>,
        body: Box<Statement>,
    },
}

/// The mathematical shadow of a statement.
pub ghost enum StmtModel {
    Block { statements: Seq<StmtModel> },
    Class { name: TokenModel, superclass: Option<TokenModel>, methods: Seq<StmtModel> },
    Expression { expression: ExprModel },
    Function { name: TokenModel, params: Seq<TokenModel>, body: Box<StmtModel>, functype: FunctionType },
    If { condition: ExprModel, then_branch: Box<StmtModel>, else_branch: Option<Box<StmtModel>> },
    Print { expression: ExprModel },
    Return { keyword: TokenModel, value: Option<ExprModel> },
    Variable { name: TokenModel, init: Option<ExprModel> },
    While { condition: ExprModel, body: Box<StmtModel> },
    For {
        init: Option<Box<StmtModel>>,
        condition: Option<ExprModel>,
        increment: Option<ExprModel>,
        body: Box<StmtModel>,
    },
}

pub open spec fn stmt_view(s: Statement) -> StmtModel
    decreases s, 1int,
{
    match s {
        Statement::Block { statements } => {
            proof {
                broadcast use vstd::std_specs::vec::axiom_vec_decreases_to_view;
            }
            StmtModel::Block { statements: stmts_view(statements@) }
        },
        Statement::Class { name, superclass, methods } => {
            proof {
                broadcast use vstd::std_specs::vec::axiom_vec_decreases_to_view;
            }
            StmtModel::Class {
                name: name@,
                superclass: match superclass {
                    Some(t) => Some(t@),
                    None => None,
                },
                methods: stmts_view(methods@),
            }
        },
        Statement::Expression { expression } => StmtModel::Expression {
            expression: expr_view(expression),
        },
        Statement::Function { name, params, body, functype } => StmtModel::Function {
            name: name@,
            params: deep_toks(params@),
            body: Box::new(stmt_view(*body)),
            functype,
        },
        Statement::If { condition, then_branch, else_branch } => StmtModel::If {
            condition: expr_view(condition),
            then_branch: Box::new(stmt_view(*then_branch)),
            else_branch: match else_branch {
                Some(b) => Some(Box::new(stmt_view(*b))),
                None => None,
            },
        },
        Statement::Print { expression } => StmtModel::Print { expression: expr_view(expression) },
        Statement::Return { keyword, value } => StmtModel::Return {
            keyword: keyword@,
            value: match value {
                Some(e) => Some(expr_view(e)),
                None => None,
            },
        },
        Statement::Variable { name, init } => StmtModel::Variable {
            name: name@,
            init: match init {
                Some(e) => Some(expr_view(e)),
                None => None,
            },
        },
        Statement::While { condition, body } => StmtModel::While {
            condition: expr_view(condition),
            body: Box::new(stmt_view(*body)),
        },
        Statement::For { init, condition, increment, body } => StmtModel::For {
            init: match *init {
                Some(s2) => Some(Box::new(stmt_view(s2))),
                None => None,
            },
            condition: match condition {
                Some(e) => Some(expr_view(e)),
                None => None,
            },
            increment: match increment {
                Some(e) => Some(expr_view(e)),
                None => None,
            },
            body: Box::new(stmt_view(*body)),
        },
    }
}

pub open spec fn stmts_view(ss: Seq<Statement>) -> Seq<StmtModel>
    decreases ss, 2int,
{
    if ss.len() == 0 {
        Seq::empty()
    } else {
        proof {
            broadcast use vstd::seq::axiom_seq_index_decreases;

            assert(decreases_to!(ss => ss[0]));
            vstd::seq::axiom_seq_len_decreases(ss, ss.drop_first());
        }
        seq![stmt_view(ss[0])] + stmts_view(ss.drop_first())
    }
}

impl View for Statement {
    type V = StmtModel;

    open spec fn view(&self) -> StmtModel {
        stmt_view(*self)
    }
}

} // verus!

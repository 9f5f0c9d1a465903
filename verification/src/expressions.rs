use vstd::prelude::*;

use crate::statements::{stmt_view, Statement, StmtModel};
use crate::token::{Token, TokenModel};

verus! {

/// What kind of callable a function value is; constructors are the methods
/// named like their class.
#[derive(Clone, Copy, Debug, PartialEq, Eq, Structural)]
pub enum FunctionType {
    Function,
    Method,
    Constructor,
}

/// The built-in functions the global scope starts with.
#[derive(Clone, Copy, Debug, PartialEq, Eq, Structural)]
pub enum InternalFunction {
    Time,
    Clock,
}

/// A captured binding: the name and the cell (in the environment's cell
/// arena) that the closure shares with its defining scope.
#[derive(Debug)]
pub struct Capture {
    pub name: std::string::String,
    pub cell: usize,
}

/// A runtime value.  Numbers carry the bit pattern of an IEEE-754 double.
/// Class and instance values are handles into the environment's arenas, so
/// that every alias of an instance observes its field writes.  A function
/// value carries the parameter list, the body, the captured cells, and the
/// class it was defined in (for `super`); `id` distinguishes it from every
/// other function value, giving reference equality.
#[derive(Debug)]
pub enum Object {
    StringObject(std::string::String),
    NumberObject(u64),
    BoolObject(bool),
    InternalFunction { internaltype: InternalFunction },
    FunctionObject {
        name: Token,
        parameters: Vec<Token>,
        body: Box<Statement>,
        captures: Vec<Capture>,
        functype: FunctionType,
        defining_class: Option<usize>,
        id: usize,
    },
    Class { name: Token, index: usize },
    ClassInstance { index: usize },
    NilObject,
}

/// An expression tree node.
#[derive(Debug)]
pub enum Expression {
    Assign { name: Token, value: Box<Expression> },
    Binary { left: Box<Expression>, operator: Token, right: Box<Expression> },
    Call { callee: Box<Expression>, paren: Token, arguments: Vec<Expression> },
    Get { object: Box<Expression>, name: Token },
    Grouping { expression: Box<Expression> },
    Literal { value: Object },
    Logical { left: Box<Expression>, operator: Token, right: Box<Expression> },
    SetProperty { object: Box<Expression>, name: Token, value: Box<Expression> },
    Super { keyword: Token, method: Token },
    This { keyword: Token },
    Unary { operator: Token, right: Box<Expression> },
    Variable { name: Token },
}

// ---------------------------------------------------------------------------
// The mathematical shadows of values and expressions: the same shapes with
// strings as character sequences and vectors as sequences.  The parser's and
// evaluator's models are stated over these.
// ---------------------------------------------------------------------------
pub ghost enum ObjectModel {
    StringV(Seq<char>),
    NumberV(u64),
    BoolV(bool),
    BuiltinV(InternalFunction),
    FunctionV {
        name: TokenModel,
        parameters: Seq<TokenModel>,
        body: Box<StmtModel>,
        captures: Seq<(Seq<char>, int)>,
        functype: FunctionType,
        defining_class: Option<int>,
        id: int,
    },
    ClassV { name: TokenModel, index: int },
    InstanceV { index: int },
    NilV,
}

pub ghost enum ExprModel {
    Assign { name: TokenModel, value: Box<ExprModel> },
    Binary { left: Box<ExprModel>, operator: TokenModel, right: Box<ExprModel> },
    Call { callee: Box<ExprModel>, paren: TokenModel, arguments: Seq<ExprModel> },
    Get { object: Box<ExprModel>, name: TokenModel },
    Grouping { expression: Box<ExprModel> },
    Literal { value: ObjectModel },
    Logical { left: Box<ExprModel>, operator: TokenModel, right: Box<ExprModel> },
    SetProperty { object: Box<ExprModel>, name: TokenModel, value: Box<ExprModel> },
    Super { keyword: TokenModel, method: TokenModel },
    This { keyword: TokenModel },
    Unary { operator: TokenModel, right: Box<ExprModel> },
    Variable { name: TokenModel },
}

pub open spec fn caps_view(cs: Seq<Capture>) -> Seq<(Seq<char>, int)> {
    cs.map_values(|c: Capture| (c.name@, c.cell as int))
}

pub open spec fn obj_view(o: Object) -> ObjectModel
    decreases o, 0int,
{
    match o {
        Object::StringObject(s) => ObjectModel::StringV(s@),
        Object::NumberObject(b) => ObjectModel::NumberV(b),
        Object::BoolObject(b) => ObjectModel::BoolV(b),
        Object::InternalFunction { internaltype } => ObjectModel::BuiltinV(internaltype),
        Object::FunctionObject { name, parameters, body, captures, functype, defining_class, id } => {
            proof {
                broadcast use vstd::std_specs::vec::axiom_vec_decreases_to_view;
            }
            ObjectModel::FunctionV {
                name: name@,
                parameters: crate::scanner::deep_toks(parameters@),
                body: Box::new(stmt_view(*body)),
                captures: caps_view(captures@),
                functype,
                defining_class: match defining_class {
                    Some(i) => Some(i as int),
                    None => None,
                },
                id: id as int,
            }
        },
        Object::Class { name, index } => ObjectModel::ClassV { name: name@, index: index as int },
        Object::ClassInstance { index } => ObjectModel::InstanceV { index: index as int },
        Object::NilObject => ObjectModel::NilV,
    }
}

pub open spec fn expr_view(e: Expression) -> ExprModel
    decreases e, 1int,
{
    match e {
        Expression::Assign { name, value } => ExprModel::Assign {
            name: name@,
            value: Box::new(expr_view(*value)),
        },
        Expression::Binary { left, operator, right } => ExprModel::Binary {
            left: Box::new(expr_view(*left)),
            operator: operator@,
            right: Box::new(expr_view(*right)),
        },
        Expression::Call { callee, paren, arguments } => {
            proof {
                broadcast use vstd::std_specs::vec::axiom_vec_decreases_to_view;
            }
            ExprModel::Call {
                callee: Box::new(expr_view(*callee)),
                paren: paren@,
                arguments: exprs_view(arguments@),
            }
        },
        Expression::Get { object, name } => ExprModel::Get {
            object: Box::new(expr_view(*object)),
            name: name@,
        },
        Expression::Grouping { expression } => ExprModel::Grouping {
            expression: Box::new(expr_view(*expression)),
        },
        Expression::Literal { value } => ExprModel::Literal { value: obj_view(value) },
        Expression::Logical { left, operator, right } => ExprModel::Logical {
            left: Box::new(expr_view(*left)),
            operator: operator@,
            right: Box::new(expr_view(*right)),
        },
        Expression::SetProperty { object, name, value } => ExprModel::SetProperty {
            object: Box::new(expr_view(*object)),
            name: name@,
            value: Box::new(expr_view(*value)),
        },
        Expression::Super { keyword, method } => ExprModel::Super {
            keyword: keyword@,
            method: method@,
        },
        Expression::This { keyword } => ExprModel::This { keyword: keyword@ },
        Expression::Unary { operator, right } => ExprModel::Unary {
            operator: operator@,
            right: Box::new(expr_view(*right)),
        },
        Expression::Variable { name } => ExprModel::Variable { name: name@ },
    }
}

pub open spec fn exprs_view(es: Seq<Expression>) -> Seq<ExprModel>
    decreases es, 2int,
{
    if es.len() == 0 {
        Seq::empty()
    } else {
        proof {
            broadcast use vstd::seq::axiom_seq_index_decreases;

            assert(decreases_to!(es => es[0]));
            vstd::seq::axiom_seq_len_decreases(es, es.drop_first());
        }
        seq![expr_view(es[0])] + exprs_view(es.drop_first())
    }
}

impl View for Expression {
    type V = ExprModel;

    open spec fn view(&self) -> ExprModel {
        expr_view(*self)
    }
}

impl View for Object {
    type V = ObjectModel;

    open spec fn view(&self) -> ObjectModel {
        obj_view(*self)
    }
}

} // verus!

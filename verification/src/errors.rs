use vstd::prelude::*;

verus! {

/// The failure taxonomy: one discriminated kind per way a program can fail,
/// from lexing through evaluation.  `RecursionLimit` reports exhaustion of the
/// evaluator's call-depth budget, a machine limit rather than a language rule.
#[derive(Clone, Copy, Debug, PartialEq, Eq, Structural)]
pub enum ErrorKind {
    UnterminatedString,
    UnexpectedCharacter,
    UnexpectedToken,
    InvalidAssignmentTarget,
    TooManyArguments,
    UndefinedName,
    ArityMismatch,
    TypeMismatch,
    NotCallable,
    NotAClass,
    NotAnInstance,
    UndefinedProperty,
    UndefinedMethod,
    NoSuperclass,
    ReturnOutsideFunction,
    ThisOutsideMethod,
    SuperOutsideSubclass,
    RecursionLimit,
}

/// An error: the kind of failure and the source line it was noticed on.
#[derive(Clone, Copy, Debug, PartialEq, Eq, Structural)]
pub struct Error {
    pub kind: ErrorKind,
    pub line: usize,
}

/// The mathematical shadow of an error: the same kind with the line as an
/// unbounded natural.
pub ghost struct ErrorModel {
    pub kind: ErrorKind,
    pub line: nat,
}

impl View for Error {
    type V = ErrorModel;

    open spec fn view(&self) -> ErrorModel {
        ErrorModel { kind: self.kind, line: self.line as nat }
    }
}

impl DeepView for Error {
    type V = ErrorModel;

    open spec fn deep_view(&self) -> ErrorModel {
        self.view()
    }
}

/// The fixed human-readable text for each error kind.
pub open spec fn message_spec(kind: ErrorKind) -> Seq<char> {
    match kind {
        ErrorKind::UnterminatedString => "unterminated string"@,
        ErrorKind::UnexpectedCharacter => "unexpected character"@,
        ErrorKind::UnexpectedToken => "unexpected token"@,
        ErrorKind::InvalidAssignmentTarget => "invalid assignment target"@,
        ErrorKind::TooManyArguments => "too many arguments"@,
        ErrorKind::UndefinedName => "undefined name"@,
        ErrorKind::ArityMismatch => "wrong number of arguments"@,
        ErrorKind::TypeMismatch => "operand type mismatch"@,
        ErrorKind::NotCallable => "value is not callable"@,
        ErrorKind::NotAClass => "superclass is not a class"@,
        ErrorKind::NotAnInstance => "only instances have properties"@,
        ErrorKind::UndefinedProperty => "undefined property"@,
        ErrorKind::UndefinedMethod => "undefined method"@,
        ErrorKind::NoSuperclass => "class has no superclass"@,
        ErrorKind::ReturnOutsideFunction => "return outside of a function"@,
        ErrorKind::ThisOutsideMethod => "this outside of a method"@,
        ErrorKind::SuperOutsideSubclass => "super outside of a subclass"@,
        ErrorKind::RecursionLimit => "recursion limit reached"@,
    }
}

impl Error {
    pub fn new(kind: ErrorKind, line: usize) -> (r: Error)
        ensures
            r == (Error { kind, line }),
    {
        Error { kind, line }
    }

    /// The human-readable message this error carries.
    pub fn message(&self) -> (r: &'static str)
        ensures
            r@ == message_spec(self.kind),
    {
        match self.kind {
            ErrorKind::UnterminatedString => "unterminated string",
            ErrorKind::UnexpectedCharacter => "unexpected character",
            ErrorKind::UnexpectedToken => "unexpected token",
            ErrorKind::InvalidAssignmentTarget => "invalid assignment target",
            ErrorKind::TooManyArguments => "too many arguments",
            ErrorKind::UndefinedName => "undefined name",
            ErrorKind::ArityMismatch => "wrong number of arguments",
            ErrorKind::TypeMismatch => "operand type mismatch",
            ErrorKind::NotCallable => "value is not callable",
            ErrorKind::NotAClass => "superclass is not a class",
            ErrorKind::NotAnInstance => "only instances have properties",
            ErrorKind::UndefinedProperty => "undefined property",
            ErrorKind::UndefinedMethod => "undefined method",
            ErrorKind::NoSuperclass => "class has no superclass",
            ErrorKind::ReturnOutsideFunction => "return outside of a function",
            ErrorKind::ThisOutsideMethod => "this outside of a method",
            ErrorKind::SuperOutsideSubclass => "super outside of a subclass",
            ErrorKind::RecursionLimit => "recursion limit reached",
        }
    }
}

} // verus!

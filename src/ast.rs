use vstd::prelude::*;

verus! {

/// A typed value on the right of `=`.
#[derive(Debug, PartialEq)]
pub enum Value {
    Int(i64),
    Str(String),
    Bool(bool),
}

/// A key bound to a value.
#[derive(Debug, PartialEq)]
pub struct Assignment {
    pub key: String,
    pub val: Value,
}

/// One line of a document.
#[derive(Debug, PartialEq)]
pub enum Stmt {
    Comment(String),
    Assignment(Assignment),
}

/// Mathematical model of a `Value`.
pub enum ValueModel {
    Int(i64),
    Str(Seq<char>),
    Bool(bool),
}

/// Mathematical model of an `Assignment`.
pub struct AssignmentModel {
    pub key: Seq<char>,
    pub val: ValueModel,
}

/// Mathematical model of a `Stmt`.
pub enum StmtModel {
    Comment(Seq<char>),
    Assignment(AssignmentModel),
}

impl View for Value {
    type V = ValueModel;

    open spec fn view(&self) -> ValueModel {
        match self {
            Value::Int(n) => ValueModel::Int(*n),
            Value::Str(s) => ValueModel::Str(s@),
            Value::Bool(b) => ValueModel::Bool(*b),
        }
    }
}

impl View for Assignment {
    type V = AssignmentModel;

    open spec fn view(&self) -> AssignmentModel {
        AssignmentModel { key: self.key@, val: self.val@ }
    }
}

impl View for Stmt {
    type V = StmtModel;

    open spec fn view(&self) -> StmtModel {
        match self {
            Stmt::Comment(c) => StmtModel::Comment(c@),
            Stmt::Assignment(a) => StmtModel::Assignment(a@),
        }
    }
}

/// What the parser found missing or wrong.
#[derive(Debug, Clone, Copy, PartialEq, Eq, Structural)]
pub enum ErrorKind {
    /// A comment must start with `#`.
    ExpectedHash,
    /// A key needs at least one character that is neither whitespace nor `=`.
    ExpectedKey,
    /// The key must be followed by `=`.
    ExpectedEquals,
    /// A quoted string has no closing `"`.
    UnterminatedString,
    /// A `-` must be followed by at least one decimal digit.
    ExpectedDigit,
    /// A statement must be followed by a newline or the end of the input.
    ExpectedNewline,
    /// The input must end here.
    ExpectedEnd,
    /// An integer literal does not fit in 64 bits.
    IntegerOverflow,
}

/// A failed parse: where it failed (in characters from the start of the
/// input) and why.
#[derive(Debug, Clone, Copy, PartialEq, Eq, Structural)]
pub struct ParseError {
    pub pos: usize,
    pub kind: ErrorKind,
}

/// What a parser of the given kind expected, in words.
pub open spec fn expected_text(k: ErrorKind) -> Seq<char> {
    match k {
        ErrorKind::ExpectedHash => "expected '#'"@,
        ErrorKind::ExpectedKey => "expected a key"@,
        ErrorKind::ExpectedEquals => "expected '='"@,
        ErrorKind::UnterminatedString => "unterminated string"@,
        ErrorKind::ExpectedDigit => "expected a digit"@,
        ErrorKind::ExpectedNewline => "expected a newline or the end of the input"@,
        ErrorKind::ExpectedEnd => "expected the end of the input"@,
        ErrorKind::IntegerOverflow => "integer does not fit in 64 bits"@,
    }
}

impl ErrorKind {
    /// A human-readable description of what was expected.
    pub fn describe(&self) -> (r: &'static str)
        ensures
            r@ == expected_text(*self),
    {
        match self {
            ErrorKind::ExpectedHash => "expected '#'",
            ErrorKind::ExpectedKey => "expected a key",
            ErrorKind::ExpectedEquals => "expected '='",
            ErrorKind::UnterminatedString => "unterminated string",
            ErrorKind::ExpectedDigit => "expected a digit",
            ErrorKind::ExpectedNewline => "expected a newline or the end of the input",
            ErrorKind::ExpectedEnd => "expected the end of the input",
            ErrorKind::IntegerOverflow => "integer does not fit in 64 bits",
        }
    }

    /// Whether this is a syntax error, as opposed to an integer overflow.
    pub fn is_syntax(&self) -> (r: bool)
        ensures
            r == !(*self is IntegerOverflow),
    {
        match self {
            ErrorKind::IntegerOverflow => false,
            _ => true,
        }
    }
}

} // verus!

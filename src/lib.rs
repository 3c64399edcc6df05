//! Parser for a small line-oriented configuration format: each line is a
//! `#` comment or a `key=value` assignment whose value is an integer, a
//! boolean or a string.
pub mod ast;
pub mod grammar;
pub mod laws;
pub mod parser;

pub use ast::{Assignment, AssignmentModel, ErrorKind, ParseError, Stmt, StmtModel, Value, ValueModel};
pub use parser::{
    assignment, assignment_exec, chars_of, comment, comment_exec, stmt_exec, val, value_exec,
};

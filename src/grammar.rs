//! The meaning of the format: for an input `s` and a position `p`, what each
//! piece of the grammar reads there and where it stops, or the error it
//! reports. Alternatives are tried in a fixed order and the first that
//! matches wins.
use vstd::prelude::*;
use crate::ast::{AssignmentModel, ErrorKind, ParseError, StmtModel, ValueModel};

verus! {

/// What `char::is_alphanumeric` returns for a character.
pub uninterp spec fn is_alnum(c: char) -> bool;

/// What `char::is_whitespace` returns for a character.
pub uninterp spec fn is_ws(c: char) -> bool;

/// The character classes that the grammar reads runs of.
#[derive(Clone, Copy)]
pub enum CharClass {
    /// Anything but a newline: the body of a comment.
    NotNewline,
    /// Anything but `"`: the body of a quoted string.
    NotQuote,
    /// The ASCII space.
    Space,
    /// Neither whitespace nor `=`: the characters of a key.
    KeyChar,
    /// A decimal digit.
    Digit,
    /// An alphanumeric character: the body of an unquoted string.
    Alnum,
}

pub open spec fn is_digit(c: char) -> bool {
    '0' <= c && c <= '9'
}

/// A key character is neither whitespace nor `=`. The space is named on its
/// own too, as it is the one whitespace character that the grammar skips.
pub open spec fn is_key_char(c: char) -> bool {
    c != ' ' && !is_ws(c) && c != '='
}

pub open spec fn in_class(k: CharClass, c: char) -> bool {
    match k {
        CharClass::NotNewline => c != '\n',
        CharClass::NotQuote => c != '"',
        CharClass::Space => c == ' ',
        CharClass::KeyChar => is_key_char(c),
        CharClass::Digit => is_digit(c),
        CharClass::Alnum => is_alnum(c),
    }
}

/// The end of the longest run of characters of class `k` that starts at `p`.
pub open spec fn run_end(s: Seq<char>, p: int, k: CharClass) -> int
    decreases s.len() - p,
{
    if 0 <= p < s.len() && in_class(k, s[p]) {
        run_end(s, p + 1, k)
    } else {
        p
    }
}

pub open spec fn digit_value(c: char) -> int {
    c as int - '0' as int
}

/// The number that a string of decimal digits writes.
pub open spec fn decimal(ds: Seq<char>) -> int
    decreases ds.len(),
{
    if ds.len() == 0 {
        0
    } else {
        decimal(ds.drop_last()) * 10 + digit_value(ds.last())
    }
}

pub open spec fn fits_i64(n: int) -> bool {
    i64::MIN <= n <= i64::MAX
}

pub open spec fn err<T>(kind: ErrorKind, pos: int) -> Result<T, ParseError> {
    Err(ParseError { pos: pos as usize, kind })
}

/// Whether `s` holds the characters of `lit` from `p` on.
pub open spec fn has_at(s: Seq<char>, p: int, lit: Seq<char>) -> bool {
    0 <= p && p + lit.len() <= s.len() && s.subrange(p, p + lit.len()) == lit
}

pub open spec fn true_lit() -> Seq<char> {
    seq!['t', 'r', 'u', 'e']
}

pub open spec fn false_lit() -> Seq<char> {
    seq!['f', 'a', 'l', 's', 'e']
}

/// `"` then everything up to the next `"`, then that `"`.
pub open spec fn quoted_at(s: Seq<char>, p: int) -> Result<(ValueModel, int), ParseError> {
    let e = run_end(s, p + 1, CharClass::NotQuote);
    if e < s.len() {
        Ok((ValueModel::Str(s.subrange(p + 1, e)), e + 1))
    } else {
        err(ErrorKind::UnterminatedString, p)
    }
}

/// An optional `-` and one or more decimal digits, read as a 64-bit integer.
pub open spec fn integer_at(s: Seq<char>, p: int) -> Result<(ValueModel, int), ParseError> {
    let neg = s[p] == '-';
    let d = if neg { p + 1 } else { p };
    let e = run_end(s, d, CharClass::Digit);
    let n = if neg { -decimal(s.subrange(d, e)) } else { decimal(s.subrange(d, e)) };
    if e == d {
        err(ErrorKind::ExpectedDigit, d)
    } else if !fits_i64(n) {
        err(ErrorKind::IntegerOverflow, p)
    } else {
        Ok((ValueModel::Int(n as i64), e))
    }
}

/// Whether the boolean alternative matches at `p`, and what it reads.
pub open spec fn boolean_at(s: Seq<char>, p: int) -> Option<(ValueModel, int)> {
    if has_at(s, p, true_lit()) {
        Some((ValueModel::Bool(true), p + 4))
    } else if has_at(s, p, false_lit()) {
        Some((ValueModel::Bool(false), p + 5))
    } else {
        None
    }
}

/// A value at `p`: quoted string, integer, boolean, or else a (possibly
/// empty) run of alphanumeric characters.
pub open spec fn value_at(s: Seq<char>, p: int) -> Result<(ValueModel, int), ParseError> {
    if p < s.len() && s[p] == '"' {
        quoted_at(s, p)
    } else if p < s.len() && (s[p] == '-' || is_digit(s[p])) {
        integer_at(s, p)
    } else if boolean_at(s, p) is Some {
        Ok(boolean_at(s, p).unwrap())
    } else {
        let e = run_end(s, p, CharClass::Alnum);
        Ok((ValueModel::Str(s.subrange(p, e)), e))
    }
}

/// `#` and the rest of the line, without the `#`.
pub open spec fn comment_at(s: Seq<char>, p: int) -> Result<(Seq<char>, int), ParseError> {
    if p < s.len() && s[p] == '#' {
        let e = run_end(s, p + 1, CharClass::NotNewline);
        Ok((s.subrange(p + 1, e), e))
    } else {
        err(ErrorKind::ExpectedHash, p)
    }
}

/// Spaces, a key, `=`, a value, spaces.
pub open spec fn assignment_at(s: Seq<char>, p: int) -> Result<(AssignmentModel, int), ParseError> {
    let q = run_end(s, p, CharClass::Space);
    let k = run_end(s, q, CharClass::KeyChar);
    if k == q {
        err(ErrorKind::ExpectedKey, q)
    } else if k >= s.len() || s[k] != '=' {
        err(ErrorKind::ExpectedEquals, k)
    } else {
        match value_at(s, k + 1) {
            Ok((v, r)) => Ok(
                (AssignmentModel { key: s.subrange(q, k), val: v }, run_end(s, r, CharClass::Space)),
            ),
            Err(e) => Err(e),
        }
    }
}

/// A comment where the line starts with `#`, else an assignment.
pub open spec fn stmt_at(s: Seq<char>, p: int) -> Result<(StmtModel, int), ParseError> {
    if p < s.len() && s[p] == '#' {
        match comment_at(s, p) {
            Ok((c, e)) => Ok((StmtModel::Comment(c), e)),
            Err(e) => Err(e),
        }
    } else {
        match assignment_at(s, p) {
            Ok((a, e)) => Ok((StmtModel::Assignment(a), e)),
            Err(e) => Err(e),
        }
    }
}

pub proof fn lemma_run_end(s: Seq<char>, p: int, k: CharClass)
    requires
        0 <= p <= s.len(),
    ensures
        p <= run_end(s, p, k) <= s.len(),
        forall|i: int| p <= i < run_end(s, p, k) ==> in_class(k, #[trigger] s[i]),
        run_end(s, p, k) < s.len() ==> !in_class(k, s[run_end(s, p, k)]),
    decreases s.len() - p,
{
    if p < s.len() && in_class(k, s[p]) {
        lemma_run_end(s, p + 1, k);
    }
}

/// Each alternative of a value, when it matches, ends within the input and
/// after its start.
pub proof fn lemma_value_within(s: Seq<char>, p: int)
    requires
        0 <= p <= s.len(),
    ensures
        value_at(s, p) matches Ok((_, e)) ==> p <= e <= s.len(),
{
    lemma_run_end(s, p, CharClass::Alnum);
    if p < s.len() {
        lemma_run_end(s, p + 1, CharClass::NotQuote);
        lemma_run_end(s, p + 1, CharClass::Digit);
        lemma_run_end(s, p, CharClass::Digit);
    }
}

/// A statement, when it reads, ends within the input and reads at least
/// one character.
pub proof fn lemma_stmt_advances(s: Seq<char>, p: int)
    requires
        0 <= p <= s.len(),
    ensures
        stmt_at(s, p) matches Ok((_, e)) ==> p < e <= s.len(),
{
    if p < s.len() {
        lemma_run_end(s, p + 1, CharClass::NotNewline);
    }
    lemma_run_end(s, p, CharClass::Space);
    let q = run_end(s, p, CharClass::Space);
    lemma_run_end(s, q, CharClass::KeyChar);
    let k = run_end(s, q, CharClass::KeyChar);
    if k < s.len() {
        lemma_value_within(s, k + 1);
        if let Ok((_, r)) = value_at(s, k + 1) {
            lemma_run_end(s, r, CharClass::Space);
        }
    }
}

/// Statements from `p` on, separated by single newlines, up to the end of
/// the input.
pub open spec fn stmts_from(s: Seq<char>, p: int) -> Result<Seq<StmtModel>, ParseError>
    decreases s.len() - p via stmts_from_decreases
{
    match stmt_at(s, p) {
        Err(e) => Err(e),
        Ok((st, q)) => if q >= s.len() {
            Ok(seq![st])
        } else if s[q] == '\n' {
            match stmts_from(s, q + 1) {
                Ok(rest) => Ok(seq![st] + rest),
                Err(e) => Err(e),
            }
        } else {
            err(ErrorKind::ExpectedNewline, q)
        },
    }
}

proof fn lemma_run_end_from(s: Seq<char>, p: int, k: CharClass)
    ensures
        run_end(s, p, k) >= p,
    decreases s.len() - p,
{
    if 0 <= p < s.len() && in_class(k, s[p]) {
        lemma_run_end_from(s, p + 1, k);
    }
}

#[via_fn]
proof fn stmts_from_decreases(s: Seq<char>, p: int) {
    if 0 <= p <= s.len() {
        lemma_stmt_advances(s, p);
    } else {
        lemma_run_end_from(s, p + 1, CharClass::NotNewline);
    }
}


/// A parse that must read the whole input: anything left over is an error
/// where it starts.
pub open spec fn whole<T>(r: Result<(T, int), ParseError>, len: int) -> Result<T, ParseError> {
    match r {
        Ok((x, e)) => if e == len {
            Ok(x)
        } else {
            err(ErrorKind::ExpectedEnd, e)
        },
        Err(e) => Err(e),
    }
}

/// A whole document: one or more statements, one per line.
pub open spec fn document(s: Seq<char>) -> Result<Seq<StmtModel>, ParseError> {
    stmts_from(s, 0)
}

} // verus!

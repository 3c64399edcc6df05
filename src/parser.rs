//! The parser: each function reads one piece of the grammar from a
//! position in a character vector and is proved to do what the matching
//! spec function of `grammar` says.
use vstd::prelude::*;
use crate::ast::{Assignment, ErrorKind, ParseError, Stmt, Value};
use crate::grammar::{
    assignment_at, comment_at, decimal, digit_value, document, false_lit, fits_i64, has_at,
    in_class, integer_at, is_alnum, is_digit, is_ws, lemma_run_end, lemma_stmt_advances,
    lemma_value_within, run_end, stmt_at, stmts_from, true_lit, value_at, whole, CharClass,
};

verus! {

/// Relies on `char::is_alphanumeric`: its answer depends on the character alone.
#[verifier::external_body]
fn alphanumeric(c: char) -> (r: bool)
    ensures
        r == is_alnum(c),
{
    c.is_alphanumeric()
}

/// Relies on `char::is_whitespace`: its answer depends on the character alone.
#[verifier::external_body]
fn whitespace(c: char) -> (r: bool)
    ensures
        r == is_ws(c),
{
    c.is_whitespace()
}

/// Relies on `String::push`: appends one character at the end.
#[verifier::external_body]
fn push_char(s: &mut String, c: char)
    ensures
        final(s)@ == old(s)@.push(c),
{
    s.push(c)
}

fn class_has(k: CharClass, c: char) -> (r: bool)
    ensures
        r == in_class(k, c),
{
    match k {
        CharClass::NotNewline => c != '\n',
        CharClass::NotQuote => c != '"',
        CharClass::Space => c == ' ',
        CharClass::KeyChar => c != ' ' && !whitespace(c) && c != '=',
        CharClass::Digit => '0' <= c && c <= '9',
        CharClass::Alnum => alphanumeric(c),
    }
}

/// Skips the run of characters of class `k` that starts at `p`.
fn scan(s: &Vec<char>, p: usize, k: CharClass) -> (e: usize)
    requires
        p <= s.len(),
    ensures
        e == run_end(s@, p as int, k),
{
    let mut i: usize = p;
    while i < s.len() && class_has(k, s[i])
        invariant
            p <= i <= s.len(),
            run_end(s@, i as int, k) == run_end(s@, p as int, k),
        decreases s.len() - i,
    {
        i = i + 1;
    }
    i
}

/// The characters of `s` from `lo` up to `hi`, as a string.
fn string_of(s: &Vec<char>, lo: usize, hi: usize) -> (r: String)
    requires
        lo <= hi <= s.len(),
    ensures
        r@ == s@.subrange(lo as int, hi as int),
{
    let mut r = String::new();
    let mut i: usize = lo;
    while i < hi
        invariant
            lo <= i <= hi <= s.len(),
            r@ == s@.subrange(lo as int, i as int),
        decreases hi - i,
    {
        push_char(&mut r, s[i]);
        assert(s@.subrange(lo as int, i + 1) == s@.subrange(lo as int, i as int).push(s@[i as int]));
        i = i + 1;
    }
    r
}

/// The characters of a string, in order.
pub fn chars_of(input: &str) -> (r: Vec<char>)
    ensures
        r@ == input@,
{
    let mut r: Vec<char> = Vec::new();
    for c in it: input.chars()
        invariant
            r@ == it.seq().take(it.index() as int),
    {
        r.push(c);
    }
    r
}


/// What a parse at a position returned, in terms of the models.
pub open spec fn lift<T: View>(r: Result<(T, usize), ParseError>) -> Result<(T::V, int), ParseError> {
    match r {
        Ok((x, e)) => Ok((x@, e as int)),
        Err(e) => Err(e),
    }
}

/// The numbers that strings of digits write are not negative and do not
/// shrink as digits are appended.
pub proof fn lemma_decimal_grows(ds: Seq<char>, i: int, j: int)
    requires
        0 <= i <= j <= ds.len(),
        forall|k: int| 0 <= k < ds.len() ==> is_digit(#[trigger] ds[k]),
    ensures
        0 <= decimal(ds.take(i)) <= decimal(ds.take(j)),
    decreases j,
{
    if j > 0 {
        assert(ds.take(j).drop_last() == ds.take(j - 1));
        if i < j {
            lemma_decimal_grows(ds, i, j - 1);
        } else {
            lemma_decimal_grows(ds, i - 1, j - 1);
        }
    }
}

/// Reads an integer at `p`, where `s[p]` is `-` or a digit.
fn integer_exec(s: &Vec<char>, p: usize) -> (r: Result<(Value, usize), ParseError>)
    requires
        p < s.len(),
        s@[p as int] == '-' || is_digit(s@[p as int]),
    ensures
        lift(r) == integer_at(s@, p as int),
{
    let neg = s[p] == '-';
    let d = if neg { p + 1 } else { p };
    let e = scan(s, d, CharClass::Digit);
    proof {
        lemma_run_end(s@, d as int, CharClass::Digit);
    }
    if e == d {
        return Err(ParseError { pos: d, kind: ErrorKind::ExpectedDigit });
    }
    let ghost ds = s@.subrange(d as int, e as int);
    let ghost n = if neg { -decimal(ds) } else { decimal(ds) };
    assert forall|k: int| 0 <= k < ds.len() implies is_digit(#[trigger] ds[k]) by {
        assert(in_class(CharClass::Digit, s@[d + k]));
    }
    let mut acc: i64 = 0;
    let mut i: usize = d;
    while i < e
        invariant
            d <= i <= e <= s.len(),
            d < e,
            e == run_end(s@, d as int, CharClass::Digit),
            neg == (s@[p as int] == '-'),
            d == if neg { p + 1 } else { p as int },
            ds == s@.subrange(d as int, e as int),
            n == if neg { -decimal(ds) } else { decimal(ds) },
            forall|k: int| 0 <= k < ds.len() ==> is_digit(#[trigger] ds[k]),
            acc == if neg { -decimal(ds.take(i - d)) } else { decimal(ds.take(i - d)) },
        decreases e - i,
    {
        let c = s[i];
        assert(ds[i - d] == c);
        assert(is_digit(c));
        let dv = (c as u32 - '0' as u32) as i64;
        assert(ds.take(i - d + 1).drop_last() == ds.take(i - d));
        assert(ds[i - d] == c);
        assert(dv == digit_value(c));
        proof {
            lemma_decimal_grows(ds, i - d + 1, ds.len() as int);
            lemma_decimal_grows(ds, 0, i - d);
            assert(ds.take(ds.len() as int) == ds);
        }
        let ghost a = decimal(ds.take(i - d));
        let ghost b = decimal(ds.take(i - d + 1));
        assert(b == a * 10 + dv);
        assert(b <= decimal(ds));
        let m = acc.checked_mul(10);
        if m.is_none() {
            assert(!fits_i64(n));
            return Err(ParseError { pos: p, kind: ErrorKind::IntegerOverflow });
        }
        let m = m.unwrap();
        let next = if neg { m.checked_sub(dv) } else { m.checked_add(dv) };
        if next.is_none() {
            assert(!fits_i64(n));
            return Err(ParseError { pos: p, kind: ErrorKind::IntegerOverflow });
        }
        acc = next.unwrap();
        i = i + 1;
    }
    assert(ds.take(e - d) == ds);
    Ok((Value::Int(acc), e))
}


/// Whether `s` holds the characters of `lit` from `p` on.
fn has_lit(s: &Vec<char>, p: usize, lit: &Vec<char>) -> (r: bool)
    requires
        p <= s.len(),
    ensures
        r == has_at(s@, p as int, lit@),
{
    if lit.len() > s.len() - p {
        return false;
    }
    let mut i: usize = 0;
    while i < lit.len()
        invariant
            p + lit.len() <= s.len(),
            i <= lit.len(),
            s@.subrange(p as int, p + i) == lit@.take(i as int),
        decreases lit.len() - i,
    {
        if s[p + i] != lit[i] {
            assert(s@.subrange(p as int, p + lit.len())[i as int] != lit@[i as int]);
            return false;
        }
        assert(s@.subrange(p as int, p + i + 1) == lit@.take(i + 1));
        i = i + 1;
    }
    assert(lit@.take(lit.len() as int) == lit@);
    true
}

/// Reads a value at `p`.
pub fn value_exec(s: &Vec<char>, p: usize) -> (r: Result<(Value, usize), ParseError>)
    requires
        p <= s.len(),
    ensures
        lift(r) == value_at(s@, p as int),
{
    if p < s.len() && s[p] == '"' {
        let e = scan(s, p + 1, CharClass::NotQuote);
        proof {
            lemma_run_end(s@, p + 1, CharClass::NotQuote);
        }
        if e < s.len() {
            Ok((Value::Str(string_of(s, p + 1, e)), e + 1))
        } else {
            Err(ParseError { pos: p, kind: ErrorKind::UnterminatedString })
        }
    } else if p < s.len() && (s[p] == '-' || ('0' <= s[p] && s[p] <= '9')) {
        integer_exec(s, p)
    } else {
        let t = vec!['t', 'r', 'u', 'e'];
        let f = vec!['f', 'a', 'l', 's', 'e'];
        assert(t@ == true_lit());
        assert(f@ == false_lit());
        if has_lit(s, p, &t) {
            return Ok((Value::Bool(true), p + 4));
        }
        if has_lit(s, p, &f) {
            return Ok((Value::Bool(false), p + 5));
        }
        let e = scan(s, p, CharClass::Alnum);
        proof {
            lemma_run_end(s@, p as int, CharClass::Alnum);
        }
        Ok((Value::Str(string_of(s, p, e)), e))
    }
}


/// Reads a comment at `p`.
pub fn comment_exec(s: &Vec<char>, p: usize) -> (r: Result<(String, usize), ParseError>)
    requires
        p <= s.len(),
    ensures
        lift(r) == comment_at(s@, p as int),
{
    if p < s.len() && s[p] == '#' {
        let e = scan(s, p + 1, CharClass::NotNewline);
        proof {
            lemma_run_end(s@, p + 1, CharClass::NotNewline);
        }
        Ok((string_of(s, p + 1, e), e))
    } else {
        Err(ParseError { pos: p, kind: ErrorKind::ExpectedHash })
    }
}

/// Reads an assignment at `p`.
pub fn assignment_exec(s: &Vec<char>, p: usize) -> (r: Result<(Assignment, usize), ParseError>)
    requires
        p <= s.len(),
    ensures
        lift(r) == assignment_at(s@, p as int),
{
    let q = scan(s, p, CharClass::Space);
    proof {
        lemma_run_end(s@, p as int, CharClass::Space);
    }
    let k = scan(s, q, CharClass::KeyChar);
    proof {
        lemma_run_end(s@, q as int, CharClass::KeyChar);
    }
    if k == q {
        return Err(ParseError { pos: q, kind: ErrorKind::ExpectedKey });
    }
    if k >= s.len() || s[k] != '=' {
        return Err(ParseError { pos: k, kind: ErrorKind::ExpectedEquals });
    }
    match value_exec(s, k + 1) {
        Err(e) => Err(e),
        Ok((v, r)) => {
            proof {
                lemma_value_within(s@, k + 1);
            }
            let t = scan(s, r, CharClass::Space);
            Ok((Assignment { key: string_of(s, q, k), val: v }, t))
        },
    }
}

/// Reads a statement at `p`: a comment where the line starts with `#`,
/// else an assignment.
pub fn stmt_exec(s: &Vec<char>, p: usize) -> (r: Result<(Stmt, usize), ParseError>)
    requires
        p <= s.len(),
    ensures
        lift(r) == stmt_at(s@, p as int),
{
    if p < s.len() && s[p] == '#' {
        match comment_exec(s, p) {
            Ok((c, e)) => Ok((Stmt::Comment(c), e)),
            Err(e) => Err(e),
        }
    } else {
        match assignment_exec(s, p) {
            Ok((a, e)) => Ok((Stmt::Assignment(a), e)),
            Err(e) => Err(e),
        }
    }
}

/// The models of a sequence of statements.
pub open spec fn stmts_view(v: Seq<Stmt>) -> Seq<crate::ast::StmtModel> {
    v.map_values(|x: Stmt| x@)
}

/// The model of a parse result.
pub open spec fn result_view<T: View>(r: Result<T, ParseError>) -> Result<T::V, ParseError> {
    match r {
        Ok(x) => Ok(x@),
        Err(e) => Err(e),
    }
}

/// The statements of a whole document, one per line, in order; or the
/// first error.
pub fn file(input: &str) -> (r: Result<Vec<Stmt>, ParseError>)
    ensures
        match r {
            Ok(v) => document(input@) == Ok::<_, ParseError>(stmts_view(v@)),
            Err(e) => document(input@) == Err::<Seq<crate::ast::StmtModel>, _>(e),
        },
{
    let s = chars_of(input);
    let mut out: Vec<Stmt> = Vec::new();
    let mut p: usize = 0;
    loop
        invariant
            p <= s.len(),
            s@ == input@,
            document(s@) == match stmts_from(s@, p as int) {
                Ok(rest) => Ok(stmts_view(out@) + rest),
                Err(e) => Err(e),
            },
        decreases s.len() - p,
    {
        proof {
            lemma_stmt_advances(s@, p as int);
        }
        match stmt_exec(&s, p) {
            Err(e) => {
                return Err(e);
            },
            Ok((st, q)) => {
                let ghost before = stmts_view(out@);
                out.push(st);
                assert(stmts_view(out@) == before.push(st@));
                if q == s.len() {
                    assert(before + seq![st@] == before.push(st@));
                    return Ok(out);
                }
                if s[q] != '\n' {
                    return Err(ParseError { pos: q, kind: ErrorKind::ExpectedNewline });
                }
                proof {
                    if let Ok(rest) = stmts_from(s@, q + 1) {
                        assert(before + (seq![st@] + rest) == before.push(st@) + rest);
                    }
                }
                p = q + 1;
            },
        }
    }
}

/// A comment that is the whole input; the result is the text after `#`.
pub fn comment(input: &str) -> (r: Result<String, ParseError>)
    ensures
        result_view(r) == whole(comment_at(input@, 0), input@.len() as int),
{
    let s = chars_of(input);
    match comment_exec(&s, 0) {
        Err(e) => Err(e),
        Ok((c, e)) => if e == s.len() {
            Ok(c)
        } else {
            Err(ParseError { pos: e, kind: ErrorKind::ExpectedEnd })
        },
    }
}

/// A value that is the whole input.
pub fn val(input: &str) -> (r: Result<Value, ParseError>)
    ensures
        result_view(r) == whole(value_at(input@, 0), input@.len() as int),
{
    let s = chars_of(input);
    match value_exec(&s, 0) {
        Err(e) => Err(e),
        Ok((v, e)) => if e == s.len() {
            Ok(v)
        } else {
            Err(ParseError { pos: e, kind: ErrorKind::ExpectedEnd })
        },
    }
}

/// An assignment that is the whole input.
pub fn assignment(input: &str) -> (r: Result<Assignment, ParseError>)
    ensures
        result_view(r) == whole(assignment_at(input@, 0), input@.len() as int),
{
    let s = chars_of(input);
    match assignment_exec(&s, 0) {
        Err(e) => Err(e),
        Ok((a, e)) => if e == s.len() {
            Ok(a)
        } else {
            Err(ParseError { pos: e, kind: ErrorKind::ExpectedEnd })
        },
    }
}

} // verus!

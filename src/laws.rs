//! Laws of the format, stated over the grammar's spec functions and proved.
use vstd::prelude::*;
use crate::ast::{AssignmentModel, ErrorKind, ParseError, ValueModel};
use crate::grammar::{
    assignment_at, boolean_at, integer_at, quoted_at, decimal, digit_value, false_lit, fits_i64, has_at, in_class,
    is_digit, is_key_char, lemma_run_end, run_end, true_lit, value_at, whole, CharClass,
};

verus! {

/// The digit character for `d`, where `0 <= d < 10`.
pub open spec fn digit_char(d: int) -> char {
    seq!['0', '1', '2', '3', '4', '5', '6', '7', '8', '9'][d]
}

/// The decimal digits of a natural number, without leading zeros.
pub open spec fn nat_text(n: nat) -> Seq<char>
    decreases n,
{
    if n < 10 {
        seq![digit_char(n as int)]
    } else {
        nat_text(n / 10).push(digit_char((n % 10) as int))
    }
}

/// An integer written in decimal, with `-` in front when it is negative.
pub open spec fn int_text(n: int) -> Seq<char> {
    if n < 0 {
        seq!['-'] + nat_text((-n) as nat)
    } else {
        nat_text(n as nat)
    }
}

/// Whether a string can stand between double quotes.
pub open spec fn quotable(s: Seq<char>) -> bool {
    forall|i: int| 0 <= i < s.len() ==> s[i] != '"'
}

/// A value written so that it reads back as itself: strings are quoted.
pub open spec fn value_text(v: ValueModel) -> Seq<char> {
    match v {
        ValueModel::Int(n) => int_text(n as int),
        ValueModel::Bool(b) => if b {
            true_lit()
        } else {
            false_lit()
        },
        ValueModel::Str(s) => seq!['"'] + s + seq!['"'],
    }
}

/// Whether a value can be written with `value_text`.
pub open spec fn writable(v: ValueModel) -> bool {
    match v {
        ValueModel::Str(s) => quotable(s),
        _ => true,
    }
}

/// Whether a string is a valid key: not empty, with no whitespace and no `=`.
pub open spec fn valid_key(k: Seq<char>) -> bool {
    k.len() > 0 && forall|i: int| 0 <= i < k.len() ==> is_key_char(#[trigger] k[i])
}

/// An assignment written as `key=value`.
pub open spec fn assignment_text(a: AssignmentModel) -> Seq<char> {
    a.key + seq!['='] + value_text(a.val)
}

proof fn lemma_digit_char(d: int)
    requires
        0 <= d < 10,
    ensures
        is_digit(digit_char(d)),
        digit_value(digit_char(d)) == d,
{
}

proof fn lemma_nat_text(n: nat)
    ensures
        nat_text(n).len() > 0,
        forall|i: int| 0 <= i < nat_text(n).len() ==> is_digit(#[trigger] nat_text(n)[i]),
        decimal(nat_text(n)) == n,
    decreases n,
{
    if n < 10 {
        lemma_digit_char(n as int);
        assert(nat_text(n).drop_last() == Seq::<char>::empty());
        assert(decimal(Seq::<char>::empty()) == 0);
        assert(nat_text(n).last() == digit_char(n as int));
        assert(decimal(nat_text(n)) == decimal(nat_text(n).drop_last()) * 10 + digit_value(
            nat_text(n).last(),
        ));
    } else {
        lemma_nat_text(n / 10);
        lemma_digit_char((n % 10) as int);
        assert(nat_text(n).drop_last() == nat_text(n / 10));
        assert(nat_text(n).last() == digit_char((n % 10) as int));
        assert(n == (n / 10) * 10 + n % 10);
        assert(decimal(nat_text(n)) == decimal(nat_text(n).drop_last()) * 10 + digit_value(
            nat_text(n).last(),
        ));
    }
}

/// A run reaches the end of the input when every character from its start
/// on is in the class.
proof fn lemma_run_to_end(s: Seq<char>, p: int, k: CharClass)
    requires
        0 <= p <= s.len(),
        forall|i: int| p <= i < s.len() ==> in_class(k, #[trigger] s[i]),
    ensures
        run_end(s, p, k) == s.len(),
{
    lemma_run_end(s, p, k);
}

/// A value written by `value_text` at the end of an input reads back, up to
/// the end.
proof fn lemma_value_text_at(s: Seq<char>, p: int, v: ValueModel)
    requires
        0 <= p <= s.len(),
        writable(v),
        s.subrange(p, s.len() as int) == value_text(v),
    ensures
        value_at(s, p) == Ok::<_, ParseError>((v, s.len() as int)),
{
    let t = value_text(v);
    assert(forall|i: int| 0 <= i < t.len() ==> s[p + i] == #[trigger] t[i]);
    match v {
        ValueModel::Str(x) => {
            let q = seq!['"'] + x;
            assert(t == q + seq!['"']);
            assert(t[0] == q[0]);
            assert(s[p] == t[0]);
            assert(s[p] == '"');
            assert forall|i: int| p + 1 <= i < s.len() - 1 implies in_class(
                CharClass::NotQuote,
                #[trigger] s[i],
            ) by {
                assert(t[i - p] == q[i - p]);
                assert(q[i - p] == x[i - p - 1]);
            }
            let e = run_end(s, p + 1, CharClass::NotQuote);
            lemma_run_end(s, p + 1, CharClass::NotQuote);
            assert(s[s.len() - 1] == t[t.len() - 1]);
            assert(s[s.len() - 1] == '"');
            assert forall|i: int| 0 <= i < x.len() implies #[trigger] s.subrange(p + 1, s.len() - 1)[i]
                == x[i] by {
                assert(t[i + 1] == q[i + 1]);
            }
            assert(e == s.len() - 1);
            assert(s.subrange(p + 1, s.len() - 1) =~= x);
            assert(quoted_at(s, p) == Ok::<_, ParseError>((ValueModel::Str(x), s.len() as int)));
        },
        ValueModel::Bool(b) => {
            if b {
                assert(s.subrange(p, p + 4) == true_lit());
            } else {
                assert(s.subrange(p, p + 5) == false_lit());
                assert(!has_at(s, p, true_lit())) by {
                    assert(s[p] == 'f');
                    if has_at(s, p, true_lit()) {
                        assert(s.subrange(p, p + 4)[0] == 't');
                    }
                }
            }
        },
        ValueModel::Int(n) => {
            let m: nat = if n < 0 { (-n) as nat } else { n as nat };
            lemma_nat_text(m);
            let d = if n < 0 { p + 1 } else { p };
            assert(t.subrange(d - p, t.len() as int) == nat_text(m)) by {
                if n < 0 {
                    assert(t == seq!['-'] + nat_text(m));
                    assert(t.subrange(1, t.len() as int) =~= nat_text(m));
                } else {
                    assert(t.subrange(0, t.len() as int) =~= t);
                }
            }
            assert(s.subrange(d, s.len() as int) =~= t.subrange(d - p, t.len() as int));
            assert forall|i: int| d <= i < s.len() implies in_class(CharClass::Digit, #[trigger] s[i]) by {
                assert(s[i] == s.subrange(d, s.len() as int)[i - d]);
            }
            lemma_run_to_end(s, d, CharClass::Digit);
            assert(s[p] == t[0]);
            if n < 0 {
                assert(t[0] == '-');
            } else {
                assert(is_digit(s[p]));
            }
            assert(integer_at(s, p) == Ok::<_, ParseError>((v, s.len() as int)));
            assert(value_at(s, p) == Ok::<_, ParseError>((v, s.len() as int)));
        },
    }
}

/// A string with no `"` in it, put between double quotes, reads as a value
/// back as that very string.
pub proof fn lemma_quoted_value(s: Seq<char>)
    requires
        quotable(s),
    ensures
        whole(value_at(seq!['"'] + s + seq!['"'], 0), s.len() + 2int) == Ok::<_, ParseError>(
            ValueModel::Str(s),
        ),
{
    let t = seq!['"'] + s + seq!['"'];
    assert(t.subrange(0, t.len() as int) == t);
    lemma_value_text_at(t, 0, ValueModel::Str(s));
}

/// Every 64-bit integer written in decimal reads as a value back as itself.
pub proof fn lemma_integer_value(n: i64)
    ensures
        whole(value_at(int_text(n as int), 0), int_text(n as int).len() as int)
            == Ok::<_, ParseError>(ValueModel::Int(n)),
{
    let t = int_text(n as int);
    assert(t.subrange(0, t.len() as int) == t);
    lemma_value_text_at(t, 0, ValueModel::Int(n));
}

/// `-` followed by digits reads as the negated number that the digits
/// write, or as an overflow where that does not fit in 64 bits: the sign is
/// applied once.
pub proof fn lemma_negative_integer(ds: Seq<char>)
    requires
        ds.len() > 0,
        forall|i: int| 0 <= i < ds.len() ==> is_digit(#[trigger] ds[i]),
    ensures
        fits_i64(-decimal(ds)) ==> value_at(seq!['-'] + ds, 0) == Ok::<_, ParseError>(
            (ValueModel::Int((-decimal(ds)) as i64), ds.len() + 1int),
        ),
        !fits_i64(-decimal(ds)) ==> value_at(seq!['-'] + ds, 0) == Err::<(ValueModel, int), _>(
            ParseError { pos: 0, kind: ErrorKind::IntegerOverflow },
        ),
{
    let t = seq!['-'] + ds;
    assert(forall|i: int| 1 <= i < t.len() ==> t[i] == #[trigger] ds[i - 1]);
    lemma_run_to_end(t, 1, CharClass::Digit);
    assert(t.subrange(1, t.len() as int) == ds);
}

/// The boolean alternative matches exactly where `true` or `false` starts,
/// and a whole input reads as a boolean only when it is one of those two
/// words, each giving its own truth value.
pub proof fn lemma_boolean_literals(s: Seq<char>, p: int)
    ensures
        boolean_at(s, p) is Some <==> (has_at(s, p, true_lit()) || has_at(s, p, false_lit())),
        whole(value_at(true_lit(), 0), 4) == Ok::<_, ParseError>(ValueModel::Bool(true)),
        whole(value_at(false_lit(), 0), 5) == Ok::<_, ParseError>(ValueModel::Bool(false)),
        whole(value_at(s, 0), s.len() as int) matches Ok(ValueModel::Bool(b)) ==> (b && s
            == true_lit()) || (!b && s == false_lit()),
{
    assert(true_lit().subrange(0, 4) == true_lit());
    assert(false_lit().subrange(0, 5) == false_lit());
    lemma_value_text_at(true_lit(), 0, ValueModel::Bool(true));
    lemma_value_text_at(false_lit(), 0, ValueModel::Bool(false));
    if whole(value_at(s, 0), s.len() as int) matches Ok(ValueModel::Bool(b)) {
        if has_at(s, 0, true_lit()) {
            assert(s.subrange(0, 4) == s);
        } else {
            assert(s.subrange(0, 5) == s);
        }
    }
}

/// An assignment with a valid key, written as `key=value`, reads back as
/// itself.
pub proof fn lemma_assignment_round_trip(a: AssignmentModel)
    requires
        valid_key(a.key),
        writable(a.val),
    ensures
        whole(assignment_at(assignment_text(a), 0), assignment_text(a).len() as int)
            == Ok::<_, ParseError>(a),
{
    let t = assignment_text(a);
    let n = a.key.len() as int;
    assert(forall|i: int| 0 <= i < n ==> t[i] == #[trigger] a.key[i]);
    assert(t[n] == '=');
    assert(!in_class(CharClass::Space, t[0]));
    assert(run_end(t, 0, CharClass::Space) == 0);
    assert(forall|i: int| 0 <= i < n ==> in_class(CharClass::KeyChar, #[trigger] t[i]));
    lemma_run_end(t, 0, CharClass::KeyChar);
    assert(run_end(t, 0, CharClass::KeyChar) == n);
    assert(t.subrange(n + 1, t.len() as int) == value_text(a.val));
    lemma_value_text_at(t, n + 1, a.val);
    assert(t.subrange(0, n) == a.key);
}

} // verus!

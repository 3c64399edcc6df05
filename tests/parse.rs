use confparse::{assignment, comment, val, Assignment, ErrorKind, ParseError, Stmt, Value};

fn doc(input: &str) -> Result<Vec<Stmt>, ParseError> {
    confparse::parser::file(input)
}

fn str_val(s: &str) -> Value {
    Value::Str(s.to_string())
}

fn assign(key: &str, val: Value) -> Stmt {
    Stmt::Assignment(Assignment { key: key.to_string(), val })
}

fn error(pos: usize, kind: ErrorKind) -> ParseError {
    ParseError { pos, kind }
}

#[test]
fn parse_comment() {
    assert_eq!(comment("# Hello world"), Ok(" Hello world".to_string()))
}

#[test]
fn parse_val() {
    assert_eq!(val("123"), Ok(Value::Int(123)));
    assert_eq!(val(r#""Hello""#), Ok(Value::Str("Hello".to_string())));
    assert_eq!(val(r#"Hello"#), Ok(Value::Str("Hello".to_string())));
    assert_eq!(val("true"), Ok(Value::Bool(true)));
    assert_eq!(val("false"), Ok(Value::Bool(false)));
}

#[test]
fn parse_stmts() {
    assert_eq!(
        doc("a=b\n#Hello"),
        Ok(vec![
            Stmt::Assignment(Assignment { key: "a".to_string(), val: Value::Str("b".to_string()) }),
            Stmt::Comment("Hello".to_string())
        ])
    )
}

#[test]
fn parse_assignments() {
    assert_eq!(
        assignment("a=b"),
        Ok(Assignment { key: "a".to_string(), val: Value::Str("b".to_string()) })
    )
}

#[test]
fn document_single_comment() {
    assert_eq!(doc("# Hello world"), Ok(vec![Stmt::Comment(" Hello world".to_string())]));
}

#[test]
fn document_single_assignment() {
    assert_eq!(doc("a=b"), Ok(vec![assign("a", str_val("b"))]));
}

#[test]
fn document_negative_integer() {
    assert_eq!(doc("count=-42"), Ok(vec![assign("count", Value::Int(-42))]));
}

#[test]
fn document_boolean() {
    assert_eq!(doc("flag=true"), Ok(vec![assign("flag", Value::Bool(true))]));
}

#[test]
fn document_quoted_with_space() {
    assert_eq!(doc("name=\"John Doe\""), Ok(vec![assign("name", str_val("John Doe"))]));
}

#[test]
fn document_empty_key() {
    let r = doc("=b");
    assert_eq!(r, Err(error(0, ErrorKind::ExpectedKey)));
    assert!(r.unwrap_err().kind.is_syntax());
}

#[test]
fn quoted_digits_stay_a_string() {
    assert_eq!(val("\"123\""), Ok(str_val("123")));
}

#[test]
fn quoted_keeps_everything_but_quotes() {
    assert_eq!(val("\" a-1 =# x\""), Ok(str_val(" a-1 =# x")));
    assert_eq!(val("\"\""), Ok(str_val("")));
}

#[test]
fn integers_in_range() {
    assert_eq!(val("0"), Ok(Value::Int(0)));
    assert_eq!(val("-7"), Ok(Value::Int(-7)));
    assert_eq!(val("007"), Ok(Value::Int(7)));
    assert_eq!(val("9223372036854775807"), Ok(Value::Int(i64::MAX)));
    assert_eq!(val("-9223372036854775808"), Ok(Value::Int(i64::MIN)));
    assert_eq!(val(&i64::MIN.to_string()), Ok(Value::Int(i64::MIN)));
    assert_eq!(val(&1234567890123i64.to_string()), Ok(Value::Int(1234567890123)));
}

#[test]
fn integer_overflow() {
    let r = val("9223372036854775808");
    assert_eq!(r, Err(error(0, ErrorKind::IntegerOverflow)));
    assert!(!r.unwrap_err().kind.is_syntax());
    assert_eq!(val("-9223372036854775809"), Err(error(0, ErrorKind::IntegerOverflow)));
    assert_eq!(
        doc("n=99999999999999999999"),
        Err(error(2, ErrorKind::IntegerOverflow))
    );
}

#[test]
fn minus_without_digits() {
    assert_eq!(val("-"), Err(error(1, ErrorKind::ExpectedDigit)));
    assert_eq!(val("-x"), Err(error(1, ErrorKind::ExpectedDigit)));
}

#[test]
fn boolean_literals_only() {
    assert_eq!(val("truefoo"), Err(error(4, ErrorKind::ExpectedEnd)));
    assert_eq!(val("True"), Ok(str_val("True")));
    assert_eq!(val("tru"), Ok(str_val("tru")));
    assert_eq!(doc("truely=1"), Ok(vec![assign("truely", Value::Int(1))]));
}

#[test]
fn free_string_alphanumeric() {
    assert_eq!(val("abc123"), Ok(str_val("abc123")));
    assert_eq!(val("héllo"), Ok(str_val("héllo")));
    assert_eq!(val(""), Ok(str_val("")));
    assert_eq!(val("ab-c"), Err(error(2, ErrorKind::ExpectedEnd)));
    assert_eq!(doc("k="), Ok(vec![assign("k", str_val(""))]));
}

#[test]
fn unterminated_string() {
    assert_eq!(val("\"abc"), Err(error(0, ErrorKind::UnterminatedString)));
    assert_eq!(doc("a=\"abc"), Err(error(2, ErrorKind::UnterminatedString)));
}

#[test]
fn assignment_spaces_and_keys() {
    assert_eq!(assignment("   k.e-y!=5   "), Ok(Assignment { key: "k.e-y!".to_string(), val: Value::Int(5) }));
    assert_eq!(assignment("a b=c"), Err(error(1, ErrorKind::ExpectedEquals)));
    assert_eq!(assignment("a\tb=c"), Err(error(1, ErrorKind::ExpectedEquals)));
    assert_eq!(assignment("abc"), Err(error(3, ErrorKind::ExpectedEquals)));
    assert_eq!(assignment("a=b c"), Err(error(4, ErrorKind::ExpectedEnd)));
    assert_eq!(assignment("\ta=1"), Err(error(0, ErrorKind::ExpectedKey)));
}

#[test]
fn comment_errors() {
    assert_eq!(comment("x"), Err(error(0, ErrorKind::ExpectedHash)));
    assert_eq!(comment("#"), Ok(String::new()));
    assert_eq!(comment("#a\nb"), Err(error(2, ErrorKind::ExpectedEnd)));
}

#[test]
fn document_lines_and_order() {
    assert_eq!(
        doc("a=1\na=2\n  b = \n#c"),
        Err(error(11, ErrorKind::ExpectedEquals))
    );
    assert_eq!(
        doc("a=1\na=2\n  b=x  \n#c"),
        Ok(vec![
            assign("a", Value::Int(1)),
            assign("a", Value::Int(2)),
            assign("b", str_val("x")),
            Stmt::Comment("c".to_string()),
        ])
    );
}

#[test]
fn document_blank_lines_fail() {
    assert_eq!(doc(""), Err(error(0, ErrorKind::ExpectedKey)));
    assert_eq!(doc("a=b\n"), Err(error(4, ErrorKind::ExpectedKey)));
    assert_eq!(doc("a=b\n\nc=d"), Err(error(4, ErrorKind::ExpectedKey)));
}

#[test]
fn document_trailing_input() {
    assert_eq!(doc("a=b;"), Err(error(3, ErrorKind::ExpectedNewline)));
}

#[test]
fn quoted_value_spans_lines() {
    assert_eq!(doc("a=\"x\ny\""), Ok(vec![assign("a", str_val("x\ny"))]));
}

#[test]
fn assignment_written_back_reads_the_same() {
    let cases = vec![
        Assignment { key: "port".to_string(), val: Value::Int(-8080) },
        Assignment { key: "on".to_string(), val: Value::Bool(false) },
        Assignment { key: "x_y".to_string(), val: str_val("two words") },
    ];
    for a in cases {
        let text = match &a.val {
            Value::Int(n) => format!("{}={}", a.key, n),
            Value::Bool(b) => format!("{}={}", a.key, b),
            Value::Str(s) => format!("{}=\"{}\"", a.key, s),
        };
        assert_eq!(assignment(&text), Ok(a));
    }
}

#[test]
fn error_descriptions() {
    assert_eq!(ErrorKind::ExpectedEquals.describe(), "expected '='");
    assert_eq!(ErrorKind::UnterminatedString.describe(), "unterminated string");
}

#[test]
fn characters_of_input() {
    assert_eq!(confparse::chars_of("aé\n"), vec!['a', 'é', '\n']);
}

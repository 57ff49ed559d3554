use dotgraph::lexer::{doubleQuotedInner, doubleQuotedString, escaped, id};

#[test]
fn test_escaped() {
    assert_eq!(escaped(r#"\""#).unwrap(), r#"""#);
    assert_eq!(escaped(r"\\").unwrap(), r#"\"#);
}

#[test]
fn test_double_quoted_inner() {
    assert_eq!(doubleQuotedInner("foo\\\"bar\\\"baz qux").unwrap(), "foo\"bar\"baz qux");
}

#[test]
#[should_panic]
fn test_double_quoted_inner2() {
    println!("{:?}", doubleQuotedInner("\"").unwrap());
}

#[test]
fn test_double_quoted_string() {
    assert_eq!(doubleQuotedString("\"foo\\\" bar\\\" baz\"").unwrap(), "foo\" bar\" baz");
}

#[test]
fn test_id() {
    assert_eq!(id("foobar").unwrap(), "foobar");
    assert_eq!(id("\"foo bar\\\" baz\"").unwrap(), "foo bar\" baz");
    assert_eq!(id("1337").unwrap(), "1337");
    assert_eq!(id(".42").unwrap(), ".42");
    assert_eq!(id("322.69").unwrap(), "322.69");
}

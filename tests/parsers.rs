use fractal_parser::parser::{Matcher, Transform};
use fractal_parser::parsers::{Alt2, Digits, Seq2Fwd, Seq2Rev, Str};

#[test]
fn test_str() {
    assert_eq!(Str(&"Thing A").call(&"Thing A"), Some("Thing A"));
    assert_eq!(Str(&"Thing A").call(&"another thing"), None);
}

#[test]
fn test_digits() {
    assert_eq!(Digits(10).call(&"some text with a 4 or w/e"), None);
    assert_eq!(Digits(10).call(&"4582"), Some("4582"));

    assert_eq!(Digits(10).call(&"458a2"), None);
    assert_eq!(Digits(16).call(&"458a2"), Some("458a2"));
}

#[test]
fn test_seq2_fwd() {
    let parser = Seq2Fwd(Digits(10), Str(&" apples"));

    assert_eq!(parser.call(&"4 apples"), Some(("4", " apples")));
    assert_eq!(parser.call(&"7 oranges"), None);
    assert_eq!(parser.call(&"four apples"), None);

    assert_eq!(Seq2Fwd(Digits(10), Digits(10)).call(&"123"), Some(("1", "23")));
}

#[test]
fn test_seq2_rev() {
    let parser = Seq2Rev(Digits(10), Str(&" apples"));

    assert_eq!(parser.call(&"4 apples"), Some(("4", " apples")));
    assert_eq!(parser.call(&"7 oranges"), None);
    assert_eq!(parser.call(&"four apples"), None);

    assert_eq!(Seq2Rev(Digits(10), Digits(10)).call(&"123"), Some(("12", "3")));
}

#[test]
fn test_alt2() {
    let parser = Alt2(Str(&"hello"), Str(&"'ello"));

    assert_eq!(parser.call(&"hello"), Some("hello"));
    assert_eq!(parser.call(&"'ello"), Some("'ello"));
    assert_eq!(parser.call(&"bye"), None);
}

#[test]
fn test_parser_map() {
    assert_eq!(
        Digits(10)
            .post(|opt: Option<&str>| opt.and_then(|s| s.parse::<u32>().ok()))
            .call(&"123"),
        Some(123u32),
    );
}

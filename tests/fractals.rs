use fractal_parser::fractals::{FractalParser, Grammar, ParserRef};
use fractal_parser::parser::Transform;
use fractal_parser::parsers::{Alt2, Digits, Seq2Rev, Str};

#[test]
fn test_fractal_parser() {
    let mut grammar = Grammar::new();
    let parser: FractalParser<u32, _> = FractalParser::new(&mut grammar, |fractal: ParserRef| {
        Alt2(
            Digits(10).post(|opt: Option<&str>| opt.and_then(|s| s.parse::<u32>().ok())),
            Alt2(
                Seq2Rev(fractal, Seq2Rev(Str(&" + "), fractal))
                    .post(|opt: Option<(u32, (&str, u32))>| opt.map(|(x1, (_s, x2))| x1 + x2)),
                Seq2Rev(fractal, Seq2Rev(Str(&" * "), fractal))
                    .post(|opt: Option<(u32, (&str, u32))>| opt.map(|(x1, (_s, x2))| x1 * x2)),
            ),
        )
    });

    assert_eq!(parser.call(&"1 + 2 * 3 + 4"), Some(11));
}

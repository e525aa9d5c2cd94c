use fractal_parser::fractals::{FractalParser, Grammar, ParserRef};
use fractal_parser::parser::{Bounded, Matcher, Transform};
use fractal_parser::parsers::{Alt2, Digits, Seq2Fwd, Seq2Rev, Str};

#[test]
fn digits_need_the_whole_slice() {
    assert_eq!(Digits(10).call(&"12a"), None);
    assert_eq!(Digits(10).call(&"12"), Some("12"));
    assert_eq!(Digits(10).call(&""), None);
    assert_eq!(Digits(16).call(&"FF"), Some("FF"));
    assert_eq!(Digits(8).call(&"78"), None);
}

#[test]
fn literal_is_exact() {
    let abc = Str(&"abc");
    assert_eq!(abc.call(&"abc"), Some("abc"));
    assert_eq!(abc.call(&"abcd"), None);
    assert_eq!(abc.call(&"ab"), None);
    assert_eq!(abc.call(&""), None);
}

#[test]
fn empty_literal_matches_empty_slice() {
    assert_eq!(Str(&"").call(&""), Some(""));
    assert_eq!(Seq2Fwd(Digits(10), Str(&"")).call(&"12"), Some(("12", "")));
}

#[test]
fn alternation_prefers_left() {
    let parser = Alt2(
        Digits(10).post(|o: Option<&str>| o.map(|_| 1u32)),
        Str(&"12").post(|o: Option<&str>| o.map(|_| 2u32)),
    );
    assert_eq!(parser.call(&"12"), Some(1));
    assert_eq!(parser.call(&"1x"), None);
}

#[test]
fn alternation_skips_branch_out_of_bounds() {
    let parser = Alt2(Str(&"ab"), Digits(10));
    assert_eq!(parser.call(&"123"), Some("123"));
    assert_eq!(parser.min_len(), 1);
    assert_eq!(parser.max_len(), usize::MAX);
}

#[test]
fn sequencing_bounds_saturate() {
    let both = Seq2Fwd(Digits(10), Digits(10));
    assert_eq!(both.min_len(), 2);
    assert_eq!(both.max_len(), usize::MAX);
    let lits = Seq2Rev(Str(&"ab"), Str(&"cde"));
    assert_eq!(lits.min_len(), 5);
    assert_eq!(lits.max_len(), 5);
    assert_eq!(lits.call(&"abcde"), Some(("ab", "cde")));
    assert_eq!(lits.call(&"abcd"), None);
}

#[test]
fn scan_order_picks_extreme_split() {
    assert_eq!(Seq2Fwd(Digits(10), Digits(10)).call(&"4567"), Some(("4", "567")));
    assert_eq!(Seq2Rev(Digits(10), Digits(10)).call(&"4567"), Some(("456", "7")));
    assert_eq!(Seq2Fwd(Digits(10), Digits(10)).call(&"4"), None);
}

#[test]
fn splits_fall_between_characters() {
    let parser = Seq2Fwd(Str(&"é"), Digits(10));
    assert_eq!(parser.call(&"é1"), Some(("é", "1")));
    assert_eq!(parser.min_len(), 2);
}

#[test]
fn identity_transforms_change_nothing() {
    for s in ["42", "x", "", "4x2"] {
        let plain = Digits(10).call(&s);
        assert_eq!(Digits(10).post(|o: Option<&'static str>| o).call(&s), plain);
        assert_eq!(Digits(10).map(|v: &'static str| v).call(&s), plain);
    }
    let post = Digits(10).post(|o: Option<&'static str>| o);
    assert_eq!(post.min_len(), 1);
    assert_eq!(post.max_len(), usize::MAX);
}

#[test]
fn map_transforms_success_only() {
    let parser = Digits(10).map(|v: &str| v.len());
    assert_eq!(parser.call(&"9876"), Some(4));
    assert_eq!(parser.call(&"98x6"), None);
}

#[test]
fn post_can_discard() {
    let parser = Digits(10).post(|o: Option<&str>| o.and_then(|s| s.parse::<u8>().ok()));
    assert_eq!(parser.call(&"255"), Some(255u8));
    assert_eq!(parser.call(&"256"), None);
}

#[test]
fn handle_before_installation_is_not_ready() {
    let mut grammar = Grammar::new();
    let handle = grammar.reserve();
    assert_eq!(handle.id(), 0);
    assert_eq!(handle.call(&"1"), None);
    assert_eq!(handle.min_len(), 0);
    assert_eq!(grammar.reserve().id(), 1);
}

#[test]
fn handle_forwards_to_its_rule_through_the_owner() {
    let mut grammar = Grammar::new();
    let other = grammar.reserve();
    let rule: FractalParser<&'static str, _> = FractalParser::new(&mut grammar, |me: ParserRef| {
        Alt2(
            Digits(10),
            Seq2Fwd(Str(&"-"), me)
                .post(|o: Option<(&'static str, &'static str)>| o.map(|(_sign, v)| v)),
        )
    });
    assert_eq!(rule.handle().id(), 1);
    assert_eq!(rule.call(&"--7"), Some("7"));
    assert_eq!(rule.call_ref(&rule.handle(), &"--7"), Some("7"));
    assert_eq!(rule.call_ref(&rule.handle(), &"-x"), None);
    assert_eq!(rule.call_ref(&other, &"7"), None);
}

#[test]
fn self_reference_on_same_length_fails_closed() {
    let mut grammar = Grammar::new();
    let parser: FractalParser<&'static str, _> =
        FractalParser::new(&mut grammar, |me: ParserRef| Alt2(me, Digits(10)));
    assert_eq!(parser.call(&"12"), Some("12"));
    assert_eq!(parser.call(&"1a"), None);
}

#[test]
fn mutually_recursive_rules() {
    // expr := digits | "[" list "]" ; list := expr "," list | expr
    let mut grammar = Grammar::new();
    let expr = grammar.reserve();
    let list = grammar.reserve();
    let list_rule: FractalParser<u32, _> = FractalParser::install(
        list,
        Alt2(
            Seq2Fwd(expr, Seq2Fwd(Str(&","), list))
                .post(|o: Option<(u32, (&str, u32))>| o.map(|(a, (_c, b))| a + b)),
            expr,
        ),
    );
    let expr_rule: FractalParser<u32, _> = FractalParser::install(
        expr,
        Alt2(
            Digits(10).post(|o: Option<&str>| o.and_then(|s| s.parse::<u32>().ok())),
            Seq2Fwd(Str(&"["), Seq2Rev(list_rule, Str(&"]")))
                .post(|o: Option<(&str, (u32, &str))>| o.map(|(_l, (v, _r))| v)),
        ),
    );
    assert_eq!(expr_rule.call(&"5"), Some(5));
    assert_eq!(expr_rule.call(&"[1,2,[3,4]]"), Some(10));
    assert_eq!(expr_rule.call(&"[1,,2]"), None);
    assert_eq!(expr_rule.call_ref(&expr, &"[[2],3]"), Some(5));
}

#[test]
fn nested_rule_keeps_enclosing_handle() {
    // outer := digits | "(" inner ")" ; inner := outer | "!" inner
    let mut grammar = Grammar::new();
    let out = grammar.reserve();
    let me = grammar.reserve();
    let inner: FractalParser<u32, _> = FractalParser::install(
        me,
        Alt2(out, Seq2Fwd(Str(&"!"), me).post(|o: Option<(&str, u32)>| o.map(|(_b, v)| v * 2))),
    );
    let outer: FractalParser<u32, _> = FractalParser::install(
        out,
        Alt2(
            Digits(10).post(|o: Option<&str>| o.and_then(|s| s.parse::<u32>().ok())),
            Seq2Fwd(Str(&"("), Seq2Rev(inner, Str(&")")))
                .post(|o: Option<(&str, (u32, &str))>| o.map(|(_l, (v, _r))| v)),
        ),
    );
    assert_eq!(outer.call(&"3"), Some(3));
    assert_eq!(outer.call(&"(!!3)"), Some(12));
    assert_eq!(outer.call(&"(!(!3))"), Some(12));
}

#[test]
fn recursive_rule_nests() {
    let mut grammar = Grammar::new();
    let parser: FractalParser<u32, _> = FractalParser::new(&mut grammar, |expr: ParserRef| {
        Alt2(
            Digits(10).post(|o: Option<&str>| o.and_then(|s| s.parse::<u32>().ok())),
            Seq2Fwd(Str(&"("), Seq2Rev(expr, Str(&")")))
                .post(|o: Option<(&str, (u32, &str))>| o.map(|(_l, (v, _r))| v + 1)),
        )
    });
    assert_eq!(parser.call(&"7"), Some(7));
    assert_eq!(parser.call(&"((7))"), Some(9));
    assert_eq!(parser.call(&"((7)"), None);
    assert_eq!(parser.source().min_len(), 1);
}

#[test]
fn recursive_rule_reads_operators_by_scan_order() {
    let mut grammar = Grammar::new();
    let parser: FractalParser<u32, _> = FractalParser::new(&mut grammar, |e: ParserRef| {
        Alt2(
            Digits(10).post(|o: Option<&str>| o.and_then(|s| s.parse::<u32>().ok())),
            Alt2(
                Seq2Rev(e, Seq2Rev(Str(&" + "), e))
                    .post(|o: Option<(u32, (&str, u32))>| o.map(|(a, (_s, b))| a + b)),
                Seq2Rev(e, Seq2Rev(Str(&" * "), e))
                    .post(|o: Option<(u32, (&str, u32))>| o.map(|(a, (_s, b))| a * b)),
            ),
        )
    });
    assert_eq!(parser.call(&"2 * 3"), Some(6));
    assert_eq!(parser.call(&"2 * 3 + 1"), Some(7));
    assert_eq!(parser.call(&"2 + 3 * 4"), Some(14));
    assert_eq!(parser.call(&"2 + "), None);
}

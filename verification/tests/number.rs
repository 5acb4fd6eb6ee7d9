use razbor::grammar::{MexprParser, Pair, Rule};

fn leaf(rule: Rule, from: usize, to: usize) -> Pair {
    Pair { rule, from, to, inner: vec![] }
}

#[test]
fn number_decimal() {
    assert_eq!(MexprParser::parse(Rule::number, b"0"), Ok(leaf(Rule::decimal, 0, 1)));
    assert_eq!(MexprParser::parse(Rule::number, b"42"), Ok(leaf(Rule::decimal, 0, 2)));
}

#[test]
fn number_hexadecimal() {
    assert_eq!(MexprParser::parse(Rule::hexdecimal, b"0x42"), Ok(leaf(Rule::hexdecimal, 0, 4)));

    let parsed = MexprParser::parse(Rule::hexdecimal, b"0x");
    assert!(parsed.is_err());
}

#[test]
fn number_number() {
    let expected = Pair {
        rule: Rule::list,
        from: 0,
        to: 21,
        inner: vec![
            leaf(Rule::decimal, 1, 2),
            leaf(Rule::decimal, 4, 5),
            leaf(Rule::decimal, 7, 9),
            leaf(Rule::decimal, 11, 14),
            leaf(Rule::hexdecimal, 16, 20),
        ],
    };
    assert_eq!(MexprParser::parse(Rule::list, b"[0, 1, 12, 007, 0x42]"), Ok(expected));
}

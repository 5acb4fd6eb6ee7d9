use razbor::grammar::{MexprParser, Pair, Rule};

fn string_pair(from: usize, to: usize, inner_from: usize, inner_to: usize) -> Pair {
    Pair {
        rule: Rule::string,
        from,
        to,
        inner: vec![Pair { rule: Rule::inner, from: inner_from, to: inner_to, inner: vec![] }],
    }
}

#[test]
fn string() {
    assert_eq!(MexprParser::parse(Rule::string, b"\"asd\""), Ok(string_pair(0, 5, 1, 4)));
    assert_eq!(MexprParser::parse(Rule::string, b"\"\\\"a\""), Ok(string_pair(0, 5, 1, 4)));
}

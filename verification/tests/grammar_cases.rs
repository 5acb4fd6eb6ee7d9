use razbor::expr::{read_pair, LoadErrorKind, Location, RawExpr, Span};
use razbor::grammar::{MexprParser, Pair, ParseError, Rule};

fn leaf(rule: Rule, from: usize, to: usize) -> Pair {
    Pair { rule, from, to, inner: vec![] }
}

fn loc(from: usize, to: usize) -> Location {
    Location { file_id: 3, span: Span { from, to } }
}

#[test]
fn parse_file_of_one_application() {
    let expected = Pair {
        rule: Rule::mexpr,
        from: 0,
        to: 9,
        inner: vec![
            Pair {
                rule: Rule::m,
                from: 0,
                to: 9,
                inner: vec![leaf(Rule::name, 0, 2), leaf(Rule::name, 3, 4), leaf(Rule::name, 6, 8)],
            },
            leaf(Rule::EOI, 9, 9),
        ],
    };
    assert_eq!(MexprParser::parse_file(b"ty[a, u8]"), Ok(expected));
}

#[test]
fn parse_file_of_nothing() {
    let empty = Pair { rule: Rule::mexpr, from: 0, to: 0, inner: vec![leaf(Rule::EOI, 0, 0)] };
    assert_eq!(MexprParser::parse_file(b""), Ok(empty));
    let blank = Pair { rule: Rule::mexpr, from: 0, to: 3, inner: vec![leaf(Rule::EOI, 3, 3)] };
    assert_eq!(MexprParser::parse_file(b"  \n"), Ok(blank));
}

#[test]
fn parse_file_stops_where_no_expression_starts() {
    assert_eq!(MexprParser::parse_file(b"]"), Err(ParseError { pos: 0 }));
    assert_eq!(MexprParser::parse_file(b"a ]"), Err(ParseError { pos: 2 }));
    assert!(MexprParser::parse_file(b"a[b, ]").is_err());
    assert!(MexprParser::parse_file(b"\"open").is_err());
}

#[test]
fn names_may_hold_dots_and_digits() {
    assert_eq!(MexprParser::parse(Rule::name, b"a.b_1 rest"), Ok(leaf(Rule::name, 0, 5)));
    assert!(MexprParser::parse(Rule::name, b"1a").is_err());
}

#[test]
fn expressions_are_tried_in_order() {
    // A name followed by a bracket is an application, not a name.
    let m = MexprParser::parse(Rule::mexpr, b"f [x]").unwrap();
    assert_eq!(m.inner[0].rule, Rule::m);
    assert_eq!(m.inner[0].to, 5);
    // "0x" with no digit after it is the decimal 0 followed by the name x.
    let m = MexprParser::parse_file(b"0x").unwrap();
    assert_eq!(m.inner[0], leaf(Rule::decimal, 0, 1));
    assert_eq!(m.inner[1], leaf(Rule::name, 1, 2));
}

fn read(src: &[u8]) -> Result<razbor::expr::Ranged<RawExpr>, LoadErrorKind> {
    let pair = MexprParser::parse(Rule::m, src).unwrap();
    read_pair(src, &pair, 3)
}

#[test]
fn reading_a_type_definition() {
    let e = read(b"ty[a, u8]").unwrap();
    assert_eq!(e.range, Some(loc(0, 9)));
    match e.data {
        RawExpr::Ty { name, data } => {
            assert_eq!(name.data, b"a".to_vec());
            assert_eq!(name.range, Some(loc(3, 4)));
            assert_eq!(data.data, RawExpr::Name(b"u8".to_vec()));
            assert_eq!(data.range, Some(loc(6, 8)));
        },
        other => panic!("not a type: {:?}", other),
    }
}

#[test]
fn reading_errors() {
    assert_eq!(read(b"ty[a]"), Err(LoadErrorKind::InvalidTy(loc(0, 5))));
    assert_eq!(read(b"def[1, u8]"), Err(LoadErrorKind::InvalidName(loc(4, 5))));
    assert_eq!(read(b"ty[a, u8, u8]"), Err(LoadErrorKind::InvalidTy(loc(0, 13))));
    assert_eq!(read(b"and[import[x]]"), Err(LoadErrorKind::ImportInside(loc(4, 13))));
}

#[test]
fn reading_an_application() {
    let e = read(b"f[1, 0x2, \"s\", [g]]").unwrap();
    match e.data {
        RawExpr::Apply { head, body } => {
            assert_eq!(head.data, b"f".to_vec());
            assert_eq!(head.range, Some(loc(0, 1)));
            assert_eq!(body.len(), 4);
            assert_eq!(body[0].data, RawExpr::Decimal(b"1".to_vec()));
            assert_eq!(body[1].data, RawExpr::Hexdecimal(b"0x2".to_vec()));
            assert_eq!(body[2].data, RawExpr::String(b"\"s\"".to_vec()));
            match &body[3].data {
                RawExpr::List(items) => assert_eq!(items[0].data, RawExpr::Name(b"g".to_vec())),
                other => panic!("not a list: {:?}", other),
            }
        },
        other => panic!("not an application: {:?}", other),
    }
}

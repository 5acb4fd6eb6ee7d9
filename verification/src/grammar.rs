//! The m-expression grammar and its parser.
//!
//! A source file is a sequence of expressions separated by whitespace
//! (space, tab, carriage return, line feed):
//!
//! ```text
//! mexpr      = expr*                                  (then the end of input)
//! expr       = m | list | number | string | name      (tried in this order)
//! m          = name "[" (expr ("," expr)*)? "]"
//! list       = "[" (expr ("," expr)*)? "]"
//! number     = hexdecimal | decimal
//! hexdecimal = "0x" hexdigit+
//! decimal    = digit+
//! string     = "\"" inner "\""
//! inner      = (any byte but "\"" and "\\" | "\\" any byte)*
//! name       = (letter | "_") (letter | digit | "_" | ".")*
//! ```
//!
//! Whitespace may stand between the tokens of `mexpr`, `m` and `list`, but not
//! inside a name, a number or a string. Choices are ordered and a choice that
//! succeeds is never taken back, as in a parsing expression grammar. Positions
//! are byte offsets.

use vstd::prelude::*;

verus! {

/// The kinds of nodes of a parse tree.
#[allow(non_camel_case_types)]
#[derive(PartialEq, Eq, Structural, Clone, Copy, Debug)]
pub enum Rule {
    mexpr,
    m,
    list,
    name,
    number,
    decimal,
    hexdecimal,
    string,
    inner,
    EOI,
}

/// A node of a parse tree: the rule it matched, the bytes `from..to` it
/// spans, and its children.
#[derive(Debug, PartialEq, Eq)]
pub struct Pair {
    pub rule: Rule,
    pub from: usize,
    pub to: usize,
    pub inner: Vec<Pair>,
}

/// The mathematical value of a [`Pair`].
pub struct SpecPair {
    pub rule: Rule,
    pub from: int,
    pub to: int,
    pub inner: Seq<SpecPair>,
}

/// The value of a parse tree.
pub open spec fn pair_value(p: Pair) -> SpecPair
    decreases p,
{
    SpecPair {
        rule: p.rule,
        from: p.from as int,
        to: p.to as int,
        inner: Seq::new(
            p.inner@.len(),
            |i: int|
                if 0 <= i < p.inner@.len() {
                    pair_value(p.inner@[i])
                } else {
                    arbitrary()
                },
        ),
    }
}

impl View for Pair {
    type V = SpecPair;

    open spec fn view(&self) -> SpecPair {
        pair_value(*self)
    }
}

/// The values of a list of parse trees.
pub open spec fn pairs_view(v: Seq<Pair>) -> Seq<SpecPair> {
    Seq::new(v.len(), |i: int| v[i]@)
}

/// The value of an optional parse tree.
pub open spec fn opt_view(o: Option<Pair>) -> Option<SpecPair> {
    match o {
        Some(p) => Some(p@),
        None => None,
    }
}

/// Where parsing stopped: no expression starts at `pos`, and the input does not end there.
#[derive(Debug, Clone, Copy, PartialEq, Eq)]
pub struct ParseError {
    pub pos: usize,
}

pub open spec fn leaf(rule: Rule, from: int, to: int) -> SpecPair {
    SpecPair { rule, from, to, inner: Seq::empty() }
}

pub open spec fn is_ws(b: u8) -> bool {
    b == 32 || b == 9 || b == 13 || b == 10
}

pub open spec fn is_digit(b: u8) -> bool {
    48 <= b <= 57
}

pub open spec fn is_hex_digit(b: u8) -> bool {
    is_digit(b) || 65 <= b <= 70 || 97 <= b <= 102
}

pub open spec fn is_letter(b: u8) -> bool {
    65 <= b <= 90 || 97 <= b <= 122
}

pub open spec fn is_name_start(b: u8) -> bool {
    is_letter(b) || b == 95
}

pub open spec fn is_name_char(b: u8) -> bool {
    is_letter(b) || is_digit(b) || b == 95 || b == 46
}

/// The first position at or after `i` whose byte is not whitespace (or the end).
pub open spec fn skip_ws(s: Seq<u8>, i: int) -> int
    decreases s.len() - i,
{
    if 0 <= i < s.len() && is_ws(s[i]) {
        skip_ws(s, i + 1)
    } else {
        i
    }
}

/// The first position at or after `i` whose byte fails `p` (or the end).
pub open spec fn run_end(s: Seq<u8>, i: int, p: spec_fn(u8) -> bool) -> int
    decreases s.len() - i,
{
    if 0 <= i < s.len() && p(s[i]) {
        run_end(s, i + 1, p)
    } else {
        i
    }
}

pub open spec fn name_char_fn() -> spec_fn(u8) -> bool {
    |b: u8| is_name_char(b)
}

pub open spec fn digit_fn() -> spec_fn(u8) -> bool {
    |b: u8| is_digit(b)
}

pub open spec fn hex_digit_fn() -> spec_fn(u8) -> bool {
    |b: u8| is_hex_digit(b)
}

/// A name starting at `i`.
pub open spec fn p_name(s: Seq<u8>, i: int) -> Option<SpecPair> {
    if 0 <= i < s.len() && is_name_start(s[i]) {
        Some(leaf(Rule::name, i, run_end(s, i + 1, name_char_fn())))
    } else {
        None
    }
}

/// A decimal number starting at `i`.
pub open spec fn p_decimal(s: Seq<u8>, i: int) -> Option<SpecPair> {
    if 0 <= i < s.len() && is_digit(s[i]) {
        Some(leaf(Rule::decimal, i, run_end(s, i + 1, digit_fn())))
    } else {
        None
    }
}

/// A hexadecimal number starting at `i`.
pub open spec fn p_hexdecimal(s: Seq<u8>, i: int) -> Option<SpecPair> {
    if 0 <= i && i + 2 < s.len() && s[i] == 48 && s[i + 1] == 120 && is_hex_digit(s[i + 2]) {
        Some(leaf(Rule::hexdecimal, i, run_end(s, i + 3, hex_digit_fn())))
    } else {
        None
    }
}

/// A number starting at `i`: hexadecimal if it can be, else decimal.
pub open spec fn p_number(s: Seq<u8>, i: int) -> Option<SpecPair> {
    match p_hexdecimal(s, i) {
        Some(p) => Some(p),
        None => p_decimal(s, i),
    }
}

/// Where the content of a string that starts at `j` ends: at the first quote
/// that is not escaped, or where the input ends, or at a backslash that ends the input.
pub open spec fn inner_end(s: Seq<u8>, j: int) -> int
    decreases s.len() - j,
{
    if j < 0 || j >= s.len() || s[j] == 34 {
        j
    } else if s[j] == 92 {
        if j + 1 < s.len() {
            inner_end(s, j + 2)
        } else {
            j
        }
    } else {
        inner_end(s, j + 1)
    }
}

/// A string starting at `i`; its one child is its content.
pub open spec fn p_string(s: Seq<u8>, i: int) -> Option<SpecPair> {
    if 0 <= i < s.len() && s[i] == 34 {
        let e = inner_end(s, i + 1);
        if e < s.len() && s[e] == 34 {
            Some(SpecPair { rule: Rule::string, from: i, to: e + 1, inner: seq![leaf(Rule::inner, i + 1, e)] })
        } else {
            None
        }
    } else {
        None
    }
}

/// The closing bracket at `j`, after the items `acc`.
pub open spec fn p_close(s: Seq<u8>, j: int, acc: Seq<SpecPair>) -> Option<(Seq<SpecPair>, int)> {
    if 0 <= j < s.len() && s[j] == 93 {
        Some((acc, j + 1))
    } else {
        None
    }
}

/// An `m` (a name applied to bracketed items) starting at `i`.
pub open spec fn p_m(s: Seq<u8>, i: int) -> Option<SpecPair>
    decreases s.len() - i, 0int,
{
    match p_name(s, i) {
        Some(n) => {
            let j = skip_ws(s, n.to);
            if i < j && j < s.len() && s[j] == 91 {
                match p_items(s, j + 1) {
                    Some((items, k)) => Some(
                        SpecPair { rule: Rule::m, from: i, to: k, inner: seq![n] + items },
                    ),
                    None => None,
                }
            } else {
                None
            }
        },
        None => None,
    }
}

/// A list (bracketed items) starting at `i`.
pub open spec fn p_list(s: Seq<u8>, i: int) -> Option<SpecPair>
    decreases s.len() - i, 0int,
{
    if 0 <= i < s.len() && s[i] == 91 {
        match p_items(s, i + 1) {
            Some((items, k)) => Some(SpecPair { rule: Rule::list, from: i, to: k, inner: items }),
            None => None,
        }
    } else {
        None
    }
}

/// An expression starting at `i`.
pub open spec fn p_expr(s: Seq<u8>, i: int) -> Option<SpecPair>
    decreases s.len() - i, 2int,
{
    if i < 0 || i >= s.len() {
        None
    } else {
        match p_m(s, i) {
            Some(p) => Some(p),
            None => p_nonm(s, i),
        }
    }
}

/// An expression other than an `m` starting at `i`.
pub open spec fn p_nonm(s: Seq<u8>, i: int) -> Option<SpecPair>
    decreases s.len() - i, 1int,
{
    if i < 0 || i >= s.len() {
        None
    } else if s[i] == 91 {
        p_list(s, i)
    } else {
        match p_number(s, i) {
            Some(p) => Some(p),
            None => match p_string(s, i) {
                Some(p) => Some(p),
                None => p_name(s, i),
            },
        }
    }
}

/// The items of a bracketed sequence whose content starts at `i`, and the
/// position after its closing bracket.
pub open spec fn p_items(s: Seq<u8>, i: int) -> Option<(Seq<SpecPair>, int)>
    decreases s.len() - i, 3int,
{
    if i < 0 || i > s.len() {
        None
    } else {
        let j = skip_ws(s, i);
        if j < i || j > s.len() {
            None
        } else {
            match p_expr(s, j) {
                None => p_close(s, j, Seq::empty()),
                Some(e) => if j < e.to <= s.len() {
                    p_more(s, e.to, seq![e])
                } else {
                    None
                },
            }
        }
    }
}

/// After the items `acc`, at `i`: more items after commas, then the closing bracket.
pub open spec fn p_more(s: Seq<u8>, i: int, acc: Seq<SpecPair>) -> Option<(Seq<SpecPair>, int)>
    decreases s.len() - i, 4int,
{
    if i < 0 || i > s.len() {
        None
    } else {
        let j = skip_ws(s, i);
        if j < i || j > s.len() {
            None
        } else if j < s.len() && s[j] == 44 {
            let k = skip_ws(s, j + 1);
            if k <= j || k > s.len() {
                None
            } else {
                match p_expr(s, k) {
                    Some(e) => if k < e.to <= s.len() {
                        p_more(s, e.to, acc.push(e))
                    } else {
                        None
                    },
                    None => p_close(s, j, acc),
                }
            }
        } else {
            p_close(s, j, acc)
        }
    }
}


/// The top-level expressions from `i` on, after `acc`, up to the end of the input.
pub open spec fn p_top(s: Seq<u8>, i: int, acc: Seq<SpecPair>) -> Result<Seq<SpecPair>, int>
    decreases s.len() - i,
{
    let j = skip_ws(s, i);
    if i < 0 || j < i || j > s.len() {
        Err(j)
    } else {
        match p_expr(s, j) {
            Some(e) => if j < e.to <= s.len() {
                p_top(s, e.to, acc.push(e))
            } else {
                Err(j)
            },
            None => if j == s.len() {
                Ok(acc)
            } else {
                Err(j)
            },
        }
    }
}

/// A whole source file: its expressions, then the end of input.
pub open spec fn p_mexpr(s: Seq<u8>) -> Result<SpecPair, int> {
    match p_top(s, 0, Seq::empty()) {
        Ok(items) => Ok(
            SpecPair {
                rule: Rule::mexpr,
                from: 0,
                to: s.len() as int,
                inner: items.push(leaf(Rule::EOI, s.len() as int, s.len() as int)),
            },
        ),
        Err(j) => Err(j),
    }
}

/// The bytes that may continue a token.
#[derive(PartialEq, Eq, Structural, Clone, Copy)]
enum CharClass {
    NameChar,
    Digit,
    HexDigit,
}

spec fn class_fn(c: CharClass) -> spec_fn(u8) -> bool {
    match c {
        CharClass::NameChar => name_char_fn(),
        CharClass::Digit => digit_fn(),
        CharClass::HexDigit => hex_digit_fn(),
    }
}

fn in_class(c: CharClass, b: u8) -> (r: bool)
    ensures
        r == class_fn(c)(b),
{
    match c {
        CharClass::NameChar => (65 <= b && b <= 90) || (97 <= b && b <= 122) || (48 <= b && b <= 57)
            || b == 95 || b == 46,
        CharClass::Digit => 48 <= b && b <= 57,
        CharClass::HexDigit => (48 <= b && b <= 57) || (65 <= b && b <= 70) || (97 <= b && b <= 102),
    }
}

fn run_end_exec(s: &[u8], i: usize, c: CharClass) -> (r: usize)
    requires
        i <= s.len(),
    ensures
        r == run_end(s@, i as int, class_fn(c)),
        i <= r <= s.len(),
{
    let mut k = i;
    while k < s.len() && in_class(c, s[k])
        invariant
            i <= k <= s.len(),
            run_end(s@, i as int, class_fn(c)) == run_end(s@, k as int, class_fn(c)),
        decreases s.len() - k,
    {
        k += 1;
    }
    k
}

fn skip_ws_exec(s: &[u8], i: usize) -> (r: usize)
    requires
        i <= s.len(),
    ensures
        r == skip_ws(s@, i as int),
        i <= r <= s.len(),
{
    let mut k = i;
    while k < s.len() && (s[k] == 32 || s[k] == 9 || s[k] == 13 || s[k] == 10)
        invariant
            i <= k <= s.len(),
            skip_ws(s@, i as int) == skip_ws(s@, k as int),
        decreases s.len() - k,
    {
        k += 1;
    }
    k
}

fn leaf_pair(rule: Rule, from: usize, to: usize) -> (r: Pair)
    ensures
        r@ == leaf(rule, from as int, to as int),
{
    let r = Pair { rule, from, to, inner: Vec::new() };
    assert(r@.inner =~= Seq::<SpecPair>::empty());
    r
}

fn parse_name(s: &[u8], i: usize) -> (r: Option<Pair>)
    requires
        i <= s.len(),
    ensures
        opt_view(r) == p_name(s@, i as int),
        r matches Some(p) ==> i < p.to <= s.len(),
{
    if i < s.len() && ((65 <= s[i] && s[i] <= 90) || (97 <= s[i] && s[i] <= 122) || s[i] == 95) {
        let e = run_end_exec(s, i + 1, CharClass::NameChar);
        Some(leaf_pair(Rule::name, i, e))
    } else {
        None
    }
}

fn parse_decimal(s: &[u8], i: usize) -> (r: Option<Pair>)
    requires
        i <= s.len(),
    ensures
        opt_view(r) == p_decimal(s@, i as int),
        r matches Some(p) ==> i < p.to <= s.len(),
{
    if i < s.len() && 48 <= s[i] && s[i] <= 57 {
        let e = run_end_exec(s, i + 1, CharClass::Digit);
        Some(leaf_pair(Rule::decimal, i, e))
    } else {
        None
    }
}

fn parse_hexdecimal(s: &[u8], i: usize) -> (r: Option<Pair>)
    requires
        i <= s.len(),
    ensures
        opt_view(r) == p_hexdecimal(s@, i as int),
        r matches Some(p) ==> i < p.to <= s.len(),
{
    if s.len() >= 3 && i < s.len() - 2 && s[i] == 48 && s[i + 1] == 120 && in_class(
        CharClass::HexDigit,
        s[i + 2],
    ) {
        let e = run_end_exec(s, i + 3, CharClass::HexDigit);
        Some(leaf_pair(Rule::hexdecimal, i, e))
    } else {
        None
    }
}

fn parse_number(s: &[u8], i: usize) -> (r: Option<Pair>)
    requires
        i <= s.len(),
    ensures
        opt_view(r) == p_number(s@, i as int),
        r matches Some(p) ==> i < p.to <= s.len(),
{
    match parse_hexdecimal(s, i) {
        Some(p) => Some(p),
        None => parse_decimal(s, i),
    }
}

fn inner_end_exec(s: &[u8], j: usize) -> (r: usize)
    requires
        j <= s.len(),
    ensures
        r == inner_end(s@, j as int),
        j <= r <= s.len(),
{
    let mut k = j;
    while k < s.len() && s[k] != 34
        invariant
            j <= k <= s.len(),
            inner_end(s@, j as int) == inner_end(s@, k as int),
        decreases s.len() - k,
    {
        if s[k] == 92 {
            if k + 1 < s.len() {
                k += 2;
            } else {
                return k;
            }
        } else {
            k += 1;
        }
    }
    k
}

fn parse_string(s: &[u8], i: usize) -> (r: Option<Pair>)
    requires
        i <= s.len(),
    ensures
        opt_view(r) == p_string(s@, i as int),
        r matches Some(p) ==> i < p.to <= s.len(),
{
    if i < s.len() && s[i] == 34 {
        let e = inner_end_exec(s, i + 1);
        if e < s.len() && s[e] == 34 {
            let mut inner: Vec<Pair> = Vec::new();
            inner.push(leaf_pair(Rule::inner, i + 1, e));
            let r = Pair { rule: Rule::string, from: i, to: e + 1, inner };
            assert(r@.inner =~= seq![leaf(Rule::inner, i + 1, e as int)]);
            Some(r)
        } else {
            None
        }
    } else {
        None
    }
}

/// The value of an optional list of items with the position after them.
pub open spec fn items_view(o: Option<(Vec<Pair>, usize)>) -> Option<(Seq<SpecPair>, int)> {
    match o {
        Some((v, k)) => Some((pairs_view(v@), k as int)),
        None => None,
    }
}

fn close_exec(s: &[u8], j: usize, acc: Vec<Pair>) -> (r: Option<(Vec<Pair>, usize)>)
    requires
        j <= s.len(),
    ensures
        items_view(r) == p_close(s@, j as int, pairs_view(acc@)),
{
    if j < s.len() && s[j] == 93 {
        Some((acc, j + 1))
    } else {
        None
    }
}

/// The children of a tree are the values of its child trees.
pub proof fn lemma_pair_inner(p: &Pair)
    ensures
        p@.inner == pairs_view(p.inner@),
        p@.rule == p.rule,
        p@.from == p.from,
        p@.to == p.to,
{
    let v = p@;
    assert(v.inner.len() == p.inner@.len());
    assert forall|k: int| 0 <= k < v.inner.len() implies v.inner[k] == pairs_view(p.inner@)[k] by {
        assert(v.inner[k] == p.inner@[k].view());
    }
    assert(v.inner =~= pairs_view(p.inner@));
}

proof fn lemma_pairs_concat(a: Seq<Pair>, b: Seq<Pair>)
    ensures
        pairs_view(a + b) == pairs_view(a) + pairs_view(b),
{
    assert(pairs_view(a + b) =~= pairs_view(a) + pairs_view(b));
}

proof fn lemma_pairs_push(v: Seq<Pair>, p: Pair)
    ensures
        pairs_view(v.push(p)) == pairs_view(v).push(p@),
{
    assert(pairs_view(v.push(p)) =~= pairs_view(v).push(p@));
}

fn parse_m(s: &[u8], i: usize) -> (r: Option<Pair>)
    requires
        i <= s.len(),
    ensures
        opt_view(r) == p_m(s@, i as int),
    decreases s.len() - i, 0int,
{
    match parse_name(s, i) {
        Some(n) => {
            let j = skip_ws_exec(s, n.to);
            if i < j && j < s.len() && s[j] == 91 {
                match parse_items(s, j + 1) {
                    Some((items, k)) => {
                        let ghost nv = n;
                        let ghost it = items@;
                        let mut inner: Vec<Pair> = Vec::new();
                        inner.push(n);
                        let mut items = items;
                        inner.append(&mut items);
                        let r = Pair { rule: Rule::m, from: i, to: k, inner };
                        proof {
                            lemma_pair_inner(&r);
                            assert(r.inner@ == seq![nv] + it);
                            lemma_pairs_concat(seq![nv], it);
                            assert(pairs_view(seq![nv]) =~= seq![nv@]);
                        }
                        Some(r)
                    },
                    None => None,
                }
            } else {
                None
            }
        },
        None => None,
    }
}

fn parse_list(s: &[u8], i: usize) -> (r: Option<Pair>)
    requires
        i <= s.len(),
    ensures
        opt_view(r) == p_list(s@, i as int),
    decreases s.len() - i, 0int,
{
    if i < s.len() && s[i] == 91 {
        match parse_items(s, i + 1) {
            Some((items, k)) => {
                let r = Pair { rule: Rule::list, from: i, to: k, inner: items };
                proof {
                    lemma_pair_inner(&r);
                }
                Some(r)
            },
            None => None,
        }
    } else {
        None
    }
}

fn parse_expr(s: &[u8], i: usize) -> (r: Option<Pair>)
    requires
        i <= s.len(),
    ensures
        opt_view(r) == p_expr(s@, i as int),
    decreases s.len() - i, 2int,
{
    if i >= s.len() {
        return None;
    }
    match parse_m(s, i) {
        Some(p) => Some(p),
        None => parse_nonm(s, i),
    }
}

fn parse_nonm(s: &[u8], i: usize) -> (r: Option<Pair>)
    requires
        i <= s.len(),
    ensures
        opt_view(r) == p_nonm(s@, i as int),
    decreases s.len() - i, 1int,
{
    if i >= s.len() {
        None
    } else if s[i] == 91 {
        parse_list(s, i)
    } else {
        match parse_number(s, i) {
            Some(p) => Some(p),
            None => match parse_string(s, i) {
                Some(p) => Some(p),
                None => parse_name(s, i),
            },
        }
    }
}

fn parse_items(s: &[u8], i: usize) -> (r: Option<(Vec<Pair>, usize)>)
    requires
        i <= s.len(),
    ensures
        items_view(r) == p_items(s@, i as int),
    decreases s.len() - i, 3int,
{
    let j = skip_ws_exec(s, i);
    let first = parse_expr(s, j);
    let e = match first {
        None => {
            return close_exec(s, j, Vec::new());
        },
        Some(e) => e,
    };
    if !(j < e.to && e.to <= s.len()) {
        return None;
    }
    let mut cur = e.to;
    let mut acc: Vec<Pair> = Vec::new();
    acc.push(e);
    assert(pairs_view(acc@) =~= seq![e@]);
    loop
        invariant
            i < cur <= s.len(),
            p_more(s@, cur as int, pairs_view(acc@)) == p_items(s@, i as int),
        decreases s.len() - cur,
    {
        let j = skip_ws_exec(s, cur);
        if j < s.len() && s[j] == 44 {
            let k = skip_ws_exec(s, j + 1);
            match parse_expr(s, k) {
                Some(e) => {
                    if !(k < e.to && e.to <= s.len()) {
                        return None;
                    }
                    cur = e.to;
                    proof {
                        lemma_pairs_push(acc@, e);
                    }
                    acc.push(e);
                },
                None => {
                    return close_exec(s, j, acc);
                },
            }
        } else {
            return close_exec(s, j, acc);
        }
    }
}


fn parse_top(s: &[u8]) -> (r: Result<Vec<Pair>, usize>)
    ensures
        match r {
            Ok(v) => p_top(s@, 0, Seq::empty()) == Ok::<Seq<SpecPair>, int>(pairs_view(v@)),
            Err(j) => p_top(s@, 0, Seq::empty()) == Err::<Seq<SpecPair>, int>(j as int),
        },
{
    let mut cur: usize = 0;
    let mut acc: Vec<Pair> = Vec::new();
    assert(pairs_view(acc@) =~= Seq::<SpecPair>::empty());
    loop
        invariant
            cur <= s.len(),
            p_top(s@, cur as int, pairs_view(acc@)) == p_top(s@, 0, Seq::empty()),
        decreases s.len() - cur,
    {
        let j = skip_ws_exec(s, cur);
        match parse_expr(s, j) {
            Some(e) => {
                if !(j < e.to && e.to <= s.len()) {
                    return Err(j);
                }
                cur = e.to;
                proof {
                    lemma_pairs_push(acc@, e);
                }
                acc.push(e);
            },
            None => {
                if j == s.len() {
                    return Ok(acc);
                } else {
                    return Err(j);
                }
            },
        }
    }
}

/// What parsing `s` by a rule gives: a tree that starts at the beginning of
/// `s` (a whole source file for `mexpr`), or the position where it fails.
pub open spec fn p_rule(rule: Rule, s: Seq<u8>) -> Result<SpecPair, int> {
    let found = match rule {
        Rule::m => p_m(s, 0),
        Rule::list => p_list(s, 0),
        Rule::name => p_name(s, 0),
        Rule::number => p_number(s, 0),
        Rule::decimal => p_decimal(s, 0),
        Rule::hexdecimal => p_hexdecimal(s, 0),
        Rule::string => p_string(s, 0),
        Rule::inner => Some(leaf(Rule::inner, 0, inner_end(s, 0))),
        Rule::EOI => if s.len() == 0 {
            Some(leaf(Rule::EOI, 0, 0))
        } else {
            None
        },
        Rule::mexpr => None,
    };
    if rule == Rule::mexpr {
        p_mexpr(s)
    } else {
        match found {
            Some(p) => Ok(p),
            None => Err(0),
        }
    }
}

/// The parser of m-expression source text.
pub struct MexprParser;

impl MexprParser {
    /// Parses `input` by `rule`; see [`p_rule`].
    pub fn parse(rule: Rule, input: &[u8]) -> (r: Result<Pair, ParseError>)
        ensures
            match r {
                Ok(p) => p_rule(rule, input@) == Ok::<SpecPair, int>(p@),
                Err(e) => p_rule(rule, input@) == Err::<SpecPair, int>(e.pos as int),
            },
    {
        let s = input;
        let found = match rule {
            Rule::mexpr => {
                return match parse_top(s) {
                    Ok(items) => {
                        let ghost it = items@;
                        let mut inner = items;
                        inner.push(leaf_pair(Rule::EOI, s.len(), s.len()));
                        let r = Pair { rule: Rule::mexpr, from: 0, to: s.len(), inner };
                        proof {
                            lemma_pair_inner(&r);
                            lemma_pairs_push(it, inner@.last());
                        }
                        Ok(r)
                    },
                    Err(j) => Err(ParseError { pos: j }),
                };
            },
            Rule::m => parse_m(s, 0),
            Rule::list => parse_list(s, 0),
            Rule::name => parse_name(s, 0),
            Rule::number => parse_number(s, 0),
            Rule::decimal => parse_decimal(s, 0),
            Rule::hexdecimal => parse_hexdecimal(s, 0),
            Rule::string => parse_string(s, 0),
            Rule::inner => Some(leaf_pair(Rule::inner, 0, inner_end_exec(s, 0))),
            Rule::EOI => if s.len() == 0 {
                Some(leaf_pair(Rule::EOI, 0, 0))
            } else {
                None
            },
        };
        match found {
            Some(p) => Ok(p),
            None => Err(ParseError { pos: 0 }),
        }
    }

    /// Parses a whole source file.
    pub fn parse_file(input: &[u8]) -> (r: Result<Pair, ParseError>)
        ensures
            match r {
                Ok(p) => p_mexpr(input@) == Ok::<SpecPair, int>(p@),
                Err(e) => p_mexpr(input@) == Err::<SpecPair, int>(e.pos as int),
            },
    {
        Self::parse(Rule::mexpr, input)
    }
}


/// A tree of the grammar: it spans `from..to` within a source of length `n`,
/// and is an `m` whose first child is a name, a list, a name, a number or a
/// string, all of whose children are such trees too.
pub open spec fn grammar_tree(p: SpecPair, n: int) -> bool
    decreases p,
{
    &&& 0 <= p.from <= p.to <= n
    &&& match p.rule {
        Rule::m => {
            &&& p.inner.len() >= 1
            &&& p.inner[0].rule == Rule::name
            &&& forall|k: int| 0 <= k < p.inner.len() ==> grammar_tree(#[trigger] p.inner[k], n)
        },
        Rule::list => forall|k: int| 0 <= k < p.inner.len() ==> grammar_tree(#[trigger] p.inner[k], n),
        Rule::name | Rule::decimal | Rule::hexdecimal | Rule::string => true,
        _ => false,
    }
}

proof fn lemma_run_end(s: Seq<u8>, i: int, p: spec_fn(u8) -> bool)
    requires
        0 <= i <= s.len(),
    ensures
        i <= run_end(s, i, p) <= s.len(),
    decreases s.len() - i,
{
    if i < s.len() && p(s[i]) {
        lemma_run_end(s, i + 1, p);
    }
}

proof fn lemma_skip_ws(s: Seq<u8>, i: int)
    requires
        0 <= i <= s.len(),
    ensures
        i <= skip_ws(s, i) <= s.len(),
    decreases s.len() - i,
{
    if i < s.len() && is_ws(s[i]) {
        lemma_skip_ws(s, i + 1);
    }
}

proof fn lemma_inner_end(s: Seq<u8>, i: int)
    requires
        0 <= i <= s.len(),
    ensures
        i <= inner_end(s, i) <= s.len(),
    decreases s.len() - i,
{
    if i < s.len() && s[i] != 34 {
        if s[i] == 92 {
            if i + 1 < s.len() {
                lemma_inner_end(s, i + 2);
            }
        } else {
            lemma_inner_end(s, i + 1);
        }
    }
}

proof fn lemma_leaves(s: Seq<u8>, i: int)
    requires
        0 <= i <= s.len(),
    ensures
        p_name(s, i) matches Some(e) ==> e.from == i && i < e.to && grammar_tree(e, s.len() as int),
        p_number(s, i) matches Some(e) ==> e.from == i && i < e.to && grammar_tree(e, s.len() as int),
        p_string(s, i) matches Some(e) ==> e.from == i && i < e.to && grammar_tree(e, s.len() as int),
{
    if i < s.len() {
        lemma_run_end(s, i + 1, name_char_fn());
        lemma_run_end(s, i + 1, digit_fn());
        lemma_inner_end(s, i + 1);
        if i + 3 <= s.len() {
            lemma_run_end(s, i + 3, hex_digit_fn());
        }
    }
}

proof fn lemma_m_tree(s: Seq<u8>, i: int)
    requires
        0 <= i <= s.len(),
    ensures
        p_m(s, i) matches Some(e) ==> e.from == i && i < e.to && grammar_tree(e, s.len() as int),
    decreases s.len() - i, 0int,
{
    lemma_leaves(s, i);
    if let Some(n) = p_name(s, i) {
        let j = skip_ws(s, n.to);
        if i < j && j < s.len() && s[j] == 91 {
            lemma_items_tree(s, j + 1);
            if let Some((items, k)) = p_items(s, j + 1) {
                let e = p_m(s, i).unwrap();
                assert(e.inner == seq![n] + items);
                assert forall|x: int| 0 <= x < e.inner.len() implies grammar_tree(#[trigger] e.inner[x], s.len() as int) by {
                    if x > 0 {
                        assert(e.inner[x] == items[x - 1]);
                    }
                }
            }
        }
    }
}

proof fn lemma_list_tree(s: Seq<u8>, i: int)
    requires
        0 <= i <= s.len(),
    ensures
        p_list(s, i) matches Some(e) ==> e.from == i && i < e.to && grammar_tree(e, s.len() as int),
    decreases s.len() - i, 0int,
{
    if 0 <= i < s.len() && s[i] == 91 {
        lemma_items_tree(s, i + 1);
    }
}

proof fn lemma_nonm_tree(s: Seq<u8>, i: int)
    requires
        0 <= i <= s.len(),
    ensures
        p_nonm(s, i) matches Some(e) ==> e.from == i && i < e.to && grammar_tree(e, s.len() as int),
    decreases s.len() - i, 1int,
{
    lemma_leaves(s, i);
    lemma_list_tree(s, i);
}

/// Every expression that the grammar reads at `i` starts there, is not empty,
/// and is a tree of the grammar.
pub proof fn lemma_expr_tree(s: Seq<u8>, i: int)
    requires
        0 <= i <= s.len(),
    ensures
        p_expr(s, i) matches Some(e) ==> e.from == i && i < e.to && grammar_tree(e, s.len() as int),
    decreases s.len() - i, 2int,
{
    lemma_m_tree(s, i);
    lemma_nonm_tree(s, i);
}

proof fn lemma_items_tree(s: Seq<u8>, i: int)
    requires
        0 <= i <= s.len(),
    ensures
        p_items(s, i) matches Some((items, k)) ==> i < k <= s.len() && forall|x: int|
            0 <= x < items.len() ==> grammar_tree(#[trigger] items[x], s.len() as int),
    decreases s.len() - i, 3int,
{
    lemma_skip_ws(s, i);
    let j = skip_ws(s, i);
    lemma_expr_tree(s, j);
    if let Some(e) = p_expr(s, j) {
        if j < e.to <= s.len() {
            lemma_more_tree(s, e.to, seq![e]);
        }
    }
}

proof fn lemma_more_tree(s: Seq<u8>, i: int, acc: Seq<SpecPair>)
    requires
        0 <= i <= s.len(),
        forall|x: int| 0 <= x < acc.len() ==> grammar_tree(#[trigger] acc[x], s.len() as int),
    ensures
        p_more(s, i, acc) matches Some((items, k)) ==> i <= k <= s.len() && forall|x: int|
            0 <= x < items.len() ==> grammar_tree(#[trigger] items[x], s.len() as int),
    decreases s.len() - i, 4int,
{
    lemma_skip_ws(s, i);
    let j = skip_ws(s, i);
    if j < s.len() && s[j] == 44 {
        lemma_skip_ws(s, j + 1);
        let k = skip_ws(s, j + 1);
        lemma_expr_tree(s, k);
        if let Some(e) = p_expr(s, k) {
            if k < e.to <= s.len() {
                let acc2 = acc.push(e);
                assert forall|x: int| 0 <= x < acc2.len() implies grammar_tree(#[trigger] acc2[x], s.len() as int) by {
                    if x < acc.len() {
                        assert(acc2[x] == acc[x]);
                    }
                }
                lemma_more_tree(s, e.to, acc2);
            }
        }
    }
}

proof fn lemma_top_tree(s: Seq<u8>, i: int, acc: Seq<SpecPair>)
    requires
        0 <= i <= s.len(),
        forall|x: int| 0 <= x < acc.len() ==> grammar_tree(#[trigger] acc[x], s.len() as int),
    ensures
        p_top(s, i, acc) matches Ok(items) ==> forall|x: int|
            0 <= x < items.len() ==> grammar_tree(#[trigger] items[x], s.len() as int),
    decreases s.len() - i,
{
    lemma_skip_ws(s, i);
    let j = skip_ws(s, i);
    lemma_expr_tree(s, j);
    if let Some(e) = p_expr(s, j) {
        if j < e.to <= s.len() {
            let acc2 = acc.push(e);
            assert forall|x: int| 0 <= x < acc2.len() implies grammar_tree(#[trigger] acc2[x], s.len() as int) by {
                if x < acc.len() {
                    assert(acc2[x] == acc[x]);
                }
            }
            lemma_top_tree(s, e.to, acc2);
        }
    }
}

/// The tree that the grammar gives for a whole source file spans it, and each
/// of its children is the end of input or a tree of the grammar.
pub proof fn lemma_mexpr_tree(s: Seq<u8>)
    ensures
        p_mexpr(s) matches Ok(p) ==> {
            &&& p.rule == Rule::mexpr
            &&& p.from == 0
            &&& p.to == s.len()
            &&& forall|k: int| 0 <= k < p.inner.len() ==> (#[trigger] p.inner[k]).rule == Rule::EOI
                || grammar_tree(p.inner[k], s.len() as int)
        },
{
    lemma_top_tree(s, 0, Seq::empty());
    if let Ok(p) = p_mexpr(s) {
        let items = match p_top(s, 0, Seq::empty()) {
            Ok(items) => items,
            Err(_) => Seq::empty(),
        };
        assert forall|k: int| 0 <= k < p.inner.len() implies (#[trigger] p.inner[k]).rule == Rule::EOI
            || grammar_tree(p.inner[k], s.len() as int) by {
            if k < items.len() {
                assert(p.inner[k] == items[k]);
            }
        }
    }
}

} // verus!

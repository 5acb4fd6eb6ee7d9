//! Orders: the three-way comparison of values and the lexicographic orders on sequences.

use vstd::prelude::*;

verus! {

/// The outcome of a three-way comparison.
#[derive(PartialEq, Eq, Structural, Clone, Copy, Debug)]
pub enum Order {
    Less,
    Equal,
    Greater,
}

/// The opposite outcome: what comparing the other way round gives.
pub open spec fn flip(o: Order) -> Order {
    match o {
        Order::Less => Order::Greater,
        Order::Equal => Order::Equal,
        Order::Greater => Order::Less,
    }
}

/// `o`, unless it is `Equal`, in which case `p`.
pub open spec fn then(o: Order, p: Order) -> Order {
    if o == Order::Equal { p } else { o }
}

/// The order of two integers.
pub open spec fn int_order(x: int, y: int) -> Order {
    if x < y {
        Order::Less
    } else if x == y {
        Order::Equal
    } else {
        Order::Greater
    }
}

/// The order of two bytes.
pub open spec fn byte_order(x: u8, y: u8) -> Order {
    int_order(x as int, y as int)
}

/// Lexicographic order: the first differing element decides, and a proper prefix comes first.
pub open spec fn lex_order<T>(a: Seq<T>, b: Seq<T>, f: spec_fn(T, T) -> Order) -> Order
    decreases a.len(),
{
    if a.len() == 0 {
        if b.len() == 0 { Order::Equal } else { Order::Less }
    } else if b.len() == 0 {
        Order::Greater
    } else if f(a[0], b[0]) != Order::Equal {
        f(a[0], b[0])
    } else {
        lex_order(a.drop_first(), b.drop_first(), f)
    }
}

/// The lexicographic order of byte strings (the order of `str`).
pub open spec fn bytes_order(a: Seq<u8>, b: Seq<u8>) -> Order {
    lex_order(a, b, byte_fn())
}

pub open spec fn byte_fn() -> spec_fn(u8, u8) -> Order {
    |x: u8, y: u8| byte_order(x, y)
}

/// `f` is a total order whose `Equal` is equality.
pub open spec fn total_order<T>(f: spec_fn(T, T) -> Order) -> bool {
    &&& forall|x: T, y: T| #[trigger] f(x, y) == Order::Equal <==> x == y
    &&& forall|x: T, y: T| #[trigger] f(x, y) == flip(f(y, x))
    &&& forall|x: T, y: T, z: T|
        #[trigger] f(x, y) == Order::Less && #[trigger] f(y, z) == Order::Less ==> f(x, z)
            == Order::Less
}

pub proof fn lemma_byte_total()
    ensures
        total_order(byte_fn()),
{
}

/// The lexicographic order of a total order is a total order.
pub proof fn lemma_lex_total<T>(f: spec_fn(T, T) -> Order)
    requires
        total_order(f),
    ensures
        total_order(|a: Seq<T>, b: Seq<T>| lex_order(a, b, f)),
{
    let g = |a: Seq<T>, b: Seq<T>| lex_order(a, b, f);
    assert forall|a: Seq<T>, b: Seq<T>| #[trigger] g(a, b) == Order::Equal <==> a == b by {
        lemma_lex_equal(a, b, f);
    }
    assert forall|a: Seq<T>, b: Seq<T>| #[trigger] g(a, b) == flip(g(b, a)) by {
        lemma_lex_flip(a, b, f);
    }
    assert forall|a: Seq<T>, b: Seq<T>, c: Seq<T>|
        #[trigger] g(a, b) == Order::Less && #[trigger] g(b, c) == Order::Less implies g(a, c)
            == Order::Less by {
        lemma_lex_trans(a, b, c, f);
    }
}

pub proof fn lemma_lex_equal<T>(a: Seq<T>, b: Seq<T>, f: spec_fn(T, T) -> Order)
    requires
        total_order(f),
    ensures
        lex_order(a, b, f) == Order::Equal <==> a == b,
    decreases a.len(),
{
    if a.len() > 0 && b.len() > 0 {
        lemma_lex_equal(a.drop_first(), b.drop_first(), f);
        assert(a == seq![a[0]] + a.drop_first());
        assert(b == seq![b[0]] + b.drop_first());
        if a == b {
            assert(a[0] == b[0]);
            assert(a.drop_first() == b.drop_first());
        }
    } else if a.len() == 0 && b.len() == 0 {
        assert(a == b);
    }
}

pub proof fn lemma_lex_flip<T>(a: Seq<T>, b: Seq<T>, f: spec_fn(T, T) -> Order)
    requires
        total_order(f),
    ensures
        lex_order(a, b, f) == flip(lex_order(b, a, f)),
    decreases a.len(),
{
    if a.len() > 0 && b.len() > 0 {
        assert(f(a[0], b[0]) == flip(f(b[0], a[0])));
        lemma_lex_flip(a.drop_first(), b.drop_first(), f);
    }
}

pub proof fn lemma_lex_trans<T>(a: Seq<T>, b: Seq<T>, c: Seq<T>, f: spec_fn(T, T) -> Order)
    requires
        total_order(f),
        lex_order(a, b, f) == Order::Less,
        lex_order(b, c, f) == Order::Less,
    ensures
        lex_order(a, c, f) == Order::Less,
    decreases a.len(),
{
    if a.len() > 0 && b.len() > 0 && c.len() > 0 {
        let (x, y, z) = (a[0], b[0], c[0]);
        if f(x, y) == Order::Equal && f(y, z) == Order::Equal {
            lemma_lex_trans(a.drop_first(), b.drop_first(), c.drop_first(), f);
        } else if f(x, y) == Order::Equal {
            assert(x == y);
        } else if f(y, z) == Order::Equal {
            assert(y == z);
        } else {
            assert(f(x, z) == Order::Less);
        }
    }
}

pub proof fn lemma_lex_unfold<T>(a: Seq<T>, b: Seq<T>, f: spec_fn(T, T) -> Order, i: int)
    requires
        0 <= i < a.len(),
        i < b.len(),
    ensures
        lex_order(a.skip(i), b.skip(i), f) == if f(a[i], b[i]) != Order::Equal {
            f(a[i], b[i])
        } else {
            lex_order(a.skip(i + 1), b.skip(i + 1), f)
        },
{
    assert(a.skip(i).drop_first() == a.skip(i + 1));
    assert(b.skip(i).drop_first() == b.skip(i + 1));
}

} // verus!

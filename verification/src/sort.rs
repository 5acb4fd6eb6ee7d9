//! Stable sorting by path, and searching sorted lists of paths.

use vstd::prelude::*;
use crate::order::{Order, flip};
use crate::path::{RzPath, SpecPath, path_order, path_fn, compare_paths, lemma_path_total};
use crate::order::total_order;

verus! {

/// Values that are ordered by a path.
pub trait PathKeyed {
    /// The path by which a value is ordered.
    spec fn key(&self) -> SpecPath;

    /// The path by which a value is ordered.
    fn key_path(&self) -> (r: &RzPath)
        ensures
            r@ == self.key();
}

impl PathKeyed for RzPath {
    open spec fn key(&self) -> SpecPath {
        self@
    }

    fn key_path(&self) -> (r: &RzPath) {
        self
    }
}

/// `x` placed into `s` after every element whose key is not greater than its own.
pub open spec fn insert_with<T>(s: Seq<T>, x: T, key: spec_fn(T) -> SpecPath) -> Seq<T>
    decreases s.len(),
{
    if s.len() == 0 {
        seq![x]
    } else if path_order(key(s.last()), key(x)) == Order::Greater {
        insert_with(s.drop_last(), x, key).push(s.last())
    } else {
        s.push(x)
    }
}

/// The stable sort of `s` by key: elements with equal keys keep their order.
pub open spec fn sort_with<T>(s: Seq<T>, key: spec_fn(T) -> SpecPath) -> Seq<T>
    decreases s.len(),
{
    if s.len() == 0 {
        s
    } else {
        insert_with(sort_with(s.drop_last(), key), s.last(), key)
    }
}

pub open spec fn key_fn<T: PathKeyed>() -> spec_fn(T) -> SpecPath {
    |x: T| x.key()
}

/// `x` placed into `s` after every element whose path is not greater than its own.
pub open spec fn insert_sorted<T: PathKeyed>(s: Seq<T>, x: T) -> Seq<T> {
    insert_with(s, x, key_fn())
}

/// The stable sort of `s` by path: elements with equal paths keep their order.
pub open spec fn sort_by_path<T: PathKeyed>(s: Seq<T>) -> Seq<T> {
    sort_with(s, key_fn())
}

/// Sorting commutes with a map that keeps keys.
pub proof fn lemma_sort_map<A, B>(s: Seq<A>, f: spec_fn(A) -> B, ka: spec_fn(A) -> SpecPath, kb: spec_fn(B) -> SpecPath)
    requires
        forall|x: A| #[trigger] kb(f(x)) == ka(x),
    ensures
        sort_with(s.map_values(f), kb) == sort_with(s, ka).map_values(f),
    decreases s.len(),
{
    if s.len() > 0 {
        lemma_sort_map(s.drop_last(), f, ka, kb);
        assert(s.map_values(f).drop_last() =~= s.drop_last().map_values(f));
        lemma_insert_map(sort_with(s.drop_last(), ka), s.last(), f, ka, kb);
    } else {
        assert(s.map_values(f) =~= Seq::<B>::empty());
        assert(sort_with(s, ka).map_values(f) =~= Seq::<B>::empty());
    }
}

proof fn lemma_insert_map<A, B>(s: Seq<A>, x: A, f: spec_fn(A) -> B, ka: spec_fn(A) -> SpecPath, kb: spec_fn(B) -> SpecPath)
    requires
        forall|x: A| #[trigger] kb(f(x)) == ka(x),
    ensures
        insert_with(s.map_values(f), f(x), kb) == insert_with(s, x, ka).map_values(f),
    decreases s.len(),
{
    if s.len() == 0 {
        assert(insert_with(s, x, ka).map_values(f) =~= seq![f(x)]);
    } else {
        assert(kb(f(s.last())) == ka(s.last()));
        assert(kb(f(x)) == ka(x));
        assert(s.map_values(f).drop_last() =~= s.drop_last().map_values(f));
        assert(s.map_values(f).last() == f(s.last()));
        if path_order(ka(s.last()), ka(x)) == Order::Greater {
            lemma_insert_map(s.drop_last(), x, f, ka, kb);
            assert(insert_with(s, x, ka).map_values(f) =~= insert_with(s.drop_last(), x, ka).map_values(f).push(f(s.last())));
        } else {
            assert(insert_with(s, x, ka).map_values(f) =~= s.map_values(f).push(f(x)));
        }
    }
}

/// The paths of `s` never decrease.
pub open spec fn sorted_by_path<T: PathKeyed>(s: Seq<T>) -> bool {
    forall|i: int, j: int| 0 <= i < j < s.len() ==> path_order(s[i].key(), s[j].key()) != Order::Greater
}

proof fn lemma_insert_at<T: PathKeyed>(s: Seq<T>, x: T, j: int)
    requires
        0 <= j <= s.len(),
        forall|k: int| j <= k < s.len() ==> path_order(#[trigger] s[k].key(), x.key()) == Order::Greater,
        j > 0 ==> path_order(s[j - 1].key(), x.key()) != Order::Greater,
    ensures
        insert_sorted(s, x) == s.take(j).push(x) + s.skip(j),
    decreases s.len(),
{
    if s.len() == j {
        assert(s.take(j) == s);
        assert(s.skip(j) =~= Seq::<T>::empty());
        if s.len() == 0 {
            assert(s.take(j).push(x) =~= seq![x]);
        }
    } else {
        let t = s.drop_last();
        assert(path_order(s[s.len() - 1].key(), x.key()) == Order::Greater);
        lemma_insert_at(t, x, j);
        assert(t.take(j) == s.take(j));
        assert(s.take(j).push(x) + s.skip(j) =~= (t.take(j).push(x) + t.skip(j)).push(s.last()));
    }
}

/// Sorts by path, keeping the order of elements with equal paths.
pub fn sort_by_path_exec<T: PathKeyed>(v: Vec<T>) -> (r: Vec<T>)
    ensures
        r@ == sort_by_path(v@),
{
    let ghost orig = v@;
    let mut src = v;
    let mut rest: Vec<T> = Vec::new();
    while src.len() > 0
        invariant
            src@ + rest@ == orig,
        decreases src.len(),
    {
        let x = src.pop().unwrap();
        let ghost old_rest = rest@;
        rest.insert(0, x);
        assert(rest@ =~= seq![x] + old_rest);
    }
    assert(rest@ =~= orig);
    let mut out: Vec<T> = Vec::new();
    let mut i: usize = 0;
    let n = rest.len();
    let mut items = rest;
    assert(orig.take(0) =~= Seq::<T>::empty());
    let ghost empty: Seq<T> = Seq::empty();
    assert(sort_by_path(empty) == empty);
    while items.len() > 0
        invariant
            i + items@.len() == n,
            n == orig.len(),
            items@ == orig.skip(i as int),
            out@ == sort_by_path(orig.take(i as int)),
        decreases items.len(),
    {
        let x = items.remove(0);
        assert(x == orig[i as int]);
        let mut j = out.len();
        while j > 0 && compare_paths(out[j - 1].key_path(), x.key_path()) == Order::Greater
            invariant
                j <= out.len(),
                forall|k: int| j <= k < out@.len() ==> path_order(#[trigger] out@[k].key(), x.key()) == Order::Greater,
            decreases j,
        {
            j -= 1;
        }
        proof {
            lemma_insert_at(out@, x, j as int);
            assert(orig.take(i + 1).drop_last() =~= orig.take(i as int));
            assert(orig.take(i + 1).last() == x);
        }
        let ghost old_out = out@;
        out.insert(j, x);
        assert(out@ =~= old_out.take(j as int).push(x) + old_out.skip(j as int));
        assert(items@ =~= orig.skip(i + 1));
        i += 1;
    }
    assert(orig.take(i as int) =~= orig);
    out
}


proof fn lemma_le_trans(a: SpecPath, b: SpecPath, c: SpecPath)
    requires
        path_order(a, b) != Order::Greater,
        path_order(b, c) != Order::Greater,
    ensures
        path_order(a, c) != Order::Greater,
{
    lemma_path_total();
    let f = path_fn();
    assert(f(a, b) == path_order(a, b));
    assert(f(b, c) == path_order(b, c));
    assert(f(a, c) == path_order(a, c));
    assert(f(a, c) == flip(f(c, a)));
    if path_order(a, b) == Order::Equal {
        assert(a == b);
    } else if path_order(b, c) == Order::Equal {
        assert(b == c);
    } else {
        assert(f(a, b) == Order::Less && f(b, c) == Order::Less);
    }
}

proof fn lemma_greater_flip(a: SpecPath, b: SpecPath)
    requires
        path_order(a, b) == Order::Greater,
    ensures
        path_order(b, a) == Order::Less,
{
    lemma_path_total();
    let f = path_fn();
    assert(f(a, b) == flip(f(b, a)));
}

/// The keys of `s` never decrease.
pub open spec fn sorted_with<T>(s: Seq<T>, key: spec_fn(T) -> SpecPath) -> bool {
    forall|i: int, j: int| 0 <= i < j < s.len() ==> path_order(key(s[i]), key(s[j])) != Order::Greater
}

proof fn lemma_insert_with<T>(s: Seq<T>, x: T, key: spec_fn(T) -> SpecPath)
    requires
        sorted_with(s, key),
    ensures
        sorted_with(insert_with(s, x, key), key),
        insert_with(s, x, key).len() == s.len() + 1,
        forall|y: T| #[trigger] insert_with(s, x, key).contains(y) <==> (s.contains(y) || y == x),
    decreases s.len(),
{
    if s.len() == 0 {
        assert(seq![x][0] == x);
    } else if path_order(key(s.last()), key(x)) == Order::Greater {
        let t = s.drop_last();
        let l = s.last();
        assert(sorted_with(t, key));
        lemma_insert_with(t, x, key);
        let r = insert_with(t, x, key);
        lemma_greater_flip(key(l), key(x));
        assert forall|i: int, j: int| 0 <= i < j < r.push(l).len() implies path_order(
            key(r.push(l)[i]),
            key(r.push(l)[j]),
        ) != Order::Greater by {
            if j == r.len() {
                let y = r[i];
                assert(r.contains(y));
                if y != x {
                    assert(t.contains(y));
                    let k = choose|k: int| 0 <= k < t.len() && t[k] == y;
                    assert(s[k] == y);
                }
            }
        }
        assert forall|y: T| r.push(l).contains(y) <==> (s.contains(y) || y == x) by {
            if r.push(l).contains(y) {
                let k = choose|k: int| 0 <= k < r.push(l).len() && r.push(l)[k] == y;
                if k < r.len() {
                    assert(r.contains(y));
                    if t.contains(y) {
                        let m = choose|m: int| 0 <= m < t.len() && t[m] == y;
                        assert(s[m] == y);
                    }
                }
            }
            if s.contains(y) {
                let k = choose|k: int| 0 <= k < s.len() && s[k] == y;
                if k < t.len() {
                    assert(t[k] == y);
                    assert(t.contains(y));
                    assert(insert_with(t, x, key).contains(y));
                    let m = choose|m: int| 0 <= m < r.len() && r[m] == y;
                    assert(r.push(l)[m] == y);
                } else {
                    assert(r.push(l)[r.len() as int] == y);
                }
            }
            if y == x {
                assert(insert_with(t, x, key).contains(x));
                let m = choose|m: int| 0 <= m < r.len() && r[m] == x;
                assert(r.push(l)[m] == x);
            }
        }
    } else {
        let r = s.push(x);
        assert forall|i: int, j: int| 0 <= i < j < r.len() implies path_order(key(r[i]), key(r[j]))
            != Order::Greater by {
            if j == s.len() && i < s.len() - 1 {
                lemma_le_trans(key(s[i]), key(s[s.len() - 1]), key(x));
            }
        }
        assert forall|y: T| r.contains(y) <==> (s.contains(y) || y == x) by {
            if r.contains(y) {
                let k = choose|k: int| 0 <= k < r.len() && r[k] == y;
                if k < s.len() {
                    assert(s[k] == y);
                }
            }
            if s.contains(y) {
                let k = choose|k: int| 0 <= k < s.len() && s[k] == y;
                assert(r[k] == y);
            }
            if y == x {
                assert(r[s.len() as int] == x);
            }
        }
    }
}

/// The stable sort by a key is sorted by it, and holds exactly the elements
/// of what it sorts, as many of them.
pub proof fn lemma_sort_with<T>(s: Seq<T>, key: spec_fn(T) -> SpecPath)
    ensures
        sorted_with(sort_with(s, key), key),
        sort_with(s, key).len() == s.len(),
        forall|y: T| #[trigger] sort_with(s, key).contains(y) <==> s.contains(y),
    decreases s.len(),
{
    if s.len() > 0 {
        let t = s.drop_last();
        lemma_sort_with(t, key);
        lemma_insert_with(sort_with(t, key), s.last(), key);
        assert forall|y: T| sort_with(s, key).contains(y) <==> s.contains(y) by {
            if t.contains(y) {
                let k = choose|k: int| 0 <= k < t.len() && t[k] == y;
                assert(s[k] == y);
            }
            if s.contains(y) {
                let k = choose|k: int| 0 <= k < s.len() && s[k] == y;
                if k < t.len() {
                    assert(t[k] == y);
                }
            }
        }
    }
}

/// The stable sort by path is sorted by path, and holds exactly the elements
/// of what it sorts, as many of them.
pub proof fn lemma_sort_by_path<T: PathKeyed>(s: Seq<T>)
    ensures
        sorted_by_path(sort_by_path(s)),
        sort_by_path(s).len() == s.len(),
        forall|y: T| #[trigger] sort_by_path(s).contains(y) <==> s.contains(y),
{
    lemma_sort_with(s, key_fn());
    assert forall|i: int, j: int| 0 <= i < j < sort_by_path(s).len() implies path_order(sort_by_path(s)[i].key(), sort_by_path(s)[j].key()) != Order::Greater by {
        assert(key_fn::<T>()(sort_by_path(s)[i]) == sort_by_path(s)[i].key());
        assert(key_fn::<T>()(sort_by_path(s)[j]) == sort_by_path(s)[j].key());
    }
}

} // verus!

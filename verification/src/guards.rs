//! Conditions that a caller tests before converting modules or resolving a
//! table: what [`crate::path::ExprConverter::convert`] and
//! [`crate::path::NameResolver::resolve`] need of their input.

use vstd::prelude::*;
use vstd::string::StringSliceAdditionalSpecFns;
use crate::expr::{Ranged, RawExpr, RawModule, SpecExpr, rexprs, lemma_expr_children};
use crate::order::Order;
use crate::path::{
    PathTable, SpecPath, SpecTable, body_ok, top_ok, modules_ok, compare_paths, path_order, path_fn,
    lemma_path_total, is_module, is_reserved, is_reserved_name, resolve_ok, resolvable, table_wf,
    names_sorted, rows_named, has_name_at, rows_resolve_ok, row_ctx, table_names,
};
use crate::text::is_word;

verus! {

fn body_ok_exec(body: &Ranged<RawExpr>) -> (r: bool)
    ensures
        r == body_ok(body@),
    decreases body, 0int,
{
    proof {
        lemma_expr_children(body.data);
    }
    match &body.data {
        RawExpr::Ty { .. } => false,
        RawExpr::Def { .. } => false,
        RawExpr::List(items) => items_ok_exec(items),
        _ => true,
    }
}

fn items_ok_exec(items: &Vec<Ranged<RawExpr>>) -> (r: bool)
    ensures
        r == forall|k: int|
            0 <= k < items@.len() ==> match (#[trigger] rexprs(items@)[k]).data {
                SpecExpr::Ty { data, .. } => body_ok(*data),
                SpecExpr::Def { data, .. } => body_ok(*data),
                _ => true,
            },
    decreases items, 1int,
{
    let ghost v = rexprs(items@);
    let mut i: usize = 0;
    while i < items.len()
        invariant
            i <= items.len(),
            v == rexprs(items@),
            v.len() == items@.len(),
            forall|k: int|
                0 <= k < i ==> match (#[trigger] v[k]).data {
                    SpecExpr::Ty { data, .. } => body_ok(*data),
                    SpecExpr::Def { data, .. } => body_ok(*data),
                    _ => true,
                },
        decreases items.len() - i,
    {
        assert(v[i as int] == items@[i as int]@);
        let item = &items[i];
        proof {
            lemma_expr_children(item.data);
        }
        let ok = match &item.data {
            RawExpr::Ty { data, .. } => body_ok_exec(data),
            RawExpr::Def { data, .. } => body_ok_exec(data),
            _ => true,
        };
        if !ok {
            return false;
        }
        i += 1;
    }
    true
}

fn top_ok_exec(e: &Ranged<RawExpr>) -> (r: bool)
    ensures
        r == top_ok(e@),
{
    proof {
        lemma_expr_children(e.data);
    }
    match &e.data {
        RawExpr::Def { data, .. } => body_ok_exec(data),
        RawExpr::Ty { data, .. } => body_ok_exec(data),
        RawExpr::Apply { head, .. } => is_word(head.data.as_slice(), "ann") || is_word(head.data.as_slice(), "meta")
            || e.range.is_some(),
        _ => e.range.is_some(),
    }
}

/// Whether [`crate::path::ExprConverter::convert`] can walk the modules:
/// every top-level expression is a definition or a type whose body is not
/// itself one, an annotation, or has a location to report it at.
pub fn can_convert(mods: &[RawModule]) -> (r: bool)
    ensures
        r == modules_ok(Seq::new(mods@.len(), |i: int| mods@[i]@)),
{
    let ghost ms = Seq::new(mods@.len(), |i: int| mods@[i]@);
    let mut i: usize = 0;
    while i < mods.len()
        invariant
            i <= mods.len(),
            ms == Seq::new(mods@.len(), |i: int| mods@[i]@),
            forall|a: int, k: int| 0 <= a < i && 0 <= k < ms[a].data.data.len() ==> top_ok(#[trigger] ms[a].data.data[k]),
        decreases mods.len() - i,
    {
        let m = &mods[i];
        let mut k: usize = 0;
        while k < m.data.data.len()
            invariant
                i < mods.len(),
                k <= m.data.data.len(),
                *m == mods@[i as int],
                ms == Seq::new(mods@.len(), |i: int| mods@[i]@),
                ms[i as int].data.data == rexprs(m.data.data@),
                forall|a: int, k: int| 0 <= a < i && 0 <= k < ms[a].data.data.len() ==> top_ok(#[trigger] ms[a].data.data[k]),
                forall|j: int| 0 <= j < k ==> top_ok(#[trigger] ms[i as int].data.data[j]),
            decreases m.data.data.len() - k,
        {
            assert(ms[i as int].data.data[k as int] == m.data.data@[k as int]@);
            if !top_ok_exec(&m.data.data[k]) {
                return false;
            }
            k += 1;
        }
        i += 1;
    }
    true
}

/// Every name in an expression that is looked up has a location.
pub open spec fn names_located(e: Ranged<SpecExpr>) -> bool
    decreases e,
{
    match e.data {
        SpecExpr::Apply { body, .. } => forall|k: int| 0 <= k < body.len() ==> names_located(#[trigger] body[k]),
        SpecExpr::List(body) => forall|k: int| 0 <= k < body.len() ==> names_located(#[trigger] body[k]),
        SpecExpr::Name(n) => !is_reserved(n) ==> e.range is Some,
        _ => true,
    }
}

/// Resolving an expression whose names have locations never needs one it lacks.
pub proof fn lemma_located_resolves(e: Ranged<SpecExpr>, ctx: SpecPath, names: Set<SpecPath>)
    requires
        names_located(e),
    ensures
        resolve_ok(e, ctx, names),
    decreases e,
{
    match e.data {
        SpecExpr::Apply { body, .. } => {
            assert forall|k: int| 0 <= k < body.len() implies resolve_ok(#[trigger] body[k], ctx, names) by {
                lemma_located_resolves(body[k], ctx, names);
            }
        },
        SpecExpr::List(body) => {
            assert forall|k: int| 0 <= k < body.len() implies resolve_ok(#[trigger] body[k], ctx, names) by {
                lemma_located_resolves(body[k], ctx, names);
            }
        },
        _ => {},
    }
}

proof fn lemma_list_located(e: Ranged<SpecExpr>, b: Seq<Ranged<SpecExpr>>)
    requires
        e.data == SpecExpr::List(b),
    ensures
        names_located(e) == forall|k: int| 0 <= k < b.len() ==> names_located(#[trigger] b[k]),
{
    if forall|k: int| 0 <= k < b.len() ==> names_located(#[trigger] b[k]) {
        assert(names_located(e));
    }
    if names_located(e) {
        assert forall|k: int| 0 <= k < b.len() implies names_located(#[trigger] b[k]) by {
            assert(e.data->List_0 == b);
        }
    }
}

fn names_located_exec(e: &Ranged<RawExpr>) -> (r: bool)
    ensures
        r == names_located(e@),
    decreases e, 0int,
{
    proof {
        lemma_expr_children(e.data);
    }
    let ghost ev = e@;
    match &e.data {
        RawExpr::Apply { body, .. } => {
            assert(ev.data matches SpecExpr::Apply { body: b, .. } && b == rexprs(body@));
            let r = list_located_exec(body);
            assert(r == names_located(ev));
            r
        },
        RawExpr::List(body) => {
            let ghost b = rexprs(body@);
            assert(ev.data == SpecExpr::List(b));
            let r = list_located_exec(body);
            assert(r == forall|k: int| 0 <= k < b.len() ==> names_located(#[trigger] b[k]));
            proof {
                lemma_list_located(ev, b);
            }
            r
        },
        RawExpr::Name(n) => {
            assert(ev.data == SpecExpr::Name(n@));
            let r = is_reserved_name(n.as_slice()) || e.range.is_some();
            assert(r == names_located(ev));
            r
        },
        _ => {
            assert(names_located(ev));
            true
        },
    }
}

fn list_located_exec(body: &Vec<Ranged<RawExpr>>) -> (r: bool)
    ensures
        r == forall|k: int| 0 <= k < body@.len() ==> names_located(#[trigger] rexprs(body@)[k]),
    decreases body, 1int,
{
    let ghost v = rexprs(body@);
    let mut i: usize = 0;
    while i < body.len()
        invariant
            i <= body.len(),
            v == rexprs(body@),
            v.len() == body@.len(),
            forall|k: int| 0 <= k < i ==> names_located(#[trigger] v[k]),
        decreases body.len() - i,
    {
        assert(v[i as int] == body@[i as int]@);
        if !names_located_exec(&body[i]) {
            return false;
        }
        i += 1;
    }
    true
}

/// The name rows `i - 1` and `i` are in order.
pub open spec fn pair_sorted(t: SpecTable<Ranged<SpecExpr>>, i: int) -> bool {
    path_order(t.names[i - 1].path, t.names[i].path) != Order::Greater
}

/// Name rows that are sorted pair by pair are sorted.
proof fn lemma_sorted_pairs(t: SpecTable<Ranged<SpecExpr>>, n: int)
    requires
        0 <= n <= t.names.len(),
        forall|i: int| 0 < i < n ==> #[trigger] pair_sorted(t, i),
    ensures
        forall|i: int, j: int| 0 <= i < j < n ==> path_order(t.names[i].path, t.names[j].path) != Order::Greater,
    decreases n,
{
    if n > 1 {
        lemma_sorted_pairs(t, n - 1);
        lemma_path_total();
        let f = path_fn();
        assert(pair_sorted(t, n - 1));
        assert forall|i: int, j: int| 0 <= i < j < n implies path_order(t.names[i].path, t.names[j].path) != Order::Greater by {
            if j == n - 1 && i < n - 2 {
                let (a, b, c) = (t.names[i].path, t.names[n - 2].path, t.names[n - 1].path);
                assert(f(a, b) == path_order(a, b));
                assert(f(b, c) == path_order(b, c));
                assert(f(a, c) == path_order(a, c));
                assert(f(a, b) != Order::Greater);
                assert(f(b, c) != Order::Greater);
                if f(a, b) == Order::Equal {
                    assert(a == b);
                } else if f(b, c) == Order::Equal {
                    assert(b == c);
                } else {
                    assert(f(a, b) == Order::Less && f(b, c) == Order::Less);
                    assert(f(a, c) == Order::Less);
                }
            }
        }
    }
}

/// Whether a table is well-formed (see [`table_wf`]).
pub fn table_wf_exec(t: &PathTable<Ranged<RawExpr>>) -> (r: bool)
    ensures
        r == table_wf(t@),
{
    let ghost tv = t@;
    let n = t.names.len();
    let mut i: usize = 0;
    while i < n
        invariant
            i <= n,
            n == t.names@.len(),
            tv == t@,
            tv.names.len() == n,
            forall|k: int| 0 < k < i ==> #[trigger] pair_sorted(tv, k),
            forall|k: int| 0 <= k < i ==> !is_module(#[trigger] tv.names[k].name.data),
        decreases n - i,
    {
        assert(tv.names[i as int] == t.names@[i as int]@);
        if i > 0 {
            assert(tv.names[i - 1] == t.names@[i - 1]@);
            if compare_paths(&t.names[i - 1].path, &t.names[i].path) == Order::Greater {
                assert(path_order(tv.names[i - 1].path, tv.names[i as int].path) == Order::Greater);
                assert(!names_sorted(tv));
                return false;
            }
            assert(pair_sorted(tv, i as int));
        }
        if t.names[i].name.data.data.len() == 0 {
            assert(is_module(tv.names[i as int].name.data));
            return false;
        }
        i += 1;
    }
    proof {
        lemma_sorted_pairs(tv, n as int);
    }
    assert(names_sorted(tv));
    let mut j: usize = 0;
    while j < t.rows.len()
        invariant
            j <= t.rows.len(),
            n == t.names@.len(),
            tv == t@,
            tv.names.len() == n,
            tv.rows.len() == t.rows@.len(),
            forall|k: int| 0 <= k < j ==> has_name_at(tv.names, (#[trigger] tv.rows[k]).path),
        decreases t.rows.len() - j,
    {
        assert(tv.rows[j as int] == t.rows@[j as int]@);
        let mut found = false;
        let mut k: usize = 0;
        while k < n
            invariant
                k <= n,
                j < t.rows.len(),
                n == t.names@.len(),
                tv == t@,
                tv.names.len() == n,
                tv.rows[j as int] == t.rows@[j as int]@,
                found ==> has_name_at(tv.names, tv.rows[j as int].path),
                !found ==> forall|m: int| 0 <= m < k ==> tv.names[m].path != tv.rows[j as int].path,
            decreases n - k,
        {
            assert(tv.names[k as int] == t.names@[k as int]@);
            if !found {
                proof {
                    lemma_path_total();
                    assert(path_fn()(tv.names[k as int].path, tv.rows[j as int].path) == path_order(tv.names[k as int].path, tv.rows[j as int].path));
                }
                if compare_paths(&t.names[k].path, &t.rows[j].path) == Order::Equal {
                    found = true;
                }
            }
            k += 1;
        }
        if !found {
            assert(!has_name_at(tv.names, tv.rows[j as int].path));
            return false;
        }
        j += 1;
    }
    true
}

/// Whether every row of a table has locations for the names it looks up.
pub open spec fn rows_located(t: SpecTable<Ranged<SpecExpr>>) -> bool {
    forall|i: int| 0 <= i < t.rows.len() ==> names_located(#[trigger] t.rows[i].ty)
}

/// Whether [`crate::path::NameResolver::resolve`] may be given the table: it is
/// well-formed and every name its rows look up has a location, so that
/// resolving it can report any error.
pub fn can_resolve(t: &PathTable<Ranged<RawExpr>>) -> (r: bool)
    ensures
        r == (table_wf(t@) && rows_located(t@)),
        r ==> resolvable(t@),
{
    if !table_wf_exec(t) {
        return false;
    }
    let ghost tv = t@;
    let mut i: usize = 0;
    while i < t.rows.len()
        invariant
            i <= t.rows.len(),
            tv == t@,
            tv.rows.len() == t.rows@.len(),
            forall|k: int| 0 <= k < i ==> names_located(#[trigger] tv.rows[k].ty),
        decreases t.rows.len() - i,
    {
        assert(tv.rows[i as int] == t.rows@[i as int]@);
        if !names_located_exec(&t.rows[i].ty) {
            assert(!names_located(tv.rows[i as int].ty));
            return false;
        }
        i += 1;
    }
    proof {
        assert forall|k: int| 0 <= k < tv.rows.len() implies resolve_ok((#[trigger] tv.rows[k]).ty, row_ctx(tv, k), table_names(tv)) by {
            lemma_located_resolves(tv.rows[k].ty, row_ctx(tv, k), table_names(tv));
        }
    }
    true
}

} // verus!

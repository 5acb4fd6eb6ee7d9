//! What reading, converting and resolving give as a whole.

use vstd::prelude::*;
use crate::expr::{Ranged, SpecExpr, read_expr, read_list, root_fold, queued_of};
use crate::grammar::SpecPair;
use crate::path::{
    SpecPath, SpecTable, SpecSegment, Walk, is_reserved, resolve_expr, resolve_list, resolve_rows, resolve_table, row_ctx,
    table_names, walk_data, walk_ty, walk_def, walk_list, walk_top, walk_modules, walk_join, walk_empty, push_seg,
    module_root, convert_of, row_key, resolvable, lemma_convert_wf,
};
use crate::expr::{SpecModule, LoaderState, located_list, loader_wf};
use crate::guards::{names_located, rows_located, lemma_located_resolves};
use crate::sort::sort_with;

verus! {

/// Every name left in an expression is built in: all the others were
/// replaced by the paths they denote.
pub open spec fn no_free_names(e: Ranged<SpecExpr>) -> bool
    decreases e,
{
    match e.data {
        SpecExpr::Apply { body, .. } => forall|k: int| 0 <= k < body.len() ==> no_free_names(#[trigger] body[k]),
        SpecExpr::List(body) => forall|k: int| 0 <= k < body.len() ==> no_free_names(#[trigger] body[k]),
        SpecExpr::Name(n) => is_reserved(n),
        _ => true,
    }
}

/// Resolving an expression without an error leaves no name to look up, and
/// keeps its location.
pub proof fn lemma_resolved_expr(e: Ranged<SpecExpr>, ctx: SpecPath, names: Set<SpecPath>)
    ensures
        resolve_expr(e, ctx, names).0.range == e.range,
        resolve_expr(e, ctx, names).1.len() == 0 ==> no_free_names(resolve_expr(e, ctx, names).0),
    decreases e, 0int,
{
    match e.data {
        SpecExpr::Apply { head, body } => {
            lemma_resolved_list(body, ctx, names, body.len() as int);
            let (b, errs) = resolve_list(body, ctx, names, body.len() as int);
            let r = resolve_expr(e, ctx, names).0;
            assert(r.data == (SpecExpr::Apply { head, body: b }));
            if errs.len() == 0 {
                assert forall|k: int| 0 <= k < b.len() implies no_free_names(#[trigger] b[k]) by {}
            }
        },
        SpecExpr::List(body) => {
            lemma_resolved_list(body, ctx, names, body.len() as int);
            let (b, errs) = resolve_list(body, ctx, names, body.len() as int);
            let r = resolve_expr(e, ctx, names).0;
            assert(r.data == SpecExpr::List(b));
            if errs.len() == 0 {
                assert forall|k: int| 0 <= k < b.len() implies no_free_names(#[trigger] b[k]) by {}
            }
        },
        _ => {},
    }
}

/// Resolving the first `k` expressions of a list gives `k` expressions; without
/// an error, none of them has a name left to look up.
pub proof fn lemma_resolved_list(body: Seq<Ranged<SpecExpr>>, ctx: SpecPath, names: Set<SpecPath>, k: int)
    requires
        0 <= k <= body.len(),
    ensures
        resolve_list(body, ctx, names, k).0.len() == k,
        resolve_list(body, ctx, names, k).1.len() == 0 ==> forall|j: int|
            0 <= j < k ==> no_free_names(#[trigger] resolve_list(body, ctx, names, k).0[j]),
    decreases body, k,
{
    if k > 0 {
        lemma_resolved_list(body, ctx, names, k - 1);
        lemma_resolved_expr(body[k - 1], ctx, names);
        let (b, errs) = resolve_list(body, ctx, names, k - 1);
        let (x, e) = resolve_expr(body[k - 1], ctx, names);
        assert(resolve_list(body, ctx, names, k) == (b.push(x), errs + e));
        if (errs + e).len() == 0 {
            assert(errs.len() == 0 && e.len() == 0);
            assert forall|j: int| 0 <= j < k implies no_free_names(#[trigger] b.push(x)[j]) by {
                if j < k - 1 {
                    assert(b.push(x)[j] == b[j]);
                }
            }
        }
    }
}

/// Resolving the first `k` rows of a table keeps their paths and locations;
/// without an error, no row has a name left to look up.
proof fn lemma_resolved_rows(t: SpecTable<Ranged<SpecExpr>>, k: int)
    requires
        0 <= k <= t.rows.len(),
    ensures
        resolve_rows(t, k).0.len() == k,
        forall|i: int| 0 <= i < k ==> (#[trigger] resolve_rows(t, k).0[i]).path == t.rows[i].path,
        forall|i: int| 0 <= i < k ==> (#[trigger] resolve_rows(t, k).0[i]).ty.range == t.rows[i].ty.range,
        resolve_rows(t, k).1.len() == 0 ==> forall|i: int| 0 <= i < k ==> no_free_names(#[trigger] resolve_rows(t, k).0[i].ty),
    decreases k,
{
    if k > 0 {
        lemma_resolved_rows(t, k - 1);
        lemma_resolved_expr(t.rows[k - 1].ty, row_ctx(t, k - 1), table_names(t));
        let (rows, errs) = resolve_rows(t, k - 1);
        let (ty, e) = resolve_expr(t.rows[k - 1].ty, row_ctx(t, k - 1), table_names(t));
        let last = crate::path::SpecTypeRow { path: t.rows[k - 1].path, ty };
        assert(resolve_rows(t, k) == (rows.push(last), errs + e));
        assert forall|i: int| 0 <= i < k implies (#[trigger] rows.push(last)[i]).path == t.rows[i].path
            && rows.push(last)[i].ty.range == t.rows[i].ty.range by {
            if i < k - 1 {
                assert(rows.push(last)[i] == rows[i]);
            }
        }
        if (errs + e).len() == 0 {
            assert(errs.len() == 0 && e.len() == 0);
            assert forall|i: int| 0 <= i < k implies no_free_names(#[trigger] rows.push(last)[i].ty) by {
                if i < k - 1 {
                    assert(rows.push(last)[i] == rows[i]);
                }
            }
        }
    }
}

/// Resolving a table changes only the expressions of its rows: the rows keep
/// their paths and locations, and the names and definitions stay. When it
/// succeeds, no row has a name left to look up: every name that is not built
/// in has become the path it denotes.
pub proof fn lemma_resolved_table(t: SpecTable<Ranged<SpecExpr>>)
    ensures
        resolve_table(t).0.names == t.names,
        resolve_table(t).0.defs == t.defs,
        resolve_table(t).0.rows.len() == t.rows.len(),
        forall|i: int| 0 <= i < t.rows.len() ==> (#[trigger] resolve_table(t).0.rows[i]).path == t.rows[i].path,
        forall|i: int| 0 <= i < t.rows.len() ==> (#[trigger] resolve_table(t).0.rows[i]).ty.range == t.rows[i].ty.range,
        resolve_table(t).1.len() == 0 ==> forall|i: int|
            0 <= i < t.rows.len() ==> no_free_names(#[trigger] resolve_table(t).0.rows[i].ty),
{
    lemma_resolved_rows(t, t.rows.len() as int);
}


/// An expression with a location at every node.
pub open spec fn located(e: Ranged<SpecExpr>) -> bool
    decreases e,
{
    &&& e.range is Some
    &&& match e.data {
        SpecExpr::Apply { body, .. } => forall|k: int| 0 <= k < body.len() ==> located(#[trigger] body[k]),
        SpecExpr::List(body) => forall|k: int| 0 <= k < body.len() ==> located(#[trigger] body[k]),
        SpecExpr::Ty { data, .. } => located(*data),
        SpecExpr::Def { data, .. } => located(*data),
        _ => true,
    }
}

/// Every expression read from source text has a location at every node.
pub proof fn lemma_read_located(src: Seq<u8>, file_id: usize, p: SpecPair)
    ensures
        read_expr(src, file_id, p) matches Ok(e) ==> located(e),
    decreases p, 0int,
{
    lemma_read_list_located(src, file_id, p.inner, 0);
    lemma_read_list_located(src, file_id, p.inner, 1);
    if p.inner.len() >= 3 {
        lemma_read_located(src, file_id, p.inner[2]);
    }
}

/// Every expression of a list read from source text has a location at every node.
pub proof fn lemma_read_list_located(src: Seq<u8>, file_id: usize, items: Seq<SpecPair>, k: int)
    ensures
        read_list(src, file_id, items, k) matches Ok(v) ==> forall|j: int| 0 <= j < v.len() ==> located(#[trigger] v[j]),
    decreases items, items.len() - k,
{
    if 0 <= k < items.len() {
        lemma_read_located(src, file_id, items[k]);
        lemma_read_list_located(src, file_id, items, k + 1);
        if let Ok(v) = read_list(src, file_id, items, k) {
            let x = read_expr(src, file_id, items[k])->Ok_0;
            let rest = read_list(src, file_id, items, k + 1)->Ok_0;
            assert(v == seq![x] + rest);
            assert forall|j: int| 0 <= j < v.len() implies located(#[trigger] v[j]) by {
                if j > 0 {
                    assert(v[j] == rest[j - 1]);
                }
            }
        }
    }
}


/// The expressions gathered from the top-level trees of a source file have
/// locations at every node.
pub proof fn lemma_root_fold_located(src: Seq<u8>, file_id: usize, items: Seq<SpecPair>)
    ensures
        forall|j: int| 0 <= j < root_fold(src, file_id, items).0.len() ==> located(#[trigger] root_fold(src, file_id, items).0[j]),
    decreases items.len(),
{
    if items.len() > 0 {
        let prev = items.drop_last();
        lemma_root_fold_located(src, file_id, prev);
        lemma_read_located(src, file_id, items.last());
        let c = root_fold(src, file_id, prev).0;
        let now = root_fold(src, file_id, items).0;
        assert forall|j: int| 0 <= j < now.len() implies located(#[trigger] now[j]) by {
            if j < c.len() {
                assert(now == c || (now.len() == c.len() + 1 && now.drop_last() == c));
                if now != c {
                    assert(now[j] == now.drop_last()[j]);
                }
            }
        }
    }
}

/// A module queued from a source file has a location, as has every node of
/// its expressions.
pub proof fn lemma_queued_located(src: Seq<u8>, file_id: usize, name: Seq<u8>, name_loc: Option<crate::expr::Location>)
    ensures
        queued_of(src, file_id, name, name_loc) matches Ok((q, _)) ==> q.content.range is Some && forall|j: int|
            0 <= j < q.content.data.len() ==> located(#[trigger] q.content.data[j]),
{
    if let Ok(p) = crate::grammar::p_mexpr(src) {
        lemma_root_fold_located(src, file_id, p.inner);
    }
}


/// A node's location at every node gives a location to every name looked up.
pub proof fn lemma_located_names(e: Ranged<SpecExpr>)
    requires
        located(e),
    ensures
        names_located(e),
    decreases e,
{
    match e.data {
        SpecExpr::Apply { body, .. } => {
            assert forall|k: int| 0 <= k < body.len() implies names_located(#[trigger] body[k]) by {
                lemma_located_names(body[k]);
            }
        },
        SpecExpr::List(body) => {
            assert forall|k: int| 0 <= k < body.len() implies names_located(#[trigger] body[k]) by {
                lemma_located_names(body[k]);
            }
        },
        _ => {},
    }
}

/// Every row that a walk adds has a location at every node.
pub open spec fn walk_located(w: Walk) -> bool {
    forall|i: int| 0 <= i < w.rows.len() ==> located(#[trigger] w.rows[i].ty)
}

proof fn lemma_join_located(a: Walk, b: Walk)
    requires
        walk_located(a),
        walk_located(b),
    ensures
        walk_located(walk_join(a, b)),
{
    let w = walk_join(a, b);
    assert forall|i: int| 0 <= i < w.rows.len() implies located(#[trigger] w.rows[i].ty) by {
        if i < a.rows.len() {
            assert(w.rows[i] == a.rows[i]);
        } else {
            assert(w.rows[i] == b.rows[i - a.rows.len()]);
        }
    }
}

proof fn lemma_ty_located(cp: SpecPath, cn: SpecPath, name: Ranged<Seq<u8>>, body: Ranged<SpecExpr>, number: Option<usize>)
    requires
        located(body),
    ensures
        walk_located(walk_ty(cp, cn, name, body, number)),
    decreases body, 0int,
{
    let cp2 = push_seg(cp, match number {
        Some(n) => SpecSegment::Pos(n),
        None => SpecSegment::Name(name.data),
    });
    let cn2 = push_seg(cn, SpecSegment::Name(name.data));
    let w = walk_ty(cp, cn, name, body, number);
    match body.data {
        SpecExpr::List(items) => {
            lemma_list_located(cp2, cn2, items, items.len() as int);
            let inner = walk_list(cp2, cn2, items, items.len() as int).0;
            assert(w.rows == Seq::<crate::path::SpecTypeRow<Ranged<SpecExpr>>>::empty() + inner.rows);
            assert forall|i: int| 0 <= i < w.rows.len() implies located(#[trigger] w.rows[i].ty) by {
                assert(w.rows[i] == inner.rows[i]);
            }
        },
        _ => {
            assert(w.rows.len() == 1 && w.rows[0].ty == body);
        },
    }
}

proof fn lemma_def_located(cp: SpecPath, cn: SpecPath, name: Ranged<Seq<u8>>, body: Ranged<SpecExpr>)
    requires
        located(body),
    ensures
        walk_located(walk_def(cp, cn, name, body)),
    decreases body, 1int,
{
    lemma_ty_located(cp, cn, name, body, None);
    let w = walk_def(cp, cn, name, body);
    let t = walk_ty(cp, cn, name, body, None);
    assert forall|i: int| 0 <= i < w.rows.len() implies located(#[trigger] w.rows[i].ty) by {
        assert(w.rows[i] == t.rows[i]);
    }
}

proof fn lemma_list_located(cp: SpecPath, cn: SpecPath, items: Seq<Ranged<SpecExpr>>, k: int)
    requires
        forall|j: int| 0 <= j < items.len() ==> located(#[trigger] items[j]),
    ensures
        walk_located(walk_list(cp, cn, items, k).0),
    decreases items, k,
{
    if 0 < k <= items.len() {
        lemma_list_located(cp, cn, items, k - 1);
        let (w, num) = walk_list(cp, cn, items, k - 1);
        let e = items[k - 1];
        assert(located(e));
        match e.data {
            SpecExpr::Def { name, data } => {
                lemma_def_located(cp, cn, name, *data);
                lemma_join_located(w, walk_def(cp, cn, name, *data));
            },
            SpecExpr::Ty { name, data } => {
                lemma_ty_located(cp, cn, name, *data, Some(num as usize));
                lemma_join_located(w, walk_ty(cp, cn, name, *data, Some(num as usize)));
            },
            _ => {
                let d = walk_data(cp, cn, e, Some(num as usize));
                assert(d.rows.len() == 1 && d.rows[0].ty == e);
                lemma_join_located(w, d);
            },
        }
    }
}

proof fn lemma_top_located(cp: SpecPath, items: Seq<Ranged<SpecExpr>>, k: int)
    requires
        forall|j: int| 0 <= j < items.len() ==> located(#[trigger] items[j]),
    ensures
        walk_located(walk_top(cp, items, k).0),
    decreases k,
{
    if 0 < k <= items.len() {
        lemma_top_located(cp, items, k - 1);
        let (w, _) = walk_top(cp, items, k - 1);
        let e = items[k - 1];
        assert(located(e));
        match e.data {
            SpecExpr::Def { name, data } => {
                lemma_def_located(cp, cp, name, *data);
                lemma_join_located(w, walk_def(cp, cp, name, *data));
            },
            SpecExpr::Ty { name, data } => {
                lemma_ty_located(cp, cp, name, *data, None);
                lemma_join_located(w, walk_ty(cp, cp, name, *data, None));
            },
            _ => {},
        }
    }
}

proof fn lemma_modules_located(mods: Seq<SpecModule>, k: int)
    requires
        forall|i: int| 0 <= i < mods.len() ==> located_list(#[trigger] mods[i].data),
    ensures
        walk_located(walk_modules(mods, k).0),
    decreases k,
{
    if 0 < k <= mods.len() {
        lemma_modules_located(mods, k - 1);
        let m = mods[k - 1];
        assert(located_list(m.data));
        lemma_top_located(module_root(m), m.data.data, m.data.data.len() as int);
        lemma_join_located(walk_modules(mods, k - 1).0, walk_top(module_root(m), m.data.data, m.data.data.len() as int).0);
    }
}

/// The table converted from modules that have locations at every node can
/// be resolved: it is well-formed, and every name its rows look up has a
/// location to report an error at. The modules that a loader loads are such
/// modules (see [`crate::expr::loader_wf`]).
pub proof fn lemma_convert_resolvable(mods: Seq<SpecModule>)
    requires
        forall|i: int| 0 <= i < mods.len() ==> located_list(#[trigger] mods[i].data),
    ensures
        convert_of(mods) matches Ok(t) ==> rows_located(t) && resolvable(t),
{
    lemma_convert_wf(mods);
    lemma_modules_located(mods, mods.len() as int);
    let w = walk_modules(mods, mods.len() as int).0;
    if let Ok(t) = convert_of(mods) {
        crate::sort::lemma_sort_with(w.rows, row_key());
        assert(t.rows == sort_with(w.rows, row_key()));
        assert forall|i: int| 0 <= i < t.rows.len() implies names_located(#[trigger] t.rows[i].ty) by {
            assert(t.rows.contains(t.rows[i]));
            assert(w.rows.contains(t.rows[i]));
            let a = choose|a: int| 0 <= a < w.rows.len() && w.rows[a] == t.rows[i];
            assert(located(w.rows[a].ty));
            lemma_located_names(t.rows[i].ty);
        }
        assert forall|i: int| 0 <= i < t.rows.len() implies crate::path::resolve_ok((#[trigger] t.rows[i]).ty, row_ctx(t, i), table_names(t)) by {
            lemma_located_resolves(t.rows[i].ty, row_ctx(t, i), table_names(t));
        }
    }
}


/// The modules a loader has loaded can be converted into a table that can
/// be resolved: every name error it reports has a location.
pub proof fn lemma_loaded_resolvable(st: LoaderState)
    requires
        loader_wf(st),
    ensures
        convert_of(st.complete) matches Ok(t) ==> rows_located(t) && resolvable(t),
{
    lemma_convert_resolvable(st.complete);
}

} // verus!

//! What loading, converting, resolving, typing and printing do, stated over
//! all inputs by how results relate to their inputs and to one another.

use vstd::prelude::*;
use vstd::string::StringSliceAdditionalSpecFns;
use crate::expr::{ImportOf, Ranged, SpecExpr, import_of, root_fold};
use crate::grammar::{Rule, SpecPair};
use crate::path::{SpecPath, find_from, resolve_from, resolve_spec, pop_spec};
use crate::text::decimal;
use crate::types::{
    Endianness, SpecType, SpecRel, named_type, quoted, segment_text, quoted_texts, quoted_segments, makam_path, makam_paths,
    makam_rel, makam_rels, makam_ty, makam_tys, type_of, type_rows, into_types_of, ExprToTypeError,
};
use crate::path::{SpecSegment, SpecTypeRow, SpecNameRow, walk_list, push_seg};

verus! {

/// Reading the top-level trees of a file in two parts gives the content, the
/// imports and the errors of the first part followed by those of the second:
/// no statement's contribution replaces another's.
pub proof fn lemma_root_fold_concat(src: Seq<u8>, file_id: usize, a: Seq<SpecPair>, b: Seq<SpecPair>)
    ensures
        root_fold(src, file_id, a + b).0 == root_fold(src, file_id, a).0 + root_fold(src, file_id, b).0,
        root_fold(src, file_id, a + b).1 == root_fold(src, file_id, a).1 + root_fold(src, file_id, b).1,
        root_fold(src, file_id, a + b).2 == root_fold(src, file_id, a).2 + root_fold(src, file_id, b).2,
    decreases b.len(),
{
    let (ca, ia, ea) = root_fold(src, file_id, a);
    if b.len() == 0 {
        assert(a + b =~= a);
        assert(ca + Seq::<Ranged<SpecExpr>>::empty() =~= ca);
        assert(ia + Seq::<(Seq<u8>, crate::expr::Span)>::empty() =~= ia);
        assert(ea + Seq::<crate::expr::LoadErrorKind>::empty() =~= ea);
    } else {
        let bd = b.drop_last();
        lemma_root_fold_concat(src, file_id, a, bd);
        assert((a + b).drop_last() =~= a + bd);
        assert((a + b).last() == b.last());
        let (cb, ib, eb) = root_fold(src, file_id, bd);
        let p = b.last();
        if p.rule != Rule::EOI {
            match import_of(src, file_id, p) {
                ImportOf::Bad(err) => {
                    assert(ea + eb.push(err) =~= (ea + eb).push(err));
                },
                ImportOf::Names(ns) => {
                    assert(ia + (ib + ns) =~= (ia + ib) + ns);
                },
                ImportOf::NotImport => match crate::expr::read_expr(src, file_id, p) {
                    Ok(x) => {
                        assert(ca + cb.push(x) =~= (ca + cb).push(x));
                    },
                    Err(_) => {},
                },
            }
        }
    }
}

/// One import statement at the top of a file contributes exactly its names.
pub proof fn lemma_root_fold_one_import(src: Seq<u8>, file_id: usize, p: SpecPair)
    requires
        p.rule != Rule::EOI,
        import_of(src, file_id, p) is Names,
    ensures
        root_fold(src, file_id, seq![p]).1 == import_of(src, file_id, p)->Names_0,
{
    let one = seq![p];
    assert(one.drop_last() =~= Seq::<SpecPair>::empty());
    assert(one.last() == p);
    assert(one.len() == 1);
    let ns = import_of(src, file_id, p)->Names_0;
    let e = root_fold(src, file_id, one.drop_last());
    assert(e.1 == Seq::<(Seq<u8>, crate::expr::Span)>::empty());
    assert(e.1 + ns =~= ns);
    assert(root_fold(src, file_id, one).1 == e.1 + ns);
}

/// The imports of a module are the names of all its import statements, in
/// order: the names of every import statement at the top of a file stand in
/// the module's import list, between those of the statements before it and
/// those of the statements after it.
pub proof fn lemma_every_import_kept(src: Seq<u8>, file_id: usize, items: Seq<SpecPair>, j: int)
    requires
        0 <= j < items.len(),
        items[j].rule != Rule::EOI,
        import_of(src, file_id, items[j]) is Names,
    ensures
        root_fold(src, file_id, items).1 == root_fold(src, file_id, items.take(j)).1
            + import_of(src, file_id, items[j])->Names_0 + root_fold(src, file_id, items.skip(j + 1)).1,
        forall|m: int| 0 <= m < import_of(src, file_id, items[j])->Names_0.len()
            ==> root_fold(src, file_id, items).1.contains(#[trigger] import_of(src, file_id, items[j])->Names_0[m]),
{
    let (pre, mid, post) = (items.take(j), seq![items[j]], items.skip(j + 1));
    assert(items =~= pre + mid + post);
    lemma_root_fold_concat(src, file_id, pre + mid, post);
    lemma_root_fold_concat(src, file_id, pre, mid);
    lemma_root_fold_one_import(src, file_id, items[j]);
    let ns = import_of(src, file_id, items[j])->Names_0;
    let ip = root_fold(src, file_id, pre).1;
    let iq = root_fold(src, file_id, post).1;
    let all = root_fold(src, file_id, items).1;
    assert(all == ip + ns + iq);
    assert forall|m: int| 0 <= m < ns.len() implies all.contains(#[trigger] ns[m]) by {
        assert(all[ip.len() + m] == ns[m]);
    }
}


/// The scope `k` levels out from `p`: `p` with its last `k` steps removed,
/// data steps first, then modules (the empty path stays empty).
pub open spec fn outer_scope(p: SpecPath, k: nat) -> SpecPath
    decreases k,
{
    if k == 0 {
        p
    } else {
        pop_spec(outer_scope(p, (k - 1) as nat))
    }
}

proof fn lemma_outer_scope_shift(p: SpecPath, k: nat)
    ensures
        outer_scope(p, k + 1) == outer_scope(pop_spec(p), k),
    decreases k,
{
    assert(outer_scope(p, k + 1) == pop_spec(outer_scope(p, k)));
    if k > 0 {
        lemma_outer_scope_shift(p, (k - 1) as nat);
        assert(outer_scope(pop_spec(p), k) == pop_spec(outer_scope(pop_spec(p), (k - 1) as nat)));
    } else {
        assert(outer_scope(p, 0) == p);
        assert(outer_scope(pop_spec(p), 0) == pop_spec(p));
    }
}

proof fn lemma_outer_scope_empty(p: SpecPath, k: nat)
    requires
        p.modules.len() == 0,
        p.data.len() == 0,
    ensures
        outer_scope(p, k) == p,
    decreases k,
{
    if k > 0 {
        lemma_outer_scope_empty(p, (k - 1) as nat);
    }
}

/// A name is looked up from the innermost scope outward: the name it
/// denotes is the one found in the first scope, from `prefix` outward, in
/// which it is found at all; it denotes nothing if no scope finds it.
pub proof fn lemma_resolve_innermost(prefix: SpecPath, suffix: Seq<Seq<u8>>, names: Set<SpecPath>)
    ensures
        resolve_from(prefix, suffix, names) matches Some(p) ==> exists|k: nat|
            find_from(#[trigger] outer_scope(prefix, k), suffix, names) == Some(p) && forall|j: nat|
                j < k ==> find_from(#[trigger] outer_scope(prefix, j), suffix, names) is None,
        resolve_from(prefix, suffix, names) is None ==> forall|k: nat|
            find_from(#[trigger] outer_scope(prefix, k), suffix, names) is None,
    decreases prefix.modules.len() + prefix.data.len(),
{
    match find_from(prefix, suffix, names) {
        Some(p) => {
            assert(outer_scope(prefix, 0) == prefix);
            assert(find_from(outer_scope(prefix, 0), suffix, names) == Some(p));
        },
        None => {
            if prefix.modules.len() == 0 && prefix.data.len() == 0 {
                assert forall|k: nat| find_from(#[trigger] outer_scope(prefix, k), suffix, names) is None by {
                    lemma_outer_scope_empty(prefix, k);
                }
            } else {
                let q = pop_spec(prefix);
                lemma_resolve_innermost(q, suffix, names);
                if let Some(p) = resolve_from(q, suffix, names) {
                    let k = choose|k: nat| find_from(#[trigger] outer_scope(q, k), suffix, names) == Some(p) && forall|j: nat|
                        j < k ==> find_from(#[trigger] outer_scope(q, j), suffix, names) is None;
                    lemma_outer_scope_shift(prefix, k);
                    assert(find_from(outer_scope(prefix, k + 1), suffix, names) == Some(p));
                    assert forall|j: nat| j < k + 1 implies find_from(#[trigger] outer_scope(prefix, j), suffix, names) is None by {
                        if j == 0 {
                            assert(outer_scope(prefix, 0) == prefix);
                        } else {
                            lemma_outer_scope_shift(prefix, (j - 1) as nat);
                            assert(find_from(outer_scope(q, (j - 1) as nat), suffix, names) is None);
                        }
                    }
                } else {
                    assert forall|k: nat| find_from(#[trigger] outer_scope(prefix, k), suffix, names) is None by {
                        if k == 0 {
                            assert(outer_scope(prefix, 0) == prefix);
                        } else {
                            lemma_outer_scope_shift(prefix, (k - 1) as nat);
                            assert(find_from(outer_scope(q, (k - 1) as nat), suffix, names) is None);
                        }
                    }
                }
            }
        },
    }
}

/// A name found from the enclosing path of the definition it is used in
/// denotes what is found there, whatever outer scopes hold; a name that
/// denotes something denotes one of the names.
pub proof fn lemma_resolve_nearest(ctx: SpecPath, suffix: Seq<Seq<u8>>, names: Set<SpecPath>)
    ensures
        ({
            let prefix = SpecPath {
                modules: ctx.modules,
                data: if ctx.data.len() > 0 { ctx.data.drop_last() } else { ctx.data },
            };
            find_from(prefix, suffix, names) matches Some(p) ==> resolve_spec(ctx, suffix, names) == Some(p)
        }),
        resolve_spec(ctx, suffix, names) matches Some(p) ==> names.contains(p),
{
    let prefix = SpecPath {
        modules: ctx.modules,
        data: if ctx.data.len() > 0 { ctx.data.drop_last() } else { ctx.data },
    };
    lemma_resolve_innermost(prefix, suffix, names);
    if let Some(p) = resolve_spec(ctx, suffix, names) {
        let k = choose|k: nat| find_from(#[trigger] outer_scope(prefix, k), suffix, names) == Some(p) && forall|j: nat|
            j < k ==> find_from(#[trigger] outer_scope(prefix, j), suffix, names) is None;
        assert(find_from(outer_scope(prefix, k), suffix, names) == Some(p));
    }
}


/// The suffix of the name of an integer type in the given byte order.
pub open spec fn endian_suffix(e: Endianness) -> Seq<u8> {
    match e {
        Endianness::Be => Seq::empty(),
        Endianness::Le => "le".spec_bytes(),
    }
}

/// The built-in names of integer types spell what they stand for: `u` for
/// unsigned and `s` for signed, then the width in bytes in decimal, then
/// `le` exactly for little-endian ones (those without it are big-endian).
pub proof fn lemma_integer_type_names(n: Seq<u8>)
    ensures
        named_type(n) matches Some(SpecType::U(w, e)) ==> n == "u".spec_bytes() + decimal(w as nat) + endian_suffix(e),
        named_type(n) matches Some(SpecType::S(w, e)) ==> n == "s".spec_bytes() + decimal(w as nat) + endian_suffix(e),
{
    reveal(named_type);
    broadcast use vstd::string::is_ascii_spec_bytes;
    reveal_strlit("u1");
    assert(vstd::string::is_ascii("u1"));
    reveal_strlit("u2");
    assert(vstd::string::is_ascii("u2"));
    reveal_strlit("u4");
    assert(vstd::string::is_ascii("u4"));
    reveal_strlit("u8");
    assert(vstd::string::is_ascii("u8"));
    reveal_strlit("u2le");
    assert(vstd::string::is_ascii("u2le"));
    reveal_strlit("u4le");
    assert(vstd::string::is_ascii("u4le"));
    reveal_strlit("u8le");
    assert(vstd::string::is_ascii("u8le"));
    reveal_strlit("s1");
    assert(vstd::string::is_ascii("s1"));
    reveal_strlit("s2");
    assert(vstd::string::is_ascii("s2"));
    reveal_strlit("s4");
    assert(vstd::string::is_ascii("s4"));
    reveal_strlit("s8");
    assert(vstd::string::is_ascii("s8"));
    reveal_strlit("s2le");
    assert(vstd::string::is_ascii("s2le"));
    reveal_strlit("s4le");
    assert(vstd::string::is_ascii("s4le"));
    reveal_strlit("s8le");
    assert(vstd::string::is_ascii("s8le"));
    reveal_strlit("u");
    assert(vstd::string::is_ascii("u"));
    reveal_strlit("s");
    assert(vstd::string::is_ascii("s"));
    reveal_strlit("le");
    assert(vstd::string::is_ascii("le"));
    assert(decimal(1) == seq![49u8]);
    assert(decimal(2) == seq![50u8]);
    assert(decimal(4) == seq![52u8]);
    assert(decimal(8) == seq![56u8]);
    let (u, s, le) = ("u".spec_bytes(), "s".spec_bytes(), "le".spec_bytes());
    let none = Seq::<u8>::empty();
    assert("u1".spec_bytes() =~= u + decimal(1) + none);
    assert("u2".spec_bytes() =~= u + decimal(2) + none);
    assert("u4".spec_bytes() =~= u + decimal(4) + none);
    assert("u8".spec_bytes() =~= u + decimal(8) + none);
    assert("u2le".spec_bytes() =~= u + decimal(2) + le);
    assert("u4le".spec_bytes() =~= u + decimal(4) + le);
    assert("u8le".spec_bytes() =~= u + decimal(8) + le);
    assert("s1".spec_bytes() =~= s + decimal(1) + none);
    assert("s2".spec_bytes() =~= s + decimal(2) + none);
    assert("s4".spec_bytes() =~= s + decimal(4) + none);
    assert("s8".spec_bytes() =~= s + decimal(8) + none);
    assert("s2le".spec_bytes() =~= s + decimal(2) + le);
    assert("s4le".spec_bytes() =~= s + decimal(4) + le);
    assert("s8le".spec_bytes() =~= s + decimal(8) + le);
}


/// The quoted names of a list are separated by `, `: adding an item to a
/// list of at least one adds `, ` and the item's text, and leaves the text
/// of the items before it as it was.
pub proof fn lemma_quoted_texts_push(v: Seq<Seq<u8>>, x: Seq<u8>)
    ensures
        forall|k: int| k <= v.len() ==> #[trigger] quoted_texts(v.push(x), k) == quoted_texts(v, k),
        v.len() == 0 ==> quoted_texts(v.push(x), 1) == quoted(x),
        v.len() > 0 ==> quoted_texts(v.push(x), v.len() + 1int) == quoted_texts(v, v.len() as int) + ", ".spec_bytes() + quoted(x),
{
    assert forall|k: int| k <= v.len() implies #[trigger] quoted_texts(v.push(x), k) == quoted_texts(v, k) by {
        lemma_quoted_texts_prefix(v, x, k);
    }
    lemma_quoted_texts_prefix(v, x, v.len() as int);
    assert(v.push(x)[v.len() as int] == x);
    if v.len() == 0 {
        assert(v.push(x)[0] == x);
    }
}

proof fn lemma_quoted_texts_prefix(v: Seq<Seq<u8>>, x: Seq<u8>, k: int)
    requires
        k <= v.len(),
    ensures
        quoted_texts(v.push(x), k) == quoted_texts(v, k),
    decreases k,
{
    if k > 0 {
        lemma_quoted_texts_prefix(v, x, k - 1);
        assert(v.push(x)[k - 1] == v[k - 1]);
        if k > 1 {
            assert(v.push(x)[0] == v[0]);
        } else {
            assert(v.push(x)[0] == v[0]);
        }
    }
}

/// The quoted data steps of a list are separated by `, `: adding an item to a
/// list of at least one adds `, ` and the item's text, and leaves the text
/// of the items before it as it was.
pub proof fn lemma_quoted_segments_push(v: Seq<SpecSegment>, x: SpecSegment)
    ensures
        forall|k: int| k <= v.len() ==> #[trigger] quoted_segments(v.push(x), k) == quoted_segments(v, k),
        v.len() == 0 ==> quoted_segments(v.push(x), 1) == quoted(segment_text(x)),
        v.len() > 0 ==> quoted_segments(v.push(x), v.len() + 1int) == quoted_segments(v, v.len() as int) + ", ".spec_bytes() + quoted(segment_text(x)),
{
    assert forall|k: int| k <= v.len() implies #[trigger] quoted_segments(v.push(x), k) == quoted_segments(v, k) by {
        lemma_quoted_segments_prefix(v, x, k);
    }
    lemma_quoted_segments_prefix(v, x, v.len() as int);
    assert(v.push(x)[v.len() as int] == x);
    if v.len() == 0 {
        assert(v.push(x)[0] == x);
    }
}

proof fn lemma_quoted_segments_prefix(v: Seq<SpecSegment>, x: SpecSegment, k: int)
    requires
        k <= v.len(),
    ensures
        quoted_segments(v.push(x), k) == quoted_segments(v, k),
    decreases k,
{
    if k > 0 {
        lemma_quoted_segments_prefix(v, x, k - 1);
        assert(v.push(x)[k - 1] == v[k - 1]);
        if k > 1 {
            assert(v.push(x)[0] == v[0]);
        } else {
            assert(v.push(x)[0] == v[0]);
        }
    }
}

/// The Makam terms of paths of a list are separated by `, `: adding an item to a
/// list of at least one adds `, ` and the item's text, and leaves the text
/// of the items before it as it was.
pub proof fn lemma_makam_paths_push(v: Seq<SpecPath>, x: SpecPath)
    ensures
        forall|k: int| k <= v.len() ==> #[trigger] makam_paths(v.push(x), k) == makam_paths(v, k),
        v.len() == 0 ==> makam_paths(v.push(x), 1) == makam_path(x),
        v.len() > 0 ==> makam_paths(v.push(x), v.len() + 1int) == makam_paths(v, v.len() as int) + ", ".spec_bytes() + makam_path(x),
{
    assert forall|k: int| k <= v.len() implies #[trigger] makam_paths(v.push(x), k) == makam_paths(v, k) by {
        lemma_makam_paths_prefix(v, x, k);
    }
    lemma_makam_paths_prefix(v, x, v.len() as int);
    assert(v.push(x)[v.len() as int] == x);
    if v.len() == 0 {
        assert(v.push(x)[0] == x);
    }
}

proof fn lemma_makam_paths_prefix(v: Seq<SpecPath>, x: SpecPath, k: int)
    requires
        k <= v.len(),
    ensures
        makam_paths(v.push(x), k) == makam_paths(v, k),
    decreases k,
{
    if k > 0 {
        lemma_makam_paths_prefix(v, x, k - 1);
        assert(v.push(x)[k - 1] == v[k - 1]);
        if k > 1 {
            assert(v.push(x)[0] == v[0]);
        } else {
            assert(v.push(x)[0] == v[0]);
        }
    }
}

/// The Makam terms of relations of a list are separated by `, `: adding an item to a
/// list of at least one adds `, ` and the item's text, and leaves the text
/// of the items before it as it was.
pub proof fn lemma_makam_rels_push(v: Seq<Ranged<SpecRel>>, x: Ranged<SpecRel>)
    ensures
        forall|k: int| k <= v.len() ==> #[trigger] makam_rels(v.push(x), k) == makam_rels(v, k),
        v.len() == 0 ==> makam_rels(v.push(x), 1) == makam_rel(x.data),
        v.len() > 0 ==> makam_rels(v.push(x), v.len() + 1int) == makam_rels(v, v.len() as int) + ", ".spec_bytes() + makam_rel(x.data),
{
    assert forall|k: int| k <= v.len() implies #[trigger] makam_rels(v.push(x), k) == makam_rels(v, k) by {
        lemma_makam_rels_prefix(v, x, k);
    }
    lemma_makam_rels_prefix(v, x, v.len() as int);
    assert(v.push(x)[v.len() as int] == x);
    if v.len() == 0 {
        assert(v.push(x)[0] == x);
    }
}

proof fn lemma_makam_rels_prefix(v: Seq<Ranged<SpecRel>>, x: Ranged<SpecRel>, k: int)
    requires
        k <= v.len(),
    ensures
        makam_rels(v.push(x), k) == makam_rels(v, k),
    decreases k,
{
    if k > 0 {
        lemma_makam_rels_prefix(v, x, k - 1);
        assert(v.push(x)[k - 1] == v[k - 1]);
        if k > 1 {
            assert(v.push(x)[0] == v[0]);
        } else {
            assert(v.push(x)[0] == v[0]);
        }
    }
}

/// The Makam terms of types of a list are separated by `, `: adding an item to a
/// list of at least one adds `, ` and the item's text, and leaves the text
/// of the items before it as it was.
pub proof fn lemma_makam_tys_push(v: Seq<Ranged<SpecType>>, x: Ranged<SpecType>)
    ensures
        forall|k: int| k <= v.len() ==> #[trigger] makam_tys(v.push(x), k) == makam_tys(v, k),
        v.len() == 0 ==> makam_tys(v.push(x), 1) == makam_ty(x.data),
        v.len() > 0 ==> makam_tys(v.push(x), v.len() + 1int) == makam_tys(v, v.len() as int) + ", ".spec_bytes() + makam_ty(x.data),
{
    assert forall|k: int| k <= v.len() implies #[trigger] makam_tys(v.push(x), k) == makam_tys(v, k) by {
        lemma_makam_tys_prefix(v, x, k);
    }
    lemma_makam_tys_prefix(v, x, v.len() as int);
    assert(v.push(x)[v.len() as int] == x);
    if v.len() == 0 {
        assert(v.push(x)[0] == x);
    }
}

proof fn lemma_makam_tys_prefix(v: Seq<Ranged<SpecType>>, x: Ranged<SpecType>, k: int)
    requires
        k <= v.len(),
    ensures
        makam_tys(v.push(x), k) == makam_tys(v, k),
    decreases k,
{
    if k > 0 {
        lemma_makam_tys_prefix(v, x, k - 1);
        assert(v.push(x)[k - 1] == v[k - 1]);
        if k > 1 {
            assert(v.push(x)[0] == v[0]);
        } else {
            assert(v.push(x)[0] == v[0]);
        }
    }
}

/// The modules of a Makam path are its quoted module names separated by
/// `, `, before the data steps: a path one module deeper has the text of
/// its modules extended by `, ` and the quoted new name.
pub proof fn lemma_makam_path_deeper(p: SpecPath, m: Seq<u8>)
    requires
        p.modules.len() > 0,
    ensures
        makam_path(SpecPath { modules: p.modules.push(m), data: p.data })
            == "(path [".spec_bytes() + quoted_texts(p.modules, p.modules.len() as int) + ", ".spec_bytes() + quoted(m)
                + "] [".spec_bytes() + quoted_segments(p.data, p.data.len() as int) + "])".spec_bytes(),
{
    lemma_quoted_texts_push(p.modules, m);
    let q = SpecPath { modules: p.modules.push(m), data: p.data };
    assert(q.modules.len() == p.modules.len() + 1);
}


/// Whether an item of a list takes a position: it is neither a definition
/// nor an annotation.
pub open spec fn takes_position(e: Ranged<SpecExpr>) -> bool {
    &&& !(e.data is Def)
    &&& !(e.data matches SpecExpr::Apply { head, .. } && head.data == "ann".spec_bytes())
}

pub open spec fn takes_position_fn() -> spec_fn(Ranged<SpecExpr>) -> bool {
    |e: Ranged<SpecExpr>| takes_position(e)
}

/// The position an item of a list gets: how many items before it take one.
pub open spec fn position_of(items: Seq<Ranged<SpecExpr>>, j: int) -> nat {
    items.take(j).filter(takes_position_fn()).len()
}

/// In a list, values and types are numbered 0, 1, 2, ... in order, counting
/// only the items that are neither definitions nor annotations: the walk of
/// the first `k` items uses as many positions as those items take, a value
/// is a row at the position it gets, and a type a name row at that position.
pub proof fn lemma_list_positions(cp: SpecPath, cn: SpecPath, items: Seq<Ranged<SpecExpr>>, k: int)
    requires
        0 <= k <= items.len(),
    ensures
        walk_list(cp, cn, items, k).1 == position_of(items, k),
        forall|j: int|
            0 <= j < k && takes_position(items[j]) && !(items[j].data is Ty) ==> walk_list(cp, cn, items, k).0.rows.contains(
                SpecTypeRow { path: push_seg(cp, SpecSegment::Pos(position_of(items, j) as usize)), ty: #[trigger] items[j] },
            ),
        forall|j: int|
            0 <= j < k && (#[trigger] items[j]).data is Ty ==> exists|r: SpecNameRow|
                #[trigger] walk_list(cp, cn, items, k).0.names.contains(r) && r.path == push_seg(
                    cp,
                    SpecSegment::Pos(position_of(items, j) as usize),
                ),
    decreases k,
{
    if k > 0 {
        lemma_list_positions(cp, cn, items, k - 1);
        let (w, num) = walk_list(cp, cn, items, k - 1);
        let e = items[k - 1];
        assert(items.take(k) =~= items.take(k - 1).push(e));
        items.take(k - 1).lemma_filter_len_push(takes_position_fn(), e);
        assert(takes_position_fn()(e) == takes_position(e));
        let w2 = walk_list(cp, cn, items, k).0;
        let added = match e.data {
            SpecExpr::Def { name, data } => crate::path::walk_def(cp, cn, name, *data),
            SpecExpr::Ty { name, data } => crate::path::walk_ty(cp, cn, name, *data, Some(num as usize)),
            SpecExpr::Apply { head, .. } => if head.data == "ann".spec_bytes() {
                crate::path::walk_empty()
            } else {
                crate::path::walk_data(cp, cn, e, Some(num as usize))
            },
            _ => crate::path::walk_data(cp, cn, e, Some(num as usize)),
        };
        assert(w2.rows =~= w.rows + added.rows);
        assert(w2.names =~= w.names + added.names);
        assert forall|j: int|
            0 <= j < k && takes_position(items[j]) && !(items[j].data is Ty) implies w2.rows.contains(
                SpecTypeRow { path: push_seg(cp, SpecSegment::Pos(position_of(items, j) as usize)), ty: #[trigger] items[j] },
            ) by {
            let row = SpecTypeRow { path: push_seg(cp, SpecSegment::Pos(position_of(items, j) as usize)), ty: items[j] };
            if j < k - 1 {
                let i = choose|i: int| 0 <= i < w.rows.len() && w.rows[i] == row;
                assert(w2.rows[i] == row);
            } else {
                assert(added.rows[0] == row);
                assert(w2.rows[w.rows.len() as int] == row);
            }
        }
        assert forall|j: int| 0 <= j < k && (#[trigger] items[j]).data is Ty implies exists|r: SpecNameRow|
            #[trigger] w2.names.contains(r) && r.path == push_seg(cp, SpecSegment::Pos(position_of(items, j) as usize)) by {
            if j < k - 1 {
                let r = choose|r: SpecNameRow| #[trigger] w.names.contains(r) && r.path == push_seg(
                    cp,
                    SpecSegment::Pos(position_of(items, j) as usize),
                );
                let i = choose|i: int| 0 <= i < w.names.len() && w.names[i] == r;
                assert(w2.names[i] == r);
                assert(w2.names.contains(r));
            } else {
                let r = added.names[0];
                assert(r.path == push_seg(cp, SpecSegment::Pos(num as usize)));
                assert(w2.names[w.names.len() as int] == r);
                assert(w2.names.contains(r));
            }
        }
    }
}


/// An expression that is not read as a type always gives an error.
pub proof fn lemma_no_type_has_error(e: Ranged<SpecExpr>)
    ensures
        type_of(e).0 is None ==> type_of(e).1.len() > 0,
    decreases e,
{
    if let SpecExpr::Apply { head, body } = e.data {
        if body.len() == 2 {
            lemma_no_type_has_error(body[0]);
        }
    }
}

/// Reading the first `k` rows without an error keeps every row, in order,
/// at its path, as the type its expression is read as.
proof fn lemma_type_rows_all(rows: Seq<SpecTypeRow<Ranged<SpecExpr>>>, k: int)
    requires
        0 <= k <= rows.len(),
        type_rows(rows, k).1.len() == 0,
    ensures
        type_rows(rows, k).0.len() == k,
        forall|i: int| 0 <= i < k ==> (#[trigger] type_rows(rows, k).0[i]).path == rows[i].path
            && Some(type_rows(rows, k).0[i].ty) == type_of(rows[i].ty).0,
    decreases k,
{
    if k > 0 {
        let (rs, errs, f) = type_rows(rows, k - 1);
        let (t, e, g) = type_of(rows[k - 1].ty);
        assert(type_rows(rows, k).1 == errs + e);
        assert(errs.len() == 0 && e.len() == 0);
        lemma_type_rows_all(rows, k - 1);
        lemma_no_type_has_error(rows[k - 1].ty);
        let now = type_rows(rows, k).0;
        assert(now == rs.push(SpecTypeRow { path: rows[k - 1].path, ty: t->0 }));
        assert forall|i: int| 0 <= i < k implies (#[trigger] now[i]).path == rows[i].path && Some(now[i].ty) == type_of(rows[i].ty).0 by {
            if i < k - 1 {
                assert(now[i] == rs[i]);
            }
        }
    }
}

/// When reading a table as types succeeds, every row is kept, in order, at
/// its path, with the type its expression is read as; the names and the
/// definitions stay as they were.
pub proof fn lemma_into_types_keeps_rows(errs: Seq<ExprToTypeError>, t: crate::path::SpecTable<Ranged<SpecExpr>>)
    ensures
        into_types_of(errs, t) matches Ok(u) ==> {
            &&& errs.len() == 0
            &&& u.names == t.names
            &&& u.defs == t.defs
            &&& u.rows.len() == t.rows.len()
            &&& forall|i: int| 0 <= i < t.rows.len() ==> (#[trigger] u.rows[i]).path == t.rows[i].path
                && Some(u.rows[i].ty) == type_of(t.rows[i].ty).0
        },
{
    let (rows, more, _) = type_rows(t.rows, t.rows.len() as int);
    if (errs + more).len() == 0 {
        lemma_type_rows_all(t.rows, t.rows.len() as int);
    }
}

} // verus!

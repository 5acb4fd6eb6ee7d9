//! Source locations, raw expressions, and their reading from parse trees.

use vstd::prelude::*;
use vstd::string::StringSliceAdditionalSpecFns;
use crate::grammar::{Pair, SpecPair, Rule, ParseError, grammar_tree, lemma_pair_inner};
use crate::path::{RzPath, SpecPath};
use crate::text::{copy_bytes, copy_range, is_word};
use crate::files::{FileTable, append_of, distinct, has_parent, has_stem, parent_of, stem_of, parent_dir, file_stem, lemma_append_distinct};
use crate::grammar::{MexprParser, p_mexpr, lemma_mexpr_tree};
use crate::path::texts_view;
use crate::properties::{located, lemma_queued_located};

verus! {

/// A range of bytes `from..to` in a source file.
#[derive(Debug, Clone, Copy, PartialEq, Eq, Structural)]
pub struct Span {
    pub from: usize,
    pub to: usize,
}

impl Span {
    /// The empty span at the start of this one.
    pub fn start(self) -> (r: Self)
        ensures
            r == (Span { from: self.from, to: self.from }),
    {
        Span { from: self.from, to: self.from }
    }
}

/// A span in a given file of a file table.
#[derive(Debug, Clone, Copy, PartialEq, Eq, Structural)]
pub struct Location {
    pub file_id: usize,
    pub span: Span,
}

impl Location {
    /// The empty location at the start of this one.
    pub fn start(self) -> (r: Self)
        ensures
            r == (Location { file_id: self.file_id, span: Span { from: self.span.from, to: self.span.from } }),
    {
        Location { span: self.span.start(), ..self }
    }
}

/// A value with the location it was read from, if any.
#[derive(Debug, Clone, PartialEq, Eq)]
pub struct Ranged<T> {
    pub data: T,
    pub range: Option<Location>,
}

impl<T> Ranged<T> {
    /// A value read from nowhere.
    pub fn new(data: T) -> (r: Self)
        ensures
            r.data == data,
            r.range is None,
    {
        Ranged { data, range: None }
    }
}

impl<T: View> View for Ranged<T> {
    type V = Ranged<T::V>;

    open spec fn view(&self) -> Ranged<T::V> {
        Ranged { data: self.data@, range: self.range }
    }
}

/// An expression as read from a source file.
#[derive(Debug, PartialEq, Eq)]
pub enum RawExpr {
    Apply { head: Ranged<Vec<u8>>, body: Vec<Ranged<RawExpr>> },
    List(Vec<Ranged<RawExpr>>),
    Name(Vec<u8>),
    Decimal(Vec<u8>),
    Hexdecimal(Vec<u8>),
    String(Vec<u8>),
    Ty { name: Ranged<Vec<u8>>, data: Box<Ranged<RawExpr>> },
    Def { name: Ranged<Vec<u8>>, data: Box<Ranged<RawExpr>> },
    Path(RzPath),
}

/// The mathematical value of a [`RawExpr`].
pub enum SpecExpr {
    Apply { head: Ranged<Seq<u8>>, body: Seq<Ranged<SpecExpr>> },
    List(Seq<Ranged<SpecExpr>>),
    Name(Seq<u8>),
    Decimal(Seq<u8>),
    Hexdecimal(Seq<u8>),
    String(Seq<u8>),
    Ty { name: Ranged<Seq<u8>>, data: Box<Ranged<SpecExpr>> },
    Def { name: Ranged<Seq<u8>>, data: Box<Ranged<SpecExpr>> },
    Path(SpecPath),
}

pub open spec fn text_value(t: Ranged<Vec<u8>>) -> Ranged<Seq<u8>> {
    Ranged { data: t.data@, range: t.range }
}

/// The value of an expression.
pub open spec fn expr_value(e: RawExpr) -> SpecExpr
    decreases e,
{
    match e {
        RawExpr::Apply { head, body } => SpecExpr::Apply {
            head: text_value(head),
            body: Seq::new(
                body@.len(),
                |i: int|
                    if 0 <= i < body@.len() {
                        Ranged { data: expr_value(body@[i].data), range: body@[i].range }
                    } else {
                        arbitrary()
                    },
            ),
        },
        RawExpr::List(body) => SpecExpr::List(
            Seq::new(
                body@.len(),
                |i: int|
                    if 0 <= i < body@.len() {
                        Ranged { data: expr_value(body@[i].data), range: body@[i].range }
                    } else {
                        arbitrary()
                    },
            ),
        ),
        RawExpr::Name(s) => SpecExpr::Name(s@),
        RawExpr::Decimal(s) => SpecExpr::Decimal(s@),
        RawExpr::Hexdecimal(s) => SpecExpr::Hexdecimal(s@),
        RawExpr::String(s) => SpecExpr::String(s@),
        RawExpr::Ty { name, data } => SpecExpr::Ty {
            name: text_value(name),
            data: Box::new(Ranged { data: expr_value(data.data), range: data.range }),
        },
        RawExpr::Def { name, data } => SpecExpr::Def {
            name: text_value(name),
            data: Box::new(Ranged { data: expr_value(data.data), range: data.range }),
        },
        RawExpr::Path(p) => SpecExpr::Path(p@),
    }
}

impl View for RawExpr {
    type V = SpecExpr;

    open spec fn view(&self) -> SpecExpr {
        expr_value(*self)
    }
}

/// The value of a located expression.
pub open spec fn rexpr(e: Ranged<RawExpr>) -> Ranged<SpecExpr> {
    Ranged { data: e.data@, range: e.range }
}

/// The values of a list of located expressions.
pub open spec fn rexprs(v: Seq<Ranged<RawExpr>>) -> Seq<Ranged<SpecExpr>> {
    Seq::new(v.len(), |i: int| rexpr(v[i]))
}

pub proof fn lemma_expr_children(e: RawExpr)
    ensures
        e matches RawExpr::Apply { head, body } ==> e@ == (SpecExpr::Apply { head: text_value(head), body: rexprs(body@) }),
        e matches RawExpr::List(body) ==> e@ == SpecExpr::List(rexprs(body@)),
{
    match e {
        RawExpr::Apply { head, body } => {
            assert(e@->Apply_body =~= rexprs(body@));
        },
        RawExpr::List(body) => {
            assert(e@->List_0 =~= rexprs(body@));
        },
        _ => {},
    }
}


/// Why loading a module tree failed at some point.
#[derive(Debug, PartialEq, Eq)]
pub enum LoadErrorKind {
    /// A file could not be read: where it was imported (not for the root), and the reason.
    Io(Option<Location>, Vec<u8>),
    /// A file is not valid m-expression text: where parsing stopped, and the file.
    Parse(ParseError, usize),
    /// No file was found for an import.
    NotFound(Location),
    /// An import closes a cycle: the imports along it, the last one closing it.
    Cycle(Vec<Location>),
    /// Something that must be a name is not one.
    InvalidName(Location),
    /// A `ty` or `def` does not have exactly a name and a body.
    InvalidTy(Location),
    /// An `import` stands inside another expression.
    ImportInside(Location),
}

/// The location of a tree node in the given file.
pub open spec fn loc_of(p: SpecPair, file_id: usize) -> Location {
    Location { file_id, span: Span { from: p.from as usize, to: p.to as usize } }
}

/// The source text that a tree node spans.
pub open spec fn text_of(src: Seq<u8>, p: SpecPair) -> Seq<u8> {
    src.subrange(p.from, p.to)
}

/// The expression that a tree reads as, or the first error met in source order.
pub open spec fn read_expr(src: Seq<u8>, file_id: usize, p: SpecPair) -> Result<Ranged<SpecExpr>, LoadErrorKind>
    decreases p, 0int,
{
    let loc = loc_of(p, file_id);
    match p.rule {
        Rule::m => {
            if p.inner.len() == 0 {
                Err(LoadErrorKind::InvalidTy(loc))
            } else {
                let head = p.inner[0];
                let hs = text_of(src, head);
                if hs == "import".spec_bytes() {
                    Err(LoadErrorKind::ImportInside(loc))
                } else if hs == "ty".spec_bytes() || hs == "def".spec_bytes() {
                    if p.inner.len() < 2 {
                        Err(LoadErrorKind::InvalidTy(loc))
                    } else if p.inner[1].rule != Rule::name {
                        Err(LoadErrorKind::InvalidName(loc_of(p.inner[1], file_id)))
                    } else if p.inner.len() < 3 {
                        Err(LoadErrorKind::InvalidTy(loc))
                    } else {
                        match read_expr(src, file_id, p.inner[2]) {
                            Err(e) => Err(e),
                            Ok(d) => if p.inner.len() > 3 {
                                Err(LoadErrorKind::InvalidTy(loc))
                            } else {
                                let name = Ranged {
                                    data: text_of(src, p.inner[1]),
                                    range: Some(loc_of(p.inner[1], file_id)),
                                };
                                let e = if hs == "ty".spec_bytes() {
                                    SpecExpr::Ty { name, data: Box::new(d) }
                                } else {
                                    SpecExpr::Def { name, data: Box::new(d) }
                                };
                                Ok(Ranged { data: e, range: Some(loc) })
                            },
                        }
                    }
                } else {
                    match read_list(src, file_id, p.inner, 1) {
                        Err(e) => Err(e),
                        Ok(body) => Ok(
                            Ranged {
                                data: SpecExpr::Apply {
                                    head: Ranged { data: hs, range: Some(loc_of(head, file_id)) },
                                    body,
                                },
                                range: Some(loc),
                            },
                        ),
                    }
                }
            }
        },
        Rule::list => match read_list(src, file_id, p.inner, 0) {
            Err(e) => Err(e),
            Ok(body) => Ok(Ranged { data: SpecExpr::List(body), range: Some(loc) }),
        },
        Rule::name => Ok(Ranged { data: SpecExpr::Name(text_of(src, p)), range: Some(loc) }),
        Rule::decimal => Ok(Ranged { data: SpecExpr::Decimal(text_of(src, p)), range: Some(loc) }),
        Rule::hexdecimal => Ok(Ranged { data: SpecExpr::Hexdecimal(text_of(src, p)), range: Some(loc) }),
        Rule::string => Ok(Ranged { data: SpecExpr::String(text_of(src, p)), range: Some(loc) }),
        _ => Err(LoadErrorKind::InvalidTy(loc)),
    }
}

/// The expressions that the trees `items[k..]` read as, or the first error among them.
pub open spec fn read_list(src: Seq<u8>, file_id: usize, items: Seq<SpecPair>, k: int) -> Result<Seq<Ranged<SpecExpr>>, LoadErrorKind>
    decreases items, items.len() - k,
{
    if k < 0 || k >= items.len() {
        Ok(Seq::empty())
    } else {
        match read_expr(src, file_id, items[k]) {
            Err(e) => Err(e),
            Ok(x) => match read_list(src, file_id, items, k + 1) {
                Err(e) => Err(e),
                Ok(rest) => Ok(seq![x] + rest),
            },
        }
    }
}

/// The value of the result of reading an expression.
pub open spec fn read_view(r: Result<Ranged<RawExpr>, LoadErrorKind>) -> Result<Ranged<SpecExpr>, LoadErrorKind> {
    match r {
        Ok(e) => Ok(rexpr(e)),
        Err(e) => Err(e),
    }
}

fn location_of(p: &Pair, file_id: usize) -> (r: Location)
    ensures
        r == loc_of(p@, file_id),
{
    Location { file_id, span: Span { from: p.from, to: p.to } }
}

/// Reads the expression that a parse tree of `src` stands for.
pub fn read_pair(src: &[u8], p: &Pair, file_id: usize) -> (r: Result<Ranged<RawExpr>, LoadErrorKind>)
    requires
        grammar_tree(p@, src.len() as int),
    ensures
        read_view(r) == read_expr(src@, file_id, p@),
    decreases p,
{
    proof {
        lemma_pair_inner(p);
    }
    let loc = location_of(p, file_id);
    match p.rule {
        Rule::m => {
            let head = &p.inner[0];
            assert(grammar_tree(p@.inner[0], src.len() as int));
            let hs = copy_range(src, head.from, head.to);
            if is_word(hs.as_slice(), "import") {
                return Err(LoadErrorKind::ImportInside(loc));
            }
            let is_ty = is_word(hs.as_slice(), "ty");
            if is_ty || is_word(hs.as_slice(), "def") {
                if p.inner.len() < 2 {
                    return Err(LoadErrorKind::InvalidTy(loc));
                }
                let name = &p.inner[1];
                if name.rule != Rule::name {
                    return Err(LoadErrorKind::InvalidName(location_of(name, file_id)));
                }
                if p.inner.len() < 3 {
                    return Err(LoadErrorKind::InvalidTy(loc));
                }
                assert(grammar_tree(p@.inner[2], src.len() as int));
                let d = match read_pair(src, &p.inner[2], file_id) {
                    Err(e) => {
                        return Err(e);
                    },
                    Ok(d) => d,
                };
                if p.inner.len() > 3 {
                    return Err(LoadErrorKind::InvalidTy(loc));
                }
                assert(grammar_tree(p@.inner[1], src.len() as int));
                let name = Ranged {
                    data: copy_range(src, name.from, name.to),
                    range: Some(location_of(name, file_id)),
                };
                let e = if is_ty {
                    RawExpr::Ty { name, data: Box::new(d) }
                } else {
                    RawExpr::Def { name, data: Box::new(d) }
                };
                Ok(Ranged { data: e, range: Some(loc) })
            } else {
                match read_pairs(src, p, 1, file_id) {
                    Err(e) => Err(e),
                    Ok(body) => {
                        let e = RawExpr::Apply {
                            head: Ranged { data: hs, range: Some(location_of(head, file_id)) },
                            body,
                        };
                        proof {
                            lemma_expr_children(e);
                        }
                        Ok(Ranged { data: e, range: Some(loc) })
                    },
                }
            }
        },
        Rule::list => match read_pairs(src, p, 0, file_id) {
            Err(e) => Err(e),
            Ok(body) => {
                let e = RawExpr::List(body);
                proof {
                    lemma_expr_children(e);
                }
                Ok(Ranged { data: e, range: Some(loc) })
            },
        },
        Rule::name => Ok(Ranged { data: RawExpr::Name(copy_range(src, p.from, p.to)), range: Some(loc) }),
        Rule::decimal => Ok(Ranged { data: RawExpr::Decimal(copy_range(src, p.from, p.to)), range: Some(loc) }),
        Rule::hexdecimal => Ok(Ranged { data: RawExpr::Hexdecimal(copy_range(src, p.from, p.to)), range: Some(loc) }),
        Rule::string => Ok(Ranged { data: RawExpr::String(copy_range(src, p.from, p.to)), range: Some(loc) }),
        _ => Err(LoadErrorKind::InvalidTy(loc)),
    }
}

/// Reads the children `k..` of a parse tree, stopping at the first error.
fn read_pairs(src: &[u8], p: &Pair, k: usize, file_id: usize) -> (r: Result<Vec<Ranged<RawExpr>>, LoadErrorKind>)
    requires
        grammar_tree(p@, src.len() as int),
        p.rule == Rule::m || p.rule == Rule::list,
        k <= p.inner.len(),
    ensures
        match r {
            Ok(v) => read_list(src@, file_id, p@.inner, k as int) == Ok::<Seq<Ranged<SpecExpr>>, LoadErrorKind>(rexprs(v@)),
            Err(e) => read_list(src@, file_id, p@.inner, k as int) == Err::<Seq<Ranged<SpecExpr>>, LoadErrorKind>(e),
        },
    decreases p, 1int,
{
    proof {
        lemma_pair_inner(p);
    }
    let ghost items = p@.inner;
    let mut acc: Vec<Ranged<RawExpr>> = Vec::new();
    let mut i = k;
    assert(rexprs(acc@) =~= Seq::<Ranged<SpecExpr>>::empty());
    while i < p.inner.len()
        invariant
            k <= i <= p.inner.len(),
            items == p@.inner,
            items.len() == p.inner.len(),
            grammar_tree(p@, src.len() as int),
            p.rule == Rule::m || p.rule == Rule::list,
            read_list(src@, file_id, items, k as int) == match read_list(src@, file_id, items, i as int) {
                Ok(rest) => Ok::<Seq<Ranged<SpecExpr>>, LoadErrorKind>(rexprs(acc@) + rest),
                Err(e) => Err(e),
            },
        decreases p.inner.len() - i,
    {
        assert(grammar_tree(items[i as int], src.len() as int));
        let x = match read_pair(src, &p.inner[i], file_id) {
            Err(e) => {
                return Err(e);
            },
            Ok(x) => x,
        };
        let ghost xv = rexpr(x);
        let ghost old_acc = rexprs(acc@);
        acc.push(x);
        assert(rexprs(acc@) =~= old_acc.push(xv));
        proof {
            match read_list(src@, file_id, items, i + 1) {
                Ok(rest) => {
                    assert(old_acc + (seq![xv] + rest) =~= old_acc.push(xv) + rest);
                },
                Err(_) => {},
            }
        }
        i += 1;
    }
    assert(rexprs(acc@) + Seq::<Ranged<SpecExpr>>::empty() =~= rexprs(acc@));
    Ok(acc)
}


/// What a top-level tree is as an import: not one, the imported names with
/// their spans, or the error in its first argument that is not a name.
pub enum ImportOf {
    NotImport,
    Names(Seq<(Seq<u8>, Span)>),
    Bad(LoadErrorKind),
}

pub open spec fn span_of(p: SpecPair) -> Span {
    Span { from: p.from as usize, to: p.to as usize }
}

/// The arguments of an import: their texts and spans, or the first that is not a name.
pub open spec fn import_args(src: Seq<u8>, file_id: usize, args: Seq<SpecPair>) -> ImportOf
    decreases args.len(),
{
    if args.len() == 0 {
        ImportOf::Names(Seq::empty())
    } else {
        match import_args(src, file_id, args.drop_last()) {
            ImportOf::Names(ns) => if args.last().rule != Rule::name {
                ImportOf::Bad(LoadErrorKind::InvalidName(loc_of(args.last(), file_id)))
            } else {
                ImportOf::Names(ns.push((text_of(src, args.last()), span_of(args.last()))))
            },
            other => other,
        }
    }
}

/// A top-level tree as an import: an `m` whose head is the word `import`.
pub open spec fn import_of(src: Seq<u8>, file_id: usize, p: SpecPair) -> ImportOf {
    if p.rule != Rule::m || p.inner.len() == 0 || text_of(src, p.inner[0]) != "import".spec_bytes() {
        ImportOf::NotImport
    } else {
        import_args(src, file_id, p.inner.drop_first())
    }
}

/// The content, imports and errors gathered from the top-level trees `items`,
/// in order: imports add their names (or, at the first argument that is not a
/// name, an error); other trees add the expression they read as, and are
/// skipped if they do not read as one; the end of input adds nothing.
pub open spec fn root_fold(src: Seq<u8>, file_id: usize, items: Seq<SpecPair>)
    -> (Seq<Ranged<SpecExpr>>, Seq<(Seq<u8>, Span)>, Seq<LoadErrorKind>)
    decreases items.len(),
{
    if items.len() == 0 {
        (Seq::empty(), Seq::empty(), Seq::empty())
    } else {
        let (c, i, e) = root_fold(src, file_id, items.drop_last());
        let p = items.last();
        if p.rule == Rule::EOI {
            (c, i, e)
        } else {
            match import_of(src, file_id, p) {
                ImportOf::Bad(err) => (c, i, e.push(err)),
                ImportOf::Names(ns) => (c, i + ns, e),
                ImportOf::NotImport => match read_expr(src, file_id, p) {
                    Ok(x) => (c.push(x), i, e),
                    Err(_) => (c, i, e),
                },
            }
        }
    }
}

/// A tree for a whole source file of length `n`, each of whose children is the
/// end of input or reads as an expression.
pub open spec fn root_tree(p: SpecPair, n: int) -> bool {
    &&& p.rule == Rule::mexpr
    &&& 0 <= p.from <= p.to <= n
    &&& forall|k: int| 0 <= k < p.inner.len() ==> (#[trigger] p.inner[k]).rule == Rule::EOI
        || grammar_tree(p.inner[k], n)
}

/// The values of import names with their spans.
pub open spec fn imports_view(v: Seq<(Vec<u8>, Span)>) -> Seq<(Seq<u8>, Span)> {
    Seq::new(v.len(), |i: int| (v[i].0@, v[i].1))
}

/// The values of located expressions in a located list.
pub open spec fn rlist(r: Ranged<Vec<Ranged<RawExpr>>>) -> Ranged<Seq<Ranged<SpecExpr>>> {
    Ranged { data: rexprs(r.data@), range: r.range }
}

fn span_exec(p: &Pair) -> (r: Span)
    ensures
        r == span_of(p@),
{
    Span { from: p.from, to: p.to }
}

/// The names that a top-level tree imports, if it is an import; an import
/// with an argument that is not a name adds an error and gives `Err`.
fn destruct_import(src: &[u8], pair: &Pair, file_id: usize, errors: &mut Vec<LoadErrorKind>)
    -> (r: Result<Option<Vec<(Vec<u8>, Span)>>, ()>)
    requires
        grammar_tree(pair@, src.len() as int),
    ensures
        match import_of(src@, file_id, pair@) {
            ImportOf::NotImport => r == Ok::<Option<Vec<(Vec<u8>, Span)>>, ()>(None) && final(errors)@ == old(errors)@,
            ImportOf::Names(ns) => r matches Ok(Some(v)) && imports_view(v@) == ns && final(errors)@ == old(errors)@,
            ImportOf::Bad(e) => r is Err && final(errors)@ == old(errors)@.push(e),
        },
{
    proof {
        lemma_pair_inner(pair);
    }
    if pair.rule != Rule::m {
        return Ok(None);
    }
    let head = &pair.inner[0];
    proof {
        lemma_pair_inner(head);
    }
    assert(grammar_tree(pair@.inner[0], src.len() as int));
    let hs = copy_range(src, head.from, head.to);
    if !is_word(hs.as_slice(), "import") {
        return Ok(None);
    }
    let ghost args = pair@.inner.drop_first();
    let mut mods: Vec<(Vec<u8>, Span)> = Vec::new();
    let mut k: usize = 1;
    assert(args.subrange(0, 0) =~= Seq::<SpecPair>::empty());
    assert(imports_view(mods@) =~= Seq::<(Seq<u8>, Span)>::empty());
    while k < pair.inner.len()
        invariant
            1 <= k <= pair.inner.len(),
            args == pair@.inner.drop_first(),
            pair@.inner.len() == pair.inner.len(),
            grammar_tree(pair@, src.len() as int),
            pair.rule == Rule::m,
            text_of(src@, pair@.inner[0]) == "import".spec_bytes(),
            import_args(src@, file_id, args.subrange(0, k - 1)) == ImportOf::Names(imports_view(mods@)),
            errors@ == old(errors)@,
        decreases pair.inner.len() - k,
    {
        let p = &pair.inner[k];
        assert(args.subrange(0, k as int).drop_last() =~= args.subrange(0, k - 1));
        assert(args.subrange(0, k as int).last() == pair@.inner[k as int]);
        proof {
            lemma_pair_inner(p);
        }
        if p.rule != Rule::name {
            let e = LoadErrorKind::InvalidName(location_of(p, file_id));
            assert(import_args(src@, file_id, args.subrange(0, k as int)) == ImportOf::Bad(e));
            errors.push(e);
            proof {
                lemma_import_args_bad(src@, file_id, args, k as int);
            }
            return Err(());
        }
        assert(grammar_tree(pair@.inner[k as int], src.len() as int));
        let ghost old_mods = imports_view(mods@);
        mods.push((copy_range(src, p.from, p.to), span_exec(p)));
        assert(imports_view(mods@) =~= old_mods.push((text_of(src@, p@), span_of(p@))));
        k += 1;
    }
    assert(args.subrange(0, k - 1) =~= args);
    Ok(Some(mods))
}

/// Once a prefix of the arguments has a bad one, so has every longer prefix.
proof fn lemma_import_args_bad(src: Seq<u8>, file_id: usize, args: Seq<SpecPair>, k: int)
    requires
        1 <= k <= args.len(),
        import_args(src, file_id, args.subrange(0, k)) matches ImportOf::Bad(_),
    ensures
        import_args(src, file_id, args) == import_args(src, file_id, args.subrange(0, k)),
    decreases args.len() - k,
{
    if k < args.len() {
        assert(args.subrange(0, k + 1).drop_last() =~= args.subrange(0, k));
        lemma_import_args_bad(src, file_id, args, k + 1);
    } else {
        assert(args.subrange(0, k) =~= args);
    }
}

/// Reads a whole source file's tree: its expressions, with the location of the
/// whole file, and the names it imports; imports with an argument that is not
/// a name add errors to `errors`.
fn parse_root(src: &[u8], pair: &Pair, file_id: usize, errors: &mut Vec<LoadErrorKind>)
    -> (r: (Ranged<Vec<Ranged<RawExpr>>>, Vec<(Vec<u8>, Span)>))
    requires
        root_tree(pair@, src.len() as int),
    ensures
        ({
            let (c, i, e) = root_fold(src@, file_id, pair@.inner);
            &&& rlist(r.0) == (Ranged { data: c, range: Some(loc_of(pair@, file_id)) })
            &&& imports_view(r.1@) == i
            &&& final(errors)@ == old(errors)@ + e
        }),
{
    proof {
        lemma_pair_inner(pair);
    }
    let ghost items = pair@.inner;
    let loc = location_of(pair, file_id);
    let mut content: Vec<Ranged<RawExpr>> = Vec::new();
    let mut imports: Vec<(Vec<u8>, Span)> = Vec::new();
    let mut k: usize = 0;
    assert(items.subrange(0, 0) =~= Seq::<SpecPair>::empty());
    assert(rexprs(content@) =~= Seq::<Ranged<SpecExpr>>::empty());
    assert(imports_view(imports@) =~= Seq::<(Seq<u8>, Span)>::empty());
    assert(errors@ =~= old(errors)@ + Seq::<LoadErrorKind>::empty());
    while k < pair.inner.len()
        invariant
            k <= pair.inner.len(),
            items == pair@.inner,
            items.len() == pair.inner.len(),
            root_tree(pair@, src.len() as int),
            ({
                let (c, i, e) = root_fold(src@, file_id, items.subrange(0, k as int));
                &&& rexprs(content@) == c
                &&& imports_view(imports@) == i
                &&& errors@ == old(errors)@ + e
            }),
        decreases pair.inner.len() - k,
    {
        let p = &pair.inner[k];
        assert(items.subrange(0, k + 1).drop_last() =~= items.subrange(0, k as int));
        assert(items.subrange(0, k + 1).last() == items[k as int]);
        let ghost prev = root_fold(src@, file_id, items.subrange(0, k as int));
        proof {
            lemma_pair_inner(p);
        }
        if p.rule != Rule::EOI {
            assert(grammar_tree(items[k as int], src.len() as int));
            let ghost old_errors = errors@;
            match destruct_import(src, p, file_id, errors) {
                Err(()) => {
                    assert(errors@ =~= old(errors)@ + prev.2.push(errors@.last()));
                },
                Ok(Some(names)) => {
                    let ghost old_imports = imports_view(imports@);
                    let mut names = names;
                    let ghost nv = imports_view(names@);
                    let ghost iv = imports@;
                    let ghost nn = names@;
                    imports.append(&mut names);
                    assert(imports@ == iv + nn);
                    assert(imports_view(imports@) =~= old_imports + nv);
                },
                Ok(None) => {
                    match read_pair(src, p, file_id) {
                        Ok(x) => {
                            let ghost old_c = rexprs(content@);
                            let ghost xv = rexpr(x);
                            content.push(x);
                            assert(rexprs(content@) =~= old_c.push(xv));
                        },
                        Err(_) => {},
                    }
                },
            }
        }
        k += 1;
    }
    assert(items.subrange(0, k as int) =~= items);
    (Ranged { data: content, range: Some(loc) }, imports)
}


/// A module read from a file: its file, the names of the modules from the root
/// down to it, and its expressions.
#[derive(Debug, PartialEq, Eq)]
pub struct RawModule {
    pub file_id: usize,
    pub path: Vec<Vec<u8>>,
    pub data: Ranged<Vec<Ranged<RawExpr>>>,
}

/// The mathematical value of a [`RawModule`].
pub struct SpecModule {
    pub file_id: usize,
    pub path: Seq<Seq<u8>>,
    pub data: Ranged<Seq<Ranged<SpecExpr>>>,
}

impl View for RawModule {
    type V = SpecModule;

    open spec fn view(&self) -> SpecModule {
        SpecModule { file_id: self.file_id, path: texts_view(self.path@), data: rlist(self.data) }
    }
}

/// A module that is being loaded: its name and where it was imported (not for
/// the root), its file, the imports still to load, and its expressions.
struct QueuedModule {
    name: Vec<u8>,
    name_loc: Option<Location>,
    file: usize,
    imports: Vec<(Vec<u8>, Span)>,
    content: Ranged<Vec<Ranged<RawExpr>>>,
}

/// The mathematical value of a module that is being loaded.
pub struct SpecQueued {
    pub name: Seq<u8>,
    pub name_loc: Option<Location>,
    pub file: usize,
    pub imports: Seq<(Seq<u8>, Span)>,
    pub content: Ranged<Seq<Ranged<SpecExpr>>>,
}

impl View for QueuedModule {
    type V = SpecQueued;

    closed spec fn view(&self) -> SpecQueued {
        SpecQueued {
            name: self.name@,
            name_loc: self.name_loc,
            file: self.file,
            imports: imports_view(self.imports@),
            content: rlist(self.content),
        }
    }
}

/// A file found for an import, that is to be read: its id, the name it is
/// imported by, and where.
struct PendingRead {
    file_id: usize,
    name: Vec<u8>,
    loc: Location,
}

/// An import to find: its name, where it stands, the name of the importing
/// module, and the directory of the importing file.
#[derive(Debug, PartialEq, Eq)]
pub struct ImportRequest {
    pub name: Vec<u8>,
    pub loc: Location,
    pub parent: Vec<u8>,
    pub dir: Vec<u8>,
}

/// The mathematical value of an [`ImportRequest`].
pub struct SpecRequest {
    pub name: Seq<u8>,
    pub loc: Location,
    pub parent: Seq<u8>,
    pub dir: Seq<u8>,
}

impl View for ImportRequest {
    type V = SpecRequest;

    open spec fn view(&self) -> SpecRequest {
        SpecRequest { name: self.name@, loc: self.loc, parent: self.parent@, dir: self.dir@ }
    }
}

/// Loads a module tree: the root file, and every module it imports,
/// depth-first, the last import of a module first. The loader decides; the
/// caller reads files and tells it what it found (see [`ExprLoader::next_step`]).
pub struct ExprLoader {
    queue: Vec<QueuedModule>,
    complete: Vec<RawModule>,
    errors: Vec<LoadErrorKind>,
    files: FileTable,
    pending: Option<PendingRead>,
}

/// The mathematical value of an [`ExprLoader`]: the modules being loaded (the
/// root first), the modules loaded, the errors so far, the files, and the file
/// to read next (its id, import name and import location).
pub struct LoaderState {
    pub queue: Seq<SpecQueued>,
    pub complete: Seq<SpecModule>,
    pub errors: Seq<LoadErrorKind>,
    pub files: Seq<Seq<u8>>,
    pub pending: Option<(usize, Seq<u8>, Location)>,
}

pub open spec fn queue_view(v: Seq<QueuedModule>) -> Seq<SpecQueued> {
    Seq::new(v.len(), |i: int| v[i]@)
}

pub open spec fn modules_view(v: Seq<RawModule>) -> Seq<SpecModule> {
    Seq::new(v.len(), |i: int| v[i]@)
}

impl View for ExprLoader {
    type V = LoaderState;

    closed spec fn view(&self) -> LoaderState {
        LoaderState {
            queue: queue_view(self.queue@),
            complete: modules_view(self.complete@),
            errors: self.errors@,
            files: self.files@,
            pending: match self.pending {
                Some(p) => Some((p.file_id, p.name@, p.loc)),
                None => None,
            },
        }
    }
}

/// A list of expressions with a location, as has every node of its expressions.
pub open spec fn located_list(l: Ranged<Seq<Ranged<SpecExpr>>>) -> bool {
    &&& l.range is Some
    &&& forall|j: int| 0 <= j < l.data.len() ==> located(#[trigger] l.data[j])
}

/// The invariant of a loader: no file is in the table twice and each has a
/// parent directory; the modules being loaded, and those loaded, are in known
/// files, no file twice among those being loaded, and have locations at every
/// node of their expressions; a file to read is known and not being loaded.
pub open spec fn loader_wf(st: LoaderState) -> bool {
    &&& distinct(st.files)
    &&& forall|i: int| 0 <= i < st.files.len() ==> has_parent(#[trigger] st.files[i])
    &&& forall|i: int| 0 <= i < st.queue.len() ==> (#[trigger] st.queue[i]).file < st.files.len()
    &&& forall|i: int| 0 <= i < st.complete.len() ==> (#[trigger] st.complete[i]).file_id < st.files.len()
    &&& forall|i: int| 0 <= i < st.queue.len() ==> located_list(#[trigger] st.queue[i].content)
    &&& forall|i: int| 0 <= i < st.complete.len() ==> located_list(#[trigger] st.complete[i].data)
    &&& forall|i: int, j: int| 0 <= i < j < st.queue.len() ==> st.queue[i].file != st.queue[j].file
    &&& st.pending matches Some((f, _, _)) ==> f < st.files.len() && forall|i: int|
        0 <= i < st.queue.len() ==> (#[trigger] st.queue[i]).file != f
}

/// The names of the modules being loaded, from the root down.
pub open spec fn queue_names(q: Seq<SpecQueued>) -> Seq<Seq<u8>> {
    Seq::new(q.len(), |i: int| q[i].name)
}

/// The module that a read source file adds to the queue, with the errors its
/// imports add; or the error if it does not parse.
pub open spec fn queued_of(src: Seq<u8>, file_id: usize, name: Seq<u8>, name_loc: Option<Location>)
    -> Result<(SpecQueued, Seq<LoadErrorKind>), LoadErrorKind>
{
    match p_mexpr(src) {
        Err(pos) => Err(LoadErrorKind::Parse(ParseError { pos: pos as usize }, file_id)),
        Ok(p) => {
            let (c, i, e) = root_fold(src, file_id, p.inner);
            Ok((SpecQueued { name, name_loc, file: file_id, imports: i, content: Ranged { data: c, range: Some(loc_of(p, file_id)) } }, e))
        },
    }
}

/// What the next step does: completes the modules at the end of the queue that
/// have no imports left, moving them to the loaded modules with the names of
/// the queue as their path, until the last module has an import left; takes
/// that import (its last one) and asks for it to be found.
pub open spec fn step_of(st: LoaderState) -> (LoaderState, Option<SpecRequest>)
    decreases st.queue.len(),
{
    if st.queue.len() == 0 {
        (st, None)
    } else {
        let last = st.queue.last();
        if last.imports.len() > 0 {
            let imp = last.imports.last();
            let q = st.queue.update(st.queue.len() - 1, SpecQueued { imports: last.imports.drop_last(), ..last });
            (
                LoaderState { queue: q, ..st },
                Some(SpecRequest {
                    name: imp.0,
                    loc: Location { file_id: last.file, span: imp.1 },
                    parent: last.name,
                    dir: parent_of(st.files[last.file as int]),
                }),
            )
        } else {
            let m = SpecModule { file_id: last.file, path: queue_names(st.queue), data: last.content };
            step_of(LoaderState { queue: st.queue.drop_last(), complete: st.complete.push(m), ..st })
        }
    }
}

/// Where each of the modules `q` was imported, skipping the root.
pub open spec fn import_locs(q: Seq<SpecQueued>) -> Seq<Location>
    decreases q.len(),
{
    if q.len() == 0 {
        Seq::empty()
    } else {
        let rest = import_locs(q.drop_last());
        match q.last().name_loc {
            Some(l) => rest.push(l),
            None => rest,
        }
    }
}

/// The locations of the cycle that an import at `loc` closes when the module
/// at `pos` in the queue is its target: where each module from `pos` on was
/// imported, then `loc`.
pub open spec fn cycle_of(q: Seq<SpecQueued>, pos: int, loc: Location) -> Seq<Location> {
    import_locs(q.subrange(pos, q.len() as int)).push(loc)
}

/// The first position in the queue of a module of the given file, if any.
pub open spec fn queue_position(q: Seq<SpecQueued>, file: usize) -> Option<int> {
    if exists|i: int| 0 <= i < q.len() && q[i].file == file {
        Some(choose|i: int| 0 <= i < q.len() && q[i].file == file && forall|j: int| 0 <= j < i ==> q[j].file != file)
    } else {
        None
    }
}

impl ExprLoader {
    /// A loader with nothing loaded.
    pub fn new() -> (r: Self)
        ensures
            r@.queue.len() == 0,
            r@.complete.len() == 0,
            r@.errors.len() == 0,
            r@.files.len() == 0,
            r@.pending is None,
            loader_wf(r@),
    {
        let r = ExprLoader { queue: Vec::new(), complete: Vec::new(), errors: Vec::new(), files: FileTable::new(), pending: None };
        assert(queue_view(r.queue@) =~= Seq::<SpecQueued>::empty());
        assert(modules_view(r.complete@) =~= Seq::<SpecModule>::empty());
        r
    }

    /// The files known so far.
    pub fn files(&self) -> (r: &FileTable)
        ensures
            r@ == self@.files,
    {
        &self.files
    }

    /// Reads the root file at `path` whose source is `source` (or why it
    /// could not be read): records the file, parses it, and queues its module,
    /// named after the file's stem. Fails, with nothing queued, if the source
    /// could not be read or does not parse.
    pub fn load_root(&mut self, path: Vec<u8>, source: Result<Vec<u8>, Vec<u8>>) -> (r: Result<(), LoadErrorKind>)
        requires
            loader_wf(old(self)@),
            old(self)@.queue.len() == 0,
            old(self)@.pending is None,
            source is Ok ==> has_parent(path@) && has_stem(path@),
        ensures
            loader_wf(final(self)@),
            match source {
                Err(msg) => r == Err::<(), LoadErrorKind>(LoadErrorKind::Io(None, msg)) && final(self)@ == old(self)@,
                Ok(src) => {
                    let (files, id) = append_of(old(self)@.files, path@);
                    match queued_of(src@, id as usize, stem_of(path@), None) {
                        Err(e) => r == Err::<(), LoadErrorKind>(e) && final(self)@ == LoaderState { files, ..old(self)@ },
                        Ok((q, e)) => r is Ok && final(self)@ == LoaderState {
                            files,
                            queue: old(self)@.queue.push(q),
                            errors: old(self)@.errors + e,
                            ..old(self)@
                        },
                    }
                },
            },
    {
        let src = match source {
            Err(msg) => {
                return Err(LoadErrorKind::Io(None, msg));
            },
            Ok(src) => src,
        };
        let name = file_stem(path.as_slice());
        proof {
            lemma_append_distinct(self.files@, path@);
        }
        let file_id = self.files.append(path);
        proof {
            lemma_queued_located(src@, file_id, name@, None);
        }
        match self.parse_source(src.as_slice(), file_id, name, None) {
            Err(e) => Err(e),
            Ok(()) => Ok(()),
        }
    }

    /// Parses a module's source and queues it; a source that does not parse
    /// gives its error and queues nothing.
    fn parse_source(&mut self, src: &[u8], file_id: usize, name: Vec<u8>, name_loc: Option<Location>)
        -> (r: Result<(), LoadErrorKind>)
        requires
            file_id < old(self)@.files.len(),
        ensures
            match queued_of(src@, file_id, name@, name_loc) {
                Err(e) => r == Err::<(), LoadErrorKind>(e) && final(self)@ == old(self)@,
                Ok((q, e)) => r is Ok && final(self)@ == LoaderState {
                    queue: old(self)@.queue.push(q),
                    errors: old(self)@.errors + e,
                    ..old(self)@
                },
            },
    {
        let pair = match MexprParser::parse_file(src) {
            Err(e) => {
                return Err(LoadErrorKind::Parse(e, file_id));
            },
            Ok(pair) => pair,
        };
        proof {
            lemma_mexpr_tree(src@);
            lemma_pair_inner(&pair);
        }
        let ghost old_view = self@;
        let (content, imports) = parse_root(src, &pair, file_id, &mut self.errors);
        let m = QueuedModule { name, name_loc, file: file_id, imports, content };
        let ghost mv = m@;
        let ghost old_q = self.queue@;
        self.queue.push(m);
        assert(queue_view(self.queue@) =~= queue_view(old_q).push(mv));
        Ok(())
    }

    /// The next import to find, after completing the modules that have no
    /// imports left (see [`step_of`]); `None` when every module is loaded.
    pub fn next_step(&mut self) -> (r: Option<ImportRequest>)
        requires
            loader_wf(old(self)@),
        ensures
            loader_wf(final(self)@),
            final(self)@ == step_of(old(self)@).0,
            match r {
                Some(q) => step_of(old(self)@).1 == Some(q@),
                None => step_of(old(self)@).1 is None,
            },
    {
        loop
            invariant
                loader_wf(self@),
                step_of(self@) == step_of(old(self)@),
            decreases self.queue.len(),
        {
            let ghost st = self@;
            if self.queue.len() == 0 {
                return None;
            }
            let ghost path = queue_names(st.queue);
            let names = self.queue_names();
            let mut m = self.queue.pop().unwrap();
            let ghost mv = m@;
            assert(queue_view(self.queue@) =~= st.queue.drop_last());
            assert(mv == st.queue.last());
            match m.imports.pop() {
                Some(imp) => {
                    let ghost imps = imports_view(m.imports@);
                    assert(imps =~= mv.imports.drop_last());
                    assert(st.queue[st.queue.len() - 1].file < st.files.len());
                    let dir = parent_dir(self.files.file(m.file).as_slice());
                    let req = ImportRequest {
                        name: imp.0,
                        loc: Location { file_id: m.file, span: imp.1 },
                        parent: copy_bytes(m.name.as_slice()),
                        dir,
                    };
                    let ghost mv2 = m@;
                    self.queue.push(m);
                    assert(queue_view(self.queue@) =~= st.queue.update(st.queue.len() - 1, mv2));
                    return Some(req);
                },
                None => {
                    let ghost old_c = self.complete@;
                    let module = RawModule { file_id: m.file, path: names, data: m.content };
                    self.complete.push(module);
                    assert(modules_view(self.complete@) =~= modules_view(old_c).push(
                        SpecModule { file_id: mv.file, path: path, data: mv.content },
                    ));
                },
            }
        }
    }

    fn queue_names(&self) -> (r: Vec<Vec<u8>>)
        ensures
            texts_view(r@) == queue_names(self@.queue),
    {
        let mut r: Vec<Vec<u8>> = Vec::new();
        let mut i: usize = 0;
        while i < self.queue.len()
            invariant
                i <= self.queue.len(),
                r@.len() == i,
                forall|k: int| 0 <= k < i ==> #[trigger] r@[k]@ == self@.queue[k].name,
            decreases self.queue.len() - i,
        {
            r.push(copy_bytes(self.queue[i].name.as_slice()));
            i += 1;
        }
        assert(texts_view(r@) =~= queue_names(self@.queue));
        r
    }

    /// Records where an import was found (`None` if nowhere): an import found
    /// nowhere, or whose file is being loaded already (a cycle), adds an
    /// error; otherwise the file is to be read next, and its path is returned.
    pub fn locate(&mut self, req: ImportRequest, found: Option<Vec<u8>>) -> (r: Option<Vec<u8>>)
        requires
            loader_wf(old(self)@),
            found matches Some(p) ==> has_parent(p@),
        ensures
            loader_wf(final(self)@),
            match found {
                None => r is None && final(self)@ == LoaderState {
                    errors: old(self)@.errors.push(LoadErrorKind::NotFound(req.loc)),
                    pending: None,
                    ..old(self)@
                },
                Some(path) => {
                    let (files, id) = append_of(old(self)@.files, path@);
                    match queue_position(old(self)@.queue, id as usize) {
                        Some(pos) => {
                            &&& r is None
                            &&& final(self)@.errors.drop_last() == old(self)@.errors
                            &&& final(self)@.errors.last() matches LoadErrorKind::Cycle(v)
                            &&& v@ == cycle_of(old(self)@.queue, pos, req.loc)
                            &&& final(self)@ == LoaderState {
                                files,
                                errors: final(self)@.errors,
                                pending: None,
                                ..old(self)@
                            }
                        },
                        None => {
                            &&& r matches Some(p) && p@ == path@
                            &&& final(self)@ == LoaderState {
                                files,
                                pending: Some((id as usize, req.name@, req.loc)),
                                ..old(self)@
                            }
                        },
                    }
                },
            },
    {
        self.pending = None;
        let path = match found {
            None => {
                self.errors.push(LoadErrorKind::NotFound(req.loc));
                return None;
            },
            Some(path) => path,
        };
        proof {
            lemma_append_distinct(self.files@, path@);
        }
        let copy = copy_bytes(path.as_slice());
        let file_id = self.files.append(path);
        match self.queue_position(file_id) {
            Some(pos) => {
                let locs = self.cycle_locs(pos, req.loc);
                self.errors.push(LoadErrorKind::Cycle(locs));
                None
            },
            None => {
                self.pending = Some(PendingRead { file_id, name: req.name, loc: req.loc });
                Some(copy)
            },
        }
    }

    fn queue_position(&self, file: usize) -> (r: Option<usize>)
        ensures
            match r {
                Some(i) => queue_position(self@.queue, file) == Some(i as int),
                None => queue_position(self@.queue, file) is None,
            },
    {
        let ghost q = self@.queue;
        let mut i: usize = 0;
        while i < self.queue.len()
            invariant
                i <= self.queue.len(),
                q == self@.queue,
                q.len() == self.queue.len(),
                forall|j: int| 0 <= j < i ==> q[j].file != file,
            decreases self.queue.len() - i,
        {
            assert(q[i as int] == self.queue@[i as int]@);
            if self.queue[i].file == file {
                proof {
                    let k = choose|k: int| 0 <= k < q.len() && q[k].file == file && forall|j: int| 0 <= j < k ==> q[j].file != file;
                    assert(0 <= k < q.len() && q[k].file == file && forall|j: int| 0 <= j < k ==> q[j].file != file);
                    if k < i {
                    } else if k > i {
                        assert(q[i as int].file == file);
                    }
                }
                return Some(i);
            }
            i += 1;
        }
        None
    }

    fn cycle_locs(&self, pos: usize, loc: Location) -> (r: Vec<Location>)
        requires
            pos <= self.queue.len(),
        ensures
            r@ == cycle_of(self@.queue, pos as int, loc),
    {
        let ghost q = self@.queue;
        let mut r: Vec<Location> = Vec::new();
        let mut i = pos;
        assert(q.subrange(pos as int, pos as int) =~= Seq::<SpecQueued>::empty());
        while i < self.queue.len()
            invariant
                pos <= i <= self.queue.len(),
                q == self@.queue,
                q.len() == self.queue.len(),
                r@ == import_locs(q.subrange(pos as int, i as int)),
            decreases self.queue.len() - i,
        {
            assert(q.subrange(pos as int, i + 1).drop_last() =~= q.subrange(pos as int, i as int));
            assert(q[i as int] == self.queue@[i as int]@);
            match self.queue[i].name_loc {
                Some(l) => r.push(l),
                None => {},
            }
            i += 1;
        }
        r.push(loc);
        r
    }

    /// Takes the source of the file to read next (or why it could not be
    /// read): a source that could not be read or does not parse adds an error;
    /// otherwise its module is queued. Without a file to read, does nothing.
    pub fn receive(&mut self, source: Result<Vec<u8>, Vec<u8>>)
        requires
            loader_wf(old(self)@),
        ensures
            loader_wf(final(self)@),
            match old(self)@.pending {
                None => final(self)@ == old(self)@,
                Some((id, name, loc)) => match source {
                    Err(msg) => final(self)@ == LoaderState {
                        errors: old(self)@.errors.push(LoadErrorKind::Io(Some(loc), msg)),
                        pending: None,
                        ..old(self)@
                    },
                    Ok(src) => match queued_of(src@, id, name, Some(loc)) {
                        Err(e) => final(self)@ == LoaderState {
                            errors: old(self)@.errors.push(e),
                            pending: None,
                            ..old(self)@
                        },
                        Ok((q, e)) => final(self)@ == LoaderState {
                            queue: old(self)@.queue.push(q),
                            errors: old(self)@.errors + e,
                            pending: None,
                            ..old(self)@
                        },
                    },
                },
            },
    {
        let pending = match self.pending.take() {
            None => {
                return;
            },
            Some(p) => p,
        };
        let src = match source {
            Err(msg) => {
                self.errors.push(LoadErrorKind::Io(Some(pending.loc), msg));
                return;
            },
            Ok(src) => src,
        };
        proof {
            lemma_queued_located(src@, pending.file_id, pending.name@, Some(pending.loc));
        }
        match self.parse_source(src.as_slice(), pending.file_id, pending.name, Some(pending.loc)) {
            Err(e) => {
                self.errors.push(e);
            },
            Ok(()) => {},
        }
    }

    /// The files, and the loaded modules, or the errors if there are any.
    pub fn finish(self) -> (r: (FileTable, Result<Vec<RawModule>, Vec<LoadErrorKind>>))
        ensures
            r.0@ == self@.files,
            self@.errors.len() == 0 ==> (r.1 matches Ok(v) && modules_view(v@) == self@.complete),
            self@.errors.len() > 0 ==> (r.1 matches Err(v) && v@ == self@.errors),
            loader_wf(self@) ==> forall|i: int| 0 <= i < self@.complete.len() ==> (#[trigger] self@.complete[i]).file_id < r.0@.len(),
    {
        let res = if self.errors.len() == 0 {
            Ok(self.complete)
        } else {
            Err(self.errors)
        };
        (self.files, res)
    }
}


/// A fresh copy of an expression.
pub fn copy_expr(e: &RawExpr) -> (r: RawExpr)
    ensures
        r@ == e@,
    decreases e,
{
    match e {
        RawExpr::Apply { head, body } => {
            let b = copy_exprs(body);
            let r = RawExpr::Apply { head: Ranged { data: copy_bytes(head.data.as_slice()), range: head.range }, body: b };
            proof {
                lemma_expr_children(r);
                lemma_expr_children(*e);
            }
            r
        },
        RawExpr::List(body) => {
            let b = copy_exprs(body);
            let r = RawExpr::List(b);
            proof {
                lemma_expr_children(r);
                lemma_expr_children(*e);
            }
            r
        },
        RawExpr::Name(s) => RawExpr::Name(copy_bytes(s.as_slice())),
        RawExpr::Decimal(s) => RawExpr::Decimal(copy_bytes(s.as_slice())),
        RawExpr::Hexdecimal(s) => RawExpr::Hexdecimal(copy_bytes(s.as_slice())),
        RawExpr::String(s) => RawExpr::String(copy_bytes(s.as_slice())),
        RawExpr::Ty { name, data } => RawExpr::Ty {
            name: Ranged { data: copy_bytes(name.data.as_slice()), range: name.range },
            data: Box::new(copy_rexpr(data)),
        },
        RawExpr::Def { name, data } => RawExpr::Def {
            name: Ranged { data: copy_bytes(name.data.as_slice()), range: name.range },
            data: Box::new(copy_rexpr(data)),
        },
        RawExpr::Path(p) => RawExpr::Path(p.duplicate()),
    }
}

/// A fresh copy of a located expression.
pub fn copy_rexpr(e: &Ranged<RawExpr>) -> (r: Ranged<RawExpr>)
    ensures
        rexpr(r) == rexpr(*e),
    decreases e,
{
    Ranged { data: copy_expr(&e.data), range: e.range }
}

/// A fresh copy of a list of located expressions.
pub fn copy_exprs(v: &Vec<Ranged<RawExpr>>) -> (r: Vec<Ranged<RawExpr>>)
    ensures
        rexprs(r@) == rexprs(v@),
    decreases v,
{
    let mut r: Vec<Ranged<RawExpr>> = Vec::new();
    let mut i: usize = 0;
    while i < v.len()
        invariant
            i <= v.len(),
            r@.len() == i,
            forall|k: int| 0 <= k < i ==> #[trigger] rexpr(r@[k]) == rexpr(v@[k]),
        decreases v.len() - i,
    {
        r.push(copy_rexpr(&v[i]));
        i += 1;
    }
    assert(rexprs(r@) =~= rexprs(v@));
    r
}

} // verus!

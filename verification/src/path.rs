//! Paths that name the parts of a module tree, and their orders.

use vstd::prelude::*;
use crate::text::{copy_bytes, copy_range, is_word};
use vstd::string::StringSliceAdditionalSpecFns;
use crate::expr::{Location, Ranged, RawExpr, SpecExpr, RawModule, SpecModule, rexpr, rexprs, rlist, copy_rexpr, lemma_expr_children, modules_view};
use crate::sort::{PathKeyed, sort_by_path, sort_by_path_exec, sort_with, key_fn, lemma_sort_map, lemma_sort_by_path, sorted_by_path, lemma_sort_with};
use crate::order::{Order, byte_order, byte_fn, lemma_lex_unfold, flip, then, int_order, lex_order, bytes_order, total_order, lemma_byte_total, lemma_lex_total, lemma_lex_equal, lemma_lex_flip, lemma_lex_trans};

verus! {

/// One step of a data path: a position in a product, or a field name.
#[derive(Debug, Clone, PartialEq, Eq)]
pub enum PathSegment {
    Pos(usize),
    Name(Vec<u8>),
}

/// The mathematical value of a [`PathSegment`].
pub enum SpecSegment {
    Pos(usize),
    Name(Seq<u8>),
}

impl View for PathSegment {
    type V = SpecSegment;

    open spec fn view(&self) -> SpecSegment {
        match self {
            PathSegment::Pos(n) => SpecSegment::Pos(*n),
            PathSegment::Name(s) => SpecSegment::Name(s@),
        }
    }
}

/// A path: the modules it goes through, then the steps inside a definition.
#[derive(Debug, Clone, PartialEq, Eq, Default)]
pub struct RzPath {
    pub modules: Vec<Vec<u8>>,
    pub data: Vec<PathSegment>,
}

/// The mathematical value of an [`RzPath`].
pub struct SpecPath {
    pub modules: Seq<Seq<u8>>,
    pub data: Seq<SpecSegment>,
}

pub open spec fn texts_view(v: Seq<Vec<u8>>) -> Seq<Seq<u8>> {
    v.map_values(|t: Vec<u8>| t@)
}

pub open spec fn segments_view(v: Seq<PathSegment>) -> Seq<SpecSegment> {
    v.map_values(|s: PathSegment| s@)
}

impl View for RzPath {
    type V = SpecPath;

    open spec fn view(&self) -> SpecPath {
        SpecPath { modules: texts_view(self.modules@), data: segments_view(self.data@) }
    }
}

/// The order of path segments: positions before names, each in its natural order.
pub open spec fn segment_order(a: SpecSegment, b: SpecSegment) -> Order {
    match (a, b) {
        (SpecSegment::Pos(x), SpecSegment::Pos(y)) => int_order(x as int, y as int),
        (SpecSegment::Pos(_), SpecSegment::Name(_)) => Order::Less,
        (SpecSegment::Name(_), SpecSegment::Pos(_)) => Order::Greater,
        (SpecSegment::Name(x), SpecSegment::Name(y)) => bytes_order(x, y),
    }
}

pub open spec fn bytes_fn() -> spec_fn(Seq<u8>, Seq<u8>) -> Order {
    |x: Seq<u8>, y: Seq<u8>| bytes_order(x, y)
}

pub open spec fn segment_fn() -> spec_fn(SpecSegment, SpecSegment) -> Order {
    |x: SpecSegment, y: SpecSegment| segment_order(x, y)
}

/// The order of paths: by modules, then by data, each lexicographically.
pub open spec fn path_order(a: SpecPath, b: SpecPath) -> Order {
    then(lex_order(a.modules, b.modules, bytes_fn()), lex_order(a.data, b.data, segment_fn()))
}

pub open spec fn path_fn() -> spec_fn(SpecPath, SpecPath) -> Order {
    |x: SpecPath, y: SpecPath| path_order(x, y)
}

/// A path with no data steps names a module.
pub open spec fn is_module(p: SpecPath) -> bool {
    p.data.len() == 0
}

/// How `s` stands to `prefix`: the lexicographic order of their modules;
/// unless both are module paths, then the number of their modules, then the
/// lexicographic order of their data steps. This is the order of paths (see
/// [`lemma_prefix_order_is_path_order`]).
pub open spec fn prefix_order(s: SpecPath, prefix: SpecPath) -> Order {
    let m = lex_order(s.modules, prefix.modules, bytes_fn());
    if is_module(s) && is_module(prefix) {
        m
    } else {
        then(
            then(m, int_order(s.modules.len() as int, prefix.modules.len() as int)),
            lex_order(s.data, prefix.data, segment_fn()),
        )
    }
}

pub proof fn lemma_bytes_total()
    ensures
        total_order(bytes_fn()),
{
    lemma_byte_total();
    lemma_lex_total(byte_fn());
    assert(bytes_fn() == (|a: Seq<u8>, b: Seq<u8>| lex_order(a, b, byte_fn())));
}

pub proof fn lemma_segment_total()
    ensures
        total_order(segment_fn()),
{
    lemma_bytes_total();
    let f = segment_fn();
    assert forall|x: SpecSegment, y: SpecSegment| #[trigger] f(x, y) == Order::Equal <==> x == y by {
        match (x, y) {
            (SpecSegment::Name(a), SpecSegment::Name(b)) => {
                assert(bytes_fn()(a, b) == Order::Equal <==> a == b);
            },
            _ => {},
        }
    }
    assert forall|x: SpecSegment, y: SpecSegment| #[trigger] f(x, y) == flip(f(y, x)) by {
        match (x, y) {
            (SpecSegment::Name(a), SpecSegment::Name(b)) => {
                assert(bytes_fn()(a, b) == flip(bytes_fn()(b, a)));
            },
            _ => {},
        }
    }
    assert forall|x: SpecSegment, y: SpecSegment, z: SpecSegment|
        #[trigger] f(x, y) == Order::Less && #[trigger] f(y, z) == Order::Less implies f(x, z)
            == Order::Less by {
        match (x, y, z) {
            (SpecSegment::Name(a), SpecSegment::Name(b), SpecSegment::Name(c)) => {
                assert(bytes_fn()(a, b) == Order::Less && bytes_fn()(b, c) == Order::Less);
            },
            _ => {},
        }
    }
}

proof fn lemma_path_equal(x: SpecPath, y: SpecPath)
    ensures
        path_order(x, y) == Order::Equal <==> x == y,
{
    lemma_bytes_total();
    lemma_segment_total();
    lemma_lex_equal(x.modules, y.modules, bytes_fn());
    lemma_lex_equal(x.data, y.data, segment_fn());
}

proof fn lemma_path_flip(x: SpecPath, y: SpecPath)
    ensures
        path_order(x, y) == flip(path_order(y, x)),
{
    lemma_bytes_total();
    lemma_segment_total();
    lemma_lex_flip(x.modules, y.modules, bytes_fn());
    lemma_lex_flip(x.data, y.data, segment_fn());
}

proof fn lemma_path_trans(x: SpecPath, y: SpecPath, z: SpecPath)
    requires
        path_order(x, y) == Order::Less,
        path_order(y, z) == Order::Less,
    ensures
        path_order(x, z) == Order::Less,
{
    lemma_bytes_total();
    lemma_segment_total();
    let bf = bytes_fn();
    lemma_lex_equal(x.modules, y.modules, bf);
    lemma_lex_equal(y.modules, z.modules, bf);
    lemma_lex_equal(x.modules, z.modules, bf);
    let (mxy, myz) = (lex_order(x.modules, y.modules, bf), lex_order(y.modules, z.modules, bf));
    if mxy == Order::Less && myz == Order::Less {
        lemma_lex_trans(x.modules, y.modules, z.modules, bf);
    } else if mxy == Order::Equal && myz == Order::Equal {
        lemma_lex_trans(x.data, y.data, z.data, segment_fn());
    }
}

/// The order of paths is a total order.
pub proof fn lemma_path_total()
    ensures
        total_order(path_fn()),
{
    let f = path_fn();
    assert forall|x: SpecPath, y: SpecPath| #[trigger] f(x, y) == Order::Equal <==> x == y by {
        lemma_path_equal(x, y);
    }
    assert forall|x: SpecPath, y: SpecPath| #[trigger] f(x, y) == flip(f(y, x)) by {
        lemma_path_flip(x, y);
    }
    assert forall|x: SpecPath, y: SpecPath, z: SpecPath|
        #[trigger] f(x, y) == Order::Less && #[trigger] f(y, z) == Order::Less implies f(x, z)
            == Order::Less by {
        lemma_path_trans(x, y, z);
    }
}

/// [`RzPath::prefix_cmp`] compares paths in the order of paths: modules
/// equal in the lexicographic order have the same number of modules, and two
/// module paths have no data steps.
pub proof fn lemma_prefix_order_is_path_order(a: SpecPath, b: SpecPath)
    ensures
        prefix_order(a, b) == path_order(a, b),
{
    lemma_bytes_total();
    lemma_segment_total();
    lemma_lex_equal(a.modules, b.modules, bytes_fn());
    lemma_lex_equal(a.data, b.data, segment_fn());
}

/// A path compared with itself by [`RzPath::prefix_cmp`] is `Equal`.
pub proof fn lemma_prefix_order_reflexive(p: SpecPath)
    ensures
        prefix_order(p, p) == Order::Equal,
{
    lemma_prefix_order_is_path_order(p, p);
    lemma_path_equal(p, p);
}

/// [`RzPath::prefix_cmp`] chains, for all paths: if `a` stands to `b` as `b`
/// stands to `c`, then `a` stands to `c` the same way.
pub proof fn lemma_prefix_order_chains(a: SpecPath, b: SpecPath, c: SpecPath)
    requires
        prefix_order(a, b) == prefix_order(b, c),
    ensures
        prefix_order(a, c) == prefix_order(a, b),
{
    lemma_prefix_order_is_path_order(a, b);
    lemma_prefix_order_is_path_order(b, c);
    lemma_prefix_order_is_path_order(a, c);
    lemma_path_equal(a, b);
    lemma_path_equal(b, c);
    if path_order(a, b) == Order::Less {
        lemma_path_trans(a, b, c);
    } else if path_order(a, b) == Order::Greater {
        lemma_path_flip(a, b);
        lemma_path_flip(b, c);
        lemma_path_flip(a, c);
        lemma_path_trans(c, b, a);
    }
}


/// Compares byte strings in the order of `str`.
pub fn compare_bytes(a: &[u8], b: &[u8]) -> (r: Order)
    ensures
        r == bytes_order(a@, b@),
{
    let mut i: usize = 0;
    assert(a@.skip(0) == a@ && b@.skip(0) == b@);
    while i < a.len() && i < b.len()
        invariant
            i <= a.len(),
            i <= b.len(),
            bytes_order(a@, b@) == lex_order(a@.skip(i as int), b@.skip(i as int), byte_fn()),
        decreases a.len() - i,
    {
        proof {
            lemma_lex_unfold(a@, b@, byte_fn(), i as int);
        }
        if a[i] < b[i] {
            return Order::Less;
        } else if a[i] > b[i] {
            return Order::Greater;
        }
        i += 1;
    }
    assert(a@.skip(i as int).len() == a.len() - i);
    if a.len() == i {
        if b.len() == i { Order::Equal } else { Order::Less }
    } else {
        Order::Greater
    }
}

/// Compares path segments.
pub fn compare_segment(a: &PathSegment, b: &PathSegment) -> (r: Order)
    ensures
        r == segment_order(a@, b@),
{
    match (a, b) {
        (PathSegment::Pos(x), PathSegment::Pos(y)) => {
            if *x < *y {
                Order::Less
            } else if *x == *y {
                Order::Equal
            } else {
                Order::Greater
            }
        },
        (PathSegment::Pos(_), PathSegment::Name(_)) => Order::Less,
        (PathSegment::Name(_), PathSegment::Pos(_)) => Order::Greater,
        (PathSegment::Name(x), PathSegment::Name(y)) => compare_bytes(x.as_slice(), y.as_slice()),
    }
}

/// Compares module lists lexicographically.
fn compare_modules(a: &[Vec<u8>], b: &[Vec<u8>]) -> (r: Order)
    ensures
        r == lex_order(texts_view(a@), texts_view(b@), bytes_fn()),
{
    let ghost (ta, tb) = (texts_view(a@), texts_view(b@));
    let mut i: usize = 0;
    assert(ta.skip(0) == ta && tb.skip(0) == tb);
    while i < a.len() && i < b.len()
        invariant
            i <= a.len(),
            i <= b.len(),
            ta == texts_view(a@),
            tb == texts_view(b@),
            lex_order(ta, tb, bytes_fn()) == lex_order(ta.skip(i as int), tb.skip(i as int), bytes_fn()),
        decreases a.len() - i,
    {
        proof {
            lemma_lex_unfold(ta, tb, bytes_fn(), i as int);
        }
        let c = compare_bytes(a[i].as_slice(), b[i].as_slice());
        if c != Order::Equal {
            return c;
        }
        i += 1;
    }
    assert(ta.skip(i as int).len() == a.len() - i);
    assert(tb.skip(i as int).len() == b.len() - i);
    if a.len() == i {
        if b.len() == i { Order::Equal } else { Order::Less }
    } else {
        Order::Greater
    }
}

/// Compares lists of data steps lexicographically.
fn compare_segments(a: &[PathSegment], b: &[PathSegment]) -> (r: Order)
    ensures
        r == lex_order(segments_view(a@), segments_view(b@), segment_fn()),
{
    let ghost (ta, tb) = (segments_view(a@), segments_view(b@));
    let mut i: usize = 0;
    assert(ta.skip(0) == ta && tb.skip(0) == tb);
    while i < a.len() && i < b.len()
        invariant
            i <= a.len(),
            i <= b.len(),
            ta == segments_view(a@),
            tb == segments_view(b@),
            lex_order(ta, tb, segment_fn()) == lex_order(ta.skip(i as int), tb.skip(i as int), segment_fn()),
        decreases a.len() - i,
    {
        proof {
            lemma_lex_unfold(ta, tb, segment_fn(), i as int);
        }
        let c = compare_segment(&a[i], &b[i]);
        if c != Order::Equal {
            return c;
        }
        i += 1;
    }
    assert(ta.skip(i as int).len() == a.len() - i);
    assert(tb.skip(i as int).len() == b.len() - i);
    if a.len() == i {
        if b.len() == i { Order::Equal } else { Order::Less }
    } else {
        Order::Greater
    }
}

/// Compares two paths in the order of paths.
pub fn compare_paths(a: &RzPath, b: &RzPath) -> (r: Order)
    ensures
        r == path_order(a@, b@),
{
    let m = compare_modules(a.modules.as_slice(), b.modules.as_slice());
    if m != Order::Equal {
        return m;
    }
    compare_segments(a.data.as_slice(), b.data.as_slice())
}


/// The standard ordering that an [`Order`] stands for.
pub open spec fn ordering_of(o: Order) -> core::cmp::Ordering {
    match o {
        Order::Less => core::cmp::Ordering::Less,
        Order::Equal => core::cmp::Ordering::Equal,
        Order::Greater => core::cmp::Ordering::Greater,
    }
}

fn to_ordering(o: Order) -> (r: core::cmp::Ordering)
    ensures
        r == ordering_of(o),
{
    match o {
        Order::Less => core::cmp::Ordering::Less,
        Order::Equal => core::cmp::Ordering::Equal,
        Order::Greater => core::cmp::Ordering::Greater,
    }
}

/// A fresh copy of a list of byte strings.
pub fn copy_texts(v: &[Vec<u8>]) -> (r: Vec<Vec<u8>>)
    ensures
        texts_view(r@) == texts_view(v@),
{
    let mut r: Vec<Vec<u8>> = Vec::new();
    let mut i: usize = 0;
    while i < v.len()
        invariant
            i <= v.len(),
            r@.len() == i,
            forall|k: int| 0 <= k < i ==> #[trigger] r@[k]@ == v@[k]@,
        decreases v.len() - i,
    {
        r.push(copy_bytes(v[i].as_slice()));
        i += 1;
    }
    assert(texts_view(r@) =~= texts_view(v@));
    r
}

impl PathSegment {
    /// A fresh copy of the segment.
    pub fn duplicate(&self) -> (r: PathSegment)
        ensures
            r@ == self@,
    {
        match self {
            PathSegment::Pos(n) => PathSegment::Pos(*n),
            PathSegment::Name(s) => PathSegment::Name(copy_bytes(s.as_slice())),
        }
    }
}

/// A fresh copy of a list of segments.
pub fn copy_segments(v: &[PathSegment]) -> (r: Vec<PathSegment>)
    ensures
        segments_view(r@) == segments_view(v@),
{
    let mut r: Vec<PathSegment> = Vec::new();
    let mut i: usize = 0;
    while i < v.len()
        invariant
            i <= v.len(),
            r@.len() == i,
            forall|k: int| 0 <= k < i ==> #[trigger] r@[k]@ == v@[k]@,
        decreases v.len() - i,
    {
        r.push(v[i].duplicate());
        i += 1;
    }
    assert(segments_view(r@) =~= segments_view(v@));
    r
}

impl RzPath {
    /// A fresh copy of the path.
    pub fn duplicate(&self) -> (r: RzPath)
        ensures
            r@ == self@,
    {
        RzPath { modules: copy_texts(self.modules.as_slice()), data: copy_segments(self.data.as_slice()) }
    }

    /// Whether the path has neither modules nor data.
    pub fn is_empty(&self) -> (r: bool)
        ensures
            r == (self@.modules.len() == 0 && self@.data.len() == 0),
    {
        self.modules.len() == 0 && self.data.len() == 0
    }

    /// Whether the path names a module (it has no data steps).
    pub fn is_module_path(&self) -> (r: bool)
        ensures
            r == is_module(self@),
    {
        self.data.len() == 0
    }

    /// Whether the path goes into a definition (it has data steps).
    pub fn is_data_path(&self) -> (r: bool)
        ensures
            r == !is_module(self@),
    {
        !self.is_module_path()
    }

    /// Drops the last data step, or, for a module path, the last module (if any).
    pub fn pop(&mut self)
        ensures
            final(self)@ == pop_spec(old(self)@),
    {
        if self.data.len() == 0 {
            let _ = self.modules.pop();
            proof {
                if old(self).modules.len() > 0 {
                    assert(texts_view(self.modules@) == texts_view(old(self).modules@).drop_last());
                }
            }
        } else {
            let _ = self.data.pop();
            assert(segments_view(self.data@) == segments_view(old(self).data@).drop_last());
        }
    }

    /// How this path stands to `prefix` (see [`prefix_order`]).
    pub fn prefix_cmp(&self, prefix: &RzPath) -> (r: core::cmp::Ordering)
        ensures
            r == ordering_of(prefix_order(self@, prefix@)),
    {
        let m = compare_modules(self.modules.as_slice(), prefix.modules.as_slice());
        if self.is_module_path() && prefix.is_module_path() {
            return to_ordering(m);
        }
        if m != Order::Equal {
            return to_ordering(m);
        }
        let (ls, lp) = (self.modules.len(), prefix.modules.len());
        if ls < lp {
            return to_ordering(Order::Less);
        } else if ls > lp {
            return to_ordering(Order::Greater);
        }
        to_ordering(compare_segments(self.data.as_slice(), prefix.data.as_slice()))
    }

    /// Removes every module and every data step.
    pub fn clear(&mut self)
        ensures
            final(self)@.modules.len() == 0,
            final(self)@.data.len() == 0,
    {
        self.modules.clear();
        self.data.clear();
    }
}

/// The path without its last data step, or, for a module path, without its last module.
pub open spec fn pop_spec(p: SpecPath) -> SpecPath {
    if p.data.len() == 0 {
        if p.modules.len() == 0 { p } else { SpecPath { modules: p.modules.drop_last(), data: p.data } }
    } else {
        SpecPath { modules: p.modules, data: p.data.drop_last() }
    }
}


/// The rows of a path table: a path and the type found at it.
#[derive(Debug, Clone, PartialEq, Eq)]
pub struct TypeRow<T> {
    pub path: RzPath,
    pub ty: T,
}

/// The mathematical value of a [`TypeRow`].
pub struct SpecTypeRow<V> {
    pub path: SpecPath,
    pub ty: V,
}

impl<T: View> View for TypeRow<T> {
    type V = SpecTypeRow<T::V>;

    open spec fn view(&self) -> SpecTypeRow<T::V> {
        SpecTypeRow { path: self.path@, ty: self.ty@ }
    }
}

impl<T> PathKeyed for TypeRow<T> {
    open spec fn key(&self) -> SpecPath {
        self.path@
    }

    fn key_path(&self) -> (r: &RzPath) {
        &self.path
    }
}

/// The rows of names: a path, and the name it is known by, with where that name stands.
#[derive(Debug, Clone, PartialEq, Eq)]
pub struct NameRow {
    pub path: RzPath,
    pub name: Ranged<RzPath>,
}

/// The mathematical value of a [`NameRow`].
pub struct SpecNameRow {
    pub path: SpecPath,
    pub name: Ranged<SpecPath>,
}

impl View for NameRow {
    type V = SpecNameRow;

    open spec fn view(&self) -> SpecNameRow {
        SpecNameRow { path: self.path@, name: self.name@ }
    }
}

impl PathKeyed for NameRow {
    open spec fn key(&self) -> SpecPath {
        self.path@
    }

    fn key_path(&self) -> (r: &RzPath) {
        &self.path
    }
}

/// The parts of a module tree by path: the types, the names, and the paths of definitions.
#[derive(Debug, Clone, PartialEq, Eq)]
pub struct PathTable<T> {
    pub rows: Vec<TypeRow<T>>,
    pub names: Vec<NameRow>,
    pub defs: Vec<RzPath>,
}

/// The mathematical value of a [`PathTable`].
pub struct SpecTable<V> {
    pub rows: Seq<SpecTypeRow<V>>,
    pub names: Seq<SpecNameRow>,
    pub defs: Seq<SpecPath>,
}

pub open spec fn row_value_fn<T: View>() -> spec_fn(TypeRow<T>) -> SpecTypeRow<T::V> {
    |r: TypeRow<T>| r@
}

pub open spec fn name_value_fn() -> spec_fn(NameRow) -> SpecNameRow {
    |r: NameRow| r@
}

pub open spec fn rows_view<T: View>(v: Seq<TypeRow<T>>) -> Seq<SpecTypeRow<T::V>> {
    v.map_values(row_value_fn())
}

pub open spec fn names_view(v: Seq<NameRow>) -> Seq<SpecNameRow> {
    v.map_values(name_value_fn())
}

pub open spec fn paths_view(v: Seq<RzPath>) -> Seq<SpecPath> {
    v.map_values(|r: RzPath| r@)
}

impl<T: View> View for PathTable<T> {
    type V = SpecTable<T::V>;

    open spec fn view(&self) -> SpecTable<T::V> {
        SpecTable { rows: rows_view(self.rows@), names: names_view(self.names@), defs: paths_view(self.defs@) }
    }
}

impl<T> PathTable<T> {
    /// An empty table.
    pub fn default() -> (r: Self)
        ensures
            r.rows@.len() == 0,
            r.names@.len() == 0,
            r.defs@.len() == 0,
    {
        PathTable { rows: Vec::new(), names: Vec::new(), defs: Vec::new() }
    }
}

/// Why a module tree could not be turned into a path table.
#[derive(Debug, Clone, Copy, PartialEq, Eq, Structural)]
pub enum ExprConvertError {
    /// A top-level expression is neither a definition, a type, nor an annotation.
    UnboundValue(Location),
}

/// What a walk over expressions adds to a path table.
pub struct Walk {
    pub rows: Seq<SpecTypeRow<Ranged<SpecExpr>>>,
    pub names: Seq<SpecNameRow>,
    pub defs: Seq<SpecPath>,
}

pub open spec fn walk_empty() -> Walk {
    Walk { rows: Seq::empty(), names: Seq::empty(), defs: Seq::empty() }
}

pub open spec fn walk_join(a: Walk, b: Walk) -> Walk {
    Walk { rows: a.rows + b.rows, names: a.names + b.names, defs: a.defs + b.defs }
}

/// `p` with one more data step.
pub open spec fn push_seg(p: SpecPath, s: SpecSegment) -> SpecPath {
    SpecPath { modules: p.modules, data: p.data.push(s) }
}

/// A value found at the current path `cp`, known by the name `cn`: with a
/// position, a step deeper, with a row and a name starting where it stands;
/// without one, just a row.
pub open spec fn walk_data(cp: SpecPath, cn: SpecPath, data: Ranged<SpecExpr>, num: Option<usize>) -> Walk {
    match num {
        Some(n) => {
            let cp2 = push_seg(cp, SpecSegment::Pos(n));
            let cn2 = push_seg(cn, SpecSegment::Pos(n));
            Walk {
                rows: seq![SpecTypeRow { path: cp2, ty: data }],
                names: seq![SpecNameRow {
                    path: cp2,
                    name: Ranged {
                        data: cn2,
                        range: match data.range {
                            Some(l) => Some(Location { file_id: l.file_id, span: crate::expr::Span { from: l.span.from, to: l.span.from } }),
                            None => None,
                        },
                    },
                }],
                defs: Seq::empty(),
            }
        },
        None => Walk { rows: seq![SpecTypeRow { path: cp, ty: data }], names: Seq::empty(), defs: Seq::empty() },
    }
}

/// A body that can be walked: not itself a `ty` or `def`, and every `ty` or
/// `def` directly inside it (as a list) has such a body too.
pub open spec fn body_ok(body: Ranged<SpecExpr>) -> bool
    decreases body,
{
    match body.data {
        SpecExpr::Ty { .. } | SpecExpr::Def { .. } => false,
        SpecExpr::List(items) => forall|k: int|
            0 <= k < items.len() ==> match (#[trigger] items[k]).data {
                SpecExpr::Ty { data, .. } => body_ok(*data),
                SpecExpr::Def { data, .. } => body_ok(*data),
                _ => true,
            },
        _ => true,
    }
}

/// A type named `name` with the given body, at `cp` and known by `cn`: a step
/// deeper (by position if it has one, else by name; its name always by name),
/// it adds its name, then what its body adds: each item of a list, or the body
/// as one value.
pub open spec fn walk_ty(cp: SpecPath, cn: SpecPath, name: Ranged<Seq<u8>>, body: Ranged<SpecExpr>, number: Option<usize>) -> Walk
    decreases body, 0int,
{
    let cp2 = push_seg(cp, match number {
        Some(n) => SpecSegment::Pos(n),
        None => SpecSegment::Name(name.data),
    });
    let cn2 = push_seg(cn, SpecSegment::Name(name.data));
    let row = SpecNameRow { path: cp2, name: Ranged { data: cn2, range: name.range } };
    let inner = match body.data {
        SpecExpr::List(items) => walk_list(cp2, cn2, items, items.len() as int).0,
        _ => walk_data(cp2, cn2, body, None),
    };
    walk_join(Walk { rows: Seq::empty(), names: seq![row], defs: Seq::empty() }, inner)
}

/// A definition: its path by name is a definition, then it is walked as a type.
pub open spec fn walk_def(cp: SpecPath, cn: SpecPath, name: Ranged<Seq<u8>>, body: Ranged<SpecExpr>) -> Walk
    decreases body, 1int,
{
    walk_join(
        Walk { rows: Seq::empty(), names: Seq::empty(), defs: seq![push_seg(cp, SpecSegment::Name(name.data))] },
        walk_ty(cp, cn, name, body, None),
    )
}

/// The items `items[..k]` of a list, and the number of positions they took:
/// definitions take none, annotations are skipped, types and values take the next.
pub open spec fn walk_list(cp: SpecPath, cn: SpecPath, items: Seq<Ranged<SpecExpr>>, k: int) -> (Walk, nat)
    decreases items, k,
{
    if k <= 0 || k > items.len() {
        (walk_empty(), 0)
    } else {
        let (w, num) = walk_list(cp, cn, items, k - 1);
        let e = items[k - 1];
        match e.data {
            SpecExpr::Def { name, data } => (walk_join(w, walk_def(cp, cn, name, *data)), num),
            SpecExpr::Ty { name, data } => (walk_join(w, walk_ty(cp, cn, name, *data, Some(num as usize))), num + 1),
            SpecExpr::Apply { head, .. } => if head.data == "ann".spec_bytes() {
                (w, num)
            } else {
                (walk_join(w, walk_data(cp, cn, e, Some(num as usize))), num + 1)
            },
            _ => (walk_join(w, walk_data(cp, cn, e, Some(num as usize))), num + 1),
        }
    }
}

/// A top-level expression that can be walked: a definition or type with a
/// body that can be, an annotation, or something with a location to report.
pub open spec fn top_ok(e: Ranged<SpecExpr>) -> bool {
    match e.data {
        SpecExpr::Def { data, .. } => body_ok(*data),
        SpecExpr::Ty { data, .. } => body_ok(*data),
        SpecExpr::Apply { head, .. } => head.data == "ann".spec_bytes() || head.data == "meta".spec_bytes() || e.range is Some,
        _ => e.range is Some,
    }
}

/// The top-level expressions `items[..k]` of the module at `cp`: definitions
/// and types are walked, annotations and metadata skipped, anything else is an error.
pub open spec fn walk_top(cp: SpecPath, items: Seq<Ranged<SpecExpr>>, k: int) -> (Walk, Seq<ExprConvertError>)
    decreases k,
{
    if k <= 0 || k > items.len() {
        (walk_empty(), Seq::empty())
    } else {
        let (w, errs) = walk_top(cp, items, k - 1);
        let e = items[k - 1];
        match e.data {
            SpecExpr::Def { name, data } => (walk_join(w, walk_def(cp, cp, name, *data)), errs),
            SpecExpr::Ty { name, data } => (walk_join(w, walk_ty(cp, cp, name, *data, None)), errs),
            SpecExpr::Apply { head, .. } => if head.data == "ann".spec_bytes() || head.data == "meta".spec_bytes() {
                (w, errs)
            } else {
                (w, errs.push(ExprConvertError::UnboundValue(e.range.unwrap())))
            },
            _ => (w, errs.push(ExprConvertError::UnboundValue(e.range.unwrap()))),
        }
    }
}

/// The path of a module: its names, and no data.
pub open spec fn module_root(m: SpecModule) -> SpecPath {
    SpecPath { modules: m.path, data: Seq::empty() }
}

/// What the modules `mods[..k]` add, in order.
pub open spec fn walk_modules(mods: Seq<SpecModule>, k: int) -> (Walk, Seq<ExprConvertError>)
    decreases k,
{
    if k <= 0 || k > mods.len() {
        (walk_empty(), Seq::empty())
    } else {
        let (w, errs) = walk_modules(mods, k - 1);
        let m = mods[k - 1];
        let (w2, errs2) = walk_top(module_root(m), m.data.data, m.data.data.len() as int);
        (walk_join(w, w2), errs + errs2)
    }
}

/// Modules that can be walked: each of their top-level expressions can be.
pub open spec fn modules_ok(mods: Seq<SpecModule>) -> bool {
    forall|i: int, k: int| 0 <= i < mods.len() && 0 <= k < mods[i].data.data.len() ==> top_ok(#[trigger] mods[i].data.data[k])
}

pub open spec fn row_key() -> spec_fn(SpecTypeRow<Ranged<SpecExpr>>) -> SpecPath {
    |r: SpecTypeRow<Ranged<SpecExpr>>| r.path
}

pub open spec fn name_key() -> spec_fn(SpecNameRow) -> SpecPath {
    |r: SpecNameRow| r.path
}

/// The table of a module tree: what its modules add, with rows and names
/// sorted by path (stably), or the errors.
pub open spec fn convert_of(mods: Seq<SpecModule>) -> Result<SpecTable<Ranged<SpecExpr>>, Seq<ExprConvertError>> {
    let (w, errs) = walk_modules(mods, mods.len() as int);
    if errs.len() == 0 {
        Ok(SpecTable { rows: sort_with(w.rows, row_key()), names: sort_with(w.names, name_key()), defs: w.defs })
    } else {
        Err(errs)
    }
}


/// `t` with what `w` adds at the end of each of its lists.
pub open spec fn table_add(t: SpecTable<Ranged<SpecExpr>>, w: Walk) -> SpecTable<Ranged<SpecExpr>> {
    SpecTable { rows: t.rows + w.rows, names: t.names + w.names, defs: t.defs + w.defs }
}

proof fn lemma_table_add_assoc(t: SpecTable<Ranged<SpecExpr>>, a: Walk, b: Walk)
    ensures
        table_add(table_add(t, a), b) == table_add(t, walk_join(a, b)),
{
    assert(t.rows + a.rows + b.rows =~= t.rows + (a.rows + b.rows));
    assert(t.names + a.names + b.names =~= t.names + (a.names + b.names));
    assert(t.defs + a.defs + b.defs =~= t.defs + (a.defs + b.defs));
}

proof fn lemma_table_add_empty(t: SpecTable<Ranged<SpecExpr>>)
    ensures
        table_add(t, walk_empty()) == t,
{
    assert(t.rows + Seq::empty() =~= t.rows);
    assert(t.names + Seq::empty() =~= t.names);
    assert(t.defs + Seq::empty() =~= t.defs);
}

/// Turns the modules of a tree into a path table.
#[derive(Debug)]
pub struct ExprConverter {
    current_path: RzPath,
    current_name: RzPath,
    table: PathTable<Ranged<RawExpr>>,
    errors: Vec<ExprConvertError>,
}

impl ExprConverter {
    /// A converter that has converted nothing yet.
    pub closed spec fn is_fresh(&self) -> bool {
        &&& self.table@.rows.len() == 0
        &&& self.table@.names.len() == 0
        &&& self.table@.defs.len() == 0
        &&& self.errors@.len() == 0
    }

    /// A converter with an empty table.
    pub fn new() -> (r: Self)
        ensures
            r.is_fresh(),
    {
        let r = ExprConverter {
            current_path: RzPath { modules: Vec::new(), data: Vec::new() },
            current_name: RzPath { modules: Vec::new(), data: Vec::new() },
            table: PathTable::default(),
            errors: Vec::new(),
        };
        r
    }

    fn push_name_row(&mut self, row: NameRow)
        ensures
            final(self).table@ == table_add(old(self).table@, Walk { rows: Seq::empty(), names: seq![row@], defs: Seq::empty() }),
            final(self).current_path == old(self).current_path,
            final(self).current_name == old(self).current_name,
            final(self).errors == old(self).errors,
    {
        let ghost t = self.table@;
        self.table.names.push(row);
        assert(names_view(self.table.names@) =~= t.names + seq![row@]);
        assert(rows_view(self.table.rows@) =~= t.rows + Seq::empty());
        assert(paths_view(self.table.defs@) =~= t.defs + Seq::empty());
    }

    fn push_type_row(&mut self, row: TypeRow<Ranged<RawExpr>>)
        ensures
            final(self).table@ == table_add(old(self).table@, Walk { rows: seq![row@], names: Seq::empty(), defs: Seq::empty() }),
            final(self).current_path == old(self).current_path,
            final(self).current_name == old(self).current_name,
            final(self).errors == old(self).errors,
    {
        let ghost t = self.table@;
        self.table.rows.push(row);
        assert(rows_view(self.table.rows@) =~= t.rows + seq![row@]);
        assert(names_view(self.table.names@) =~= t.names + Seq::empty());
        assert(paths_view(self.table.defs@) =~= t.defs + Seq::empty());
    }

    fn push_def(&mut self, p: RzPath)
        ensures
            final(self).table@ == table_add(old(self).table@, Walk { rows: Seq::empty(), names: Seq::empty(), defs: seq![p@] }),
            final(self).current_path == old(self).current_path,
            final(self).current_name == old(self).current_name,
            final(self).errors == old(self).errors,
    {
        let ghost t = self.table@;
        self.table.defs.push(p);
        assert(rows_view(self.table.rows@) =~= t.rows + Seq::empty());
        assert(names_view(self.table.names@) =~= t.names + Seq::empty());
        assert(paths_view(self.table.defs@) =~= t.defs + seq![p@]);
    }

    fn push_segs(&mut self, a: PathSegment, b: PathSegment)
        ensures
            final(self).current_path@ == push_seg(old(self).current_path@, a@),
            final(self).current_name@ == push_seg(old(self).current_name@, b@),
            final(self).current_path@.data.len() == old(self).current_path@.data.len() + 1,
            final(self).current_name@.data.len() == old(self).current_name@.data.len() + 1,
            final(self).table == old(self).table,
            final(self).errors == old(self).errors,
    {
        let ghost (p, n) = (self.current_path@, self.current_name@);
        self.current_path.data.push(a);
        self.current_name.data.push(b);
        assert(segments_view(self.current_path.data@) =~= p.data.push(a@));
        assert(segments_view(self.current_name.data@) =~= n.data.push(b@));
    }

    fn push_ty(&mut self, name: &Ranged<Vec<u8>>, number: Option<usize>)
        ensures
            ({
                let cp2 = push_seg(old(self).current_path@, match number {
                    Some(n) => SpecSegment::Pos(n),
                    None => SpecSegment::Name(name.data@),
                });
                let cn2 = push_seg(old(self).current_name@, SpecSegment::Name(name.data@));
                &&& final(self).current_path@ == cp2
                &&& final(self).current_name@ == cn2
                &&& final(self).table@ == table_add(old(self).table@, Walk {
                    rows: Seq::empty(),
                    names: seq![SpecNameRow { path: cp2, name: Ranged { data: cn2, range: name.range } }],
                    defs: Seq::empty(),
                })
            }),
            final(self).current_path@.data.len() == old(self).current_path@.data.len() + 1,
            final(self).current_name@.data.len() == old(self).current_name@.data.len() + 1,
            final(self).errors == old(self).errors,
    {
        let seg = match number {
            Some(num) => PathSegment::Pos(num),
            None => PathSegment::Name(copy_bytes(name.data.as_slice())),
        };
        self.push_segs(seg, PathSegment::Name(copy_bytes(name.data.as_slice())));
        let row = NameRow {
            path: self.current_path.duplicate(),
            name: Ranged { data: self.current_name.duplicate(), range: name.range },
        };
        self.push_name_row(row);
    }

    fn pop(&mut self)
        requires
            old(self).current_path@.data.len() > 0,
            old(self).current_name@.data.len() > 0,
        ensures
            final(self).current_path@ == pop_spec(old(self).current_path@),
            final(self).current_name@ == pop_spec(old(self).current_name@),
            final(self).current_path@.data.len() == old(self).current_path@.data.len() - 1,
            final(self).current_name@.data.len() == old(self).current_name@.data.len() - 1,
            final(self).table == old(self).table,
            final(self).errors == old(self).errors,
    {
        self.current_path.pop();
        self.current_name.pop();
    }

    fn visit_data(&mut self, data: &Ranged<RawExpr>, num: Option<usize>)
        ensures
            final(self).table@ == table_add(old(self).table@, walk_data(old(self).current_path@, old(self).current_name@, data@, num)),
            final(self).current_path@ == old(self).current_path@,
            final(self).current_name@ == old(self).current_name@,
            final(self).current_path@.data.len() == old(self).current_path@.data.len(),
            final(self).current_name@.data.len() == old(self).current_name@.data.len(),
            final(self).errors == old(self).errors,
    {
        let ghost (cp, cn) = (self.current_path@, self.current_name@);
        if let Some(num) = num {
            self.push_segs(PathSegment::Pos(num), PathSegment::Pos(num));
            let ty_row = TypeRow { path: self.current_path.duplicate(), ty: copy_rexpr(data) };
            let name_row = NameRow {
                path: self.current_path.duplicate(),
                name: Ranged { data: self.current_name.duplicate(), range: match data.range {
                    Some(l) => Some(l.start()),
                    None => None,
                } },
            };
            let ghost t0 = self.table@;
            self.push_type_row(ty_row);
            self.push_name_row(name_row);
            proof {
                lemma_table_add_assoc(t0, Walk { rows: seq![ty_row@], names: Seq::empty(), defs: Seq::empty() }, Walk { rows: Seq::empty(), names: seq![name_row@], defs: Seq::empty() });
                assert(seq![ty_row@] + Seq::<SpecTypeRow<Ranged<SpecExpr>>>::empty() =~= seq![ty_row@]);
                assert(Seq::<SpecNameRow>::empty() + seq![name_row@] =~= seq![name_row@]);
                assert(Seq::<SpecPath>::empty() + Seq::<SpecPath>::empty() =~= Seq::<SpecPath>::empty());
            }
            self.pop();
            assert(self.current_path@.data =~= cp.data);
            assert(self.current_name@.data =~= cn.data);
        } else {
            let ty_row = TypeRow { path: self.current_path.duplicate(), ty: copy_rexpr(data) };
            self.push_type_row(ty_row);
        }
    }

    fn visit_ty(&mut self, name: &Ranged<Vec<u8>>, body: &Ranged<RawExpr>, number: Option<usize>)
        requires
            body_ok(body@),
        ensures
            final(self).table@ == table_add(
                old(self).table@,
                walk_ty(old(self).current_path@, old(self).current_name@, name@, body@, number),
            ),
            final(self).current_path@ == old(self).current_path@,
            final(self).current_name@ == old(self).current_name@,
            final(self).errors == old(self).errors,
        decreases body, 0int,
    {
        let ghost (cp, cn, t0) = (self.current_path@, self.current_name@, self.table@);
        self.push_ty(name, number);
        let ghost t1 = self.table@;
        let ghost (cp2, cn2) = (self.current_path@, self.current_name@);
        proof {
            lemma_expr_children(body.data);
        }
        match &body.data {
            RawExpr::List(data) => {
                assert forall|k: int| 0 <= k < data@.len() implies match (#[trigger] rexpr(data@[k])).data {
                    SpecExpr::Ty { data, .. } => body_ok(*data),
                    SpecExpr::Def { data, .. } => body_ok(*data),
                    _ => true,
                } by {
                    assert(rexprs(data@)[k] == rexpr(data@[k]));
                }
                self.visit_list(data);
            },
            RawExpr::Ty { .. } | RawExpr::Def { .. } => {
                proof {
                    assert(false);
                }
            },
            _ => {
                self.visit_data(body, None);
            },
        }
        proof {
            let w = match body@.data {
                SpecExpr::List(items) => walk_list(cp2, cn2, items, items.len() as int).0,
                _ => walk_data(cp2, cn2, body@, None),
            };
            lemma_table_add_assoc(t0, Walk {
                rows: Seq::empty(),
                names: seq![SpecNameRow { path: cp2, name: Ranged { data: cn2, range: name.range } }],
                defs: Seq::empty(),
            }, w);
        }
        self.pop();
        assert(self.current_path@.data =~= cp.data);
        assert(self.current_name@.data =~= cn.data);
    }

    fn visit_def(&mut self, name: &Ranged<Vec<u8>>, body: &Ranged<RawExpr>)
        requires
            body_ok(body@),
        ensures
            final(self).table@ == table_add(
                old(self).table@,
                walk_def(old(self).current_path@, old(self).current_name@, name@, body@),
            ),
            final(self).current_path@ == old(self).current_path@,
            final(self).current_name@ == old(self).current_name@,
            final(self).errors == old(self).errors,
        decreases body, 1int,
    {
        let ghost (cp, cn, t0) = (self.current_path@, self.current_name@, self.table@);
        let mut path = self.current_path.duplicate();
        let seg = PathSegment::Name(copy_bytes(name.data.as_slice()));
        let ghost sv = seg@;
        path.data.push(seg);
        assert(path@.data =~= cp.data.push(sv));
        let ghost pv = path@;
        self.push_def(path);
        self.visit_ty(name, body, None);
        proof {
            lemma_table_add_assoc(t0, Walk { rows: Seq::empty(), names: Seq::empty(), defs: seq![pv] }, walk_ty(cp, cn, name@, body@, None));
        }
    }

    fn visit_list(&mut self, list: &Vec<Ranged<RawExpr>>)
        requires
            forall|k: int|
                0 <= k < list@.len() ==> match (#[trigger] rexpr(list@[k])).data {
                    SpecExpr::Ty { data, .. } => body_ok(*data),
                    SpecExpr::Def { data, .. } => body_ok(*data),
                    _ => true,
                },
        ensures
            final(self).table@ == table_add(
                old(self).table@,
                walk_list(old(self).current_path@, old(self).current_name@, rexprs(list@), list@.len() as int).0,
            ),
            final(self).current_path@ == old(self).current_path@,
            final(self).current_name@ == old(self).current_name@,
            final(self).errors == old(self).errors,
        decreases list, 2int,
    {
        let ghost (cp, cn, t0) = (self.current_path@, self.current_name@, self.table@);
        let ghost items = rexprs(list@);
        let mut num: usize = 0;
        let mut i: usize = 0;
        proof {
            lemma_table_add_empty(t0);
        }
        while i < list.len()
            invariant
                i <= list.len(),
                items == rexprs(list@),
                items.len() == list@.len(),
                num <= i,
                forall|k: int|
                    0 <= k < list@.len() ==> match (#[trigger] rexpr(list@[k])).data {
                        SpecExpr::Ty { data, .. } => body_ok(*data),
                        SpecExpr::Def { data, .. } => body_ok(*data),
                        _ => true,
                    },
                self.current_path@ == cp,
                self.current_name@ == cn,
                self.errors == old(self).errors,
                self.table@ == table_add(t0, walk_list(cp, cn, items, i as int).0),
                num == walk_list(cp, cn, items, i as int).1,
            decreases list.len() - i,
        {
            let e = &list[i];
            let ghost ev = rexpr(*e);
            assert(items[i as int] == ev);
            let ghost prev = walk_list(cp, cn, items, i as int).0;
            let ghost t_before = self.table@;
            match &e.data {
                RawExpr::Def { name, data } => {
                    assert(match ev.data { SpecExpr::Def { data, .. } => body_ok(*data), _ => true });
                    self.visit_def(name, data);
                    proof {
                        lemma_table_add_assoc(t0, prev, walk_def(cp, cn, name@, rexpr(**data)));
                    }
                },
                RawExpr::Ty { name, data } => {
                    assert(match ev.data { SpecExpr::Ty { data, .. } => body_ok(*data), _ => true });
                    self.visit_ty(name, data, Some(num));
                    proof {
                        lemma_table_add_assoc(t0, prev, walk_ty(cp, cn, name@, rexpr(**data), Some(num)));
                    }
                    num += 1;
                },
                RawExpr::Apply { head, .. } => {
                    if is_word(head.data.as_slice(), "ann") {
                    } else {
                        self.visit_data(e, Some(num));
                        proof {
                            lemma_table_add_assoc(t0, prev, walk_data(cp, cn, ev, Some(num)));
                        }
                        num += 1;
                    }
                },
                _ => {
                    self.visit_data(e, Some(num));
                    proof {
                        lemma_table_add_assoc(t0, prev, walk_data(cp, cn, ev, Some(num)));
                    }
                    num += 1;
                },
            }
            i += 1;
        }
    }

    fn visit_module(&mut self, module: &RawModule)
        requires
            forall|k: int| 0 <= k < module@.data.data.len() ==> top_ok(#[trigger] module@.data.data[k]),
        ensures
            ({
                let m = module@;
                let (w, errs) = walk_top(module_root(m), m.data.data, m.data.data.len() as int);
                &&& final(self).table@ == table_add(old(self).table@, w)
                &&& final(self).errors@ == old(self).errors@ + errs
            }),
    {
        let ghost m = module@;
        let ghost items = m.data.data;
        let ghost root = module_root(m);
        self.current_path = RzPath { modules: copy_texts(module.path.as_slice()), data: Vec::new() };
        self.current_name = RzPath { modules: copy_texts(module.path.as_slice()), data: Vec::new() };
        assert(self.current_path@.data =~= Seq::<SpecSegment>::empty());
        assert(self.current_name@.data =~= Seq::<SpecSegment>::empty());
        let ghost t0 = self.table@;
        let ghost e0 = self.errors@;
        proof {
            lemma_table_add_empty(t0);
        }
        assert(e0 + Seq::<ExprConvertError>::empty() =~= e0);
        let list = &module.data.data;
        assert(items == rexprs(list@));
        let mut i: usize = 0;
        while i < list.len()
            invariant
                i <= list.len(),
                items == rexprs(list@),
                items.len() == list@.len(),
                forall|k: int| 0 <= k < items.len() ==> top_ok(#[trigger] items[k]),
                self.current_path@ == root,
                self.current_name@ == root,
                self.table@ == table_add(t0, walk_top(root, items, i as int).0),
                self.errors@ == e0 + walk_top(root, items, i as int).1,
            decreases list.len() - i,
        {
            let e = &list[i];
            let ghost ev = rexpr(*e);
            assert(items[i as int] == ev);
            assert(top_ok(ev));
            let ghost prev = walk_top(root, items, i as int);
            match &e.data {
                RawExpr::Def { name, data } => {
                    self.visit_def(name, data);
                    proof {
                        lemma_table_add_assoc(t0, prev.0, walk_def(root, root, name@, rexpr(**data)));
                    }
                },
                RawExpr::Ty { name, data } => {
                    self.visit_ty(name, data, None);
                    proof {
                        lemma_table_add_assoc(t0, prev.0, walk_ty(root, root, name@, rexpr(**data), None));
                    }
                },
                RawExpr::Apply { head, .. } => {
                    if is_word(head.data.as_slice(), "ann") || is_word(head.data.as_slice(), "meta") {
                    } else {
                        let ghost old_e = self.errors@;
                        self.errors.push(ExprConvertError::UnboundValue(e.range.unwrap()));
                        assert(self.errors@ =~= e0 + prev.1.push(ExprConvertError::UnboundValue(ev.range.unwrap())));
                    }
                },
                _ => {
                    self.errors.push(ExprConvertError::UnboundValue(e.range.unwrap()));
                    assert(self.errors@ =~= e0 + prev.1.push(ExprConvertError::UnboundValue(ev.range.unwrap())));
                },
            }
            i += 1;
        }
    }

    /// Turns the modules into a path table: every definition and type with its
    /// name, every value with its type row, rows and names sorted by path; or
    /// the top-level expressions that are none of these.
    pub fn convert(self, mods: &[RawModule]) -> (r: Result<PathTable<Ranged<RawExpr>>, Vec<ExprConvertError>>)
        requires
            self.is_fresh(),
            modules_ok(Seq::new(mods@.len(), |i: int| mods@[i]@)),
        ensures
            match r {
                Ok(t) => convert_of(Seq::new(mods@.len(), |i: int| mods@[i]@)) == Ok::<SpecTable<Ranged<SpecExpr>>, Seq<ExprConvertError>>(t@),
                Err(e) => convert_of(Seq::new(mods@.len(), |i: int| mods@[i]@)) == Err::<SpecTable<Ranged<SpecExpr>>, Seq<ExprConvertError>>(e@),
            },
    {
        let ghost ms = Seq::new(mods@.len(), |i: int| mods@[i]@);
        let mut this = self;
        let ghost t0 = this.table@;
        proof {
            lemma_table_add_empty(t0);
        }
        assert(this.errors@ =~= Seq::<ExprConvertError>::empty());
        let mut i: usize = 0;
        while i < mods.len()
            invariant
                i <= mods.len(),
                ms == Seq::new(mods@.len(), |i: int| mods@[i]@),
                modules_ok(ms),
                this.table@ == table_add(t0, walk_modules(ms, i as int).0),
                this.errors@ == walk_modules(ms, i as int).1,
                t0.rows.len() == 0,
                t0.names.len() == 0,
                t0.defs.len() == 0,
            decreases mods.len() - i,
        {
            assert(ms[i as int] == mods@[i as int]@);
            assert forall|k: int| 0 <= k < mods@[i as int]@.data.data.len() implies top_ok(#[trigger] mods@[i as int]@.data.data[k]) by {
                assert(top_ok(ms[i as int].data.data[k]));
            }
            let ghost prev = walk_modules(ms, i as int);
            this.visit_module(&mods[i]);
            proof {
                let m = ms[i as int];
                lemma_table_add_assoc(t0, prev.0, walk_top(module_root(m), m.data.data, m.data.data.len() as int).0);
            }
            i += 1;
        }
        let ghost w = walk_modules(ms, ms.len() as int).0;
        assert(t0.rows + w.rows =~= w.rows);
        assert(t0.names + w.names =~= w.names);
        assert(t0.defs + w.defs =~= w.defs);
        if this.errors.len() == 0 {
            let ExprConverter { table, .. } = this;
            let PathTable { rows, names, defs } = table;
            let ghost (rv, nv) = (rows@, names@);
            let rows = sort_by_path_exec(rows);
            let names = sort_by_path_exec(names);
            proof {
                lemma_sort_map(rv, row_value_fn(), key_fn(), row_key());
                lemma_sort_map(nv, name_value_fn(), key_fn(), name_key());
            }
            Ok(PathTable { rows, names, defs })
        } else {
            Err(this.errors)
        }
    }
}


/// The names that are built in and never looked up.
pub open spec fn is_reserved(name: Seq<u8>) -> bool {
    ||| name == "_".spec_bytes()
    ||| name == "never".spec_bytes()
    ||| name == "bool".spec_bytes()
    ||| name == "int".spec_bytes()
    ||| name == "u1".spec_bytes()
    ||| name == "u2".spec_bytes()
    ||| name == "u4".spec_bytes()
    ||| name == "u8".spec_bytes()
    ||| name == "s1".spec_bytes()
    ||| name == "s2".spec_bytes()
    ||| name == "s4".spec_bytes()
    ||| name == "s8".spec_bytes()
}

/// Whether a name is built in.
pub fn is_reserved_name(name: &[u8]) -> (r: bool)
    ensures
        r == is_reserved(name@),
{
    is_word(name, "_") || is_word(name, "never") || is_word(name, "bool") || is_word(name, "int")
        || is_word(name, "u1") || is_word(name, "u2") || is_word(name, "u4") || is_word(name, "u8")
        || is_word(name, "s1") || is_word(name, "s2") || is_word(name, "s4") || is_word(name, "s8")
}

/// The pieces of a text between its dots.
pub open spec fn split_dots(s: Seq<u8>) -> Seq<Seq<u8>>
    decreases s.len(),
{
    match crate::files::last_index(s, 46) {
        None => seq![s],
        Some(k) => if 0 <= k < s.len() {
            split_dots(s.subrange(0, k)).push(s.subrange(k + 1, s.len() as int))
        } else {
            seq![s]
        },
    }
}

/// A dotted name: its pieces, unless one of them is empty.
pub open spec fn name_pieces(s: Seq<u8>) -> Option<Seq<Seq<u8>>> {
    let v = split_dots(s);
    if exists|i: int| 0 <= i < v.len() && v[i].len() == 0 {
        None
    } else {
        Some(v)
    }
}

/// Some name in `names` lies directly in the module `p`: it has exactly the
/// modules of `p`.
pub open spec fn has_name_in_module(names: Set<SpecPath>, p: SpecPath) -> bool {
    exists|x: SpecPath| #[trigger] names.contains(x) && x.modules == p.modules
}

/// From the module path `path`, follow the pieces `suffix[i..]` as modules as
/// long as some name lies in the module reached; gives the path reached
/// and how many pieces were followed.
pub open spec fn descend(path: SpecPath, suffix: Seq<Seq<u8>>, i: int, names: Set<SpecPath>) -> (SpecPath, int)
    decreases suffix.len() - i,
{
    if i < 0 || i >= suffix.len() || !is_module(path) {
        (path, i)
    } else {
        let p2 = SpecPath { modules: path.modules.push(suffix[i]), data: path.data };
        if has_name_in_module(names, p2) {
            descend(p2, suffix, i + 1, names)
        } else {
            (path, i)
        }
    }
}

pub open spec fn name_segments(s: Seq<Seq<u8>>) -> Seq<SpecSegment> {
    s.map_values(|t: Seq<u8>| SpecSegment::Name(t))
}

/// The name that `suffix` denotes from `prefix`: follow its pieces as modules
/// as far as they lead, take the rest as data steps; it is found if it is one of `names`.
pub open spec fn find_from(prefix: SpecPath, suffix: Seq<Seq<u8>>, names: Set<SpecPath>) -> Option<SpecPath> {
    let (p, i) = descend(prefix, suffix, 0, names);
    let full = SpecPath { modules: p.modules, data: p.data + name_segments(suffix.skip(i)) };
    if names.contains(full) {
        Some(full)
    } else {
        None
    }
}

/// The name that `suffix` denotes from `prefix` or, failing that, from each
/// shorter prefix in turn (see [`pop_spec`]) down to the empty path.
pub open spec fn resolve_from(prefix: SpecPath, suffix: Seq<Seq<u8>>, names: Set<SpecPath>) -> Option<SpecPath>
    decreases prefix.modules.len() + prefix.data.len(),
{
    match find_from(prefix, suffix, names) {
        Some(p) => Some(p),
        None => if prefix.modules.len() == 0 && prefix.data.len() == 0 {
            None
        } else {
            resolve_from(pop_spec(prefix), suffix, names)
        },
    }
}

/// What a name used inside the definition known as `ctx` denotes: it is looked
/// up from the definition's enclosing path.
pub open spec fn resolve_spec(ctx: SpecPath, suffix: Seq<Seq<u8>>, names: Set<SpecPath>) -> Option<SpecPath> {
    let prefix = SpecPath {
        modules: ctx.modules,
        data: if ctx.data.len() > 0 { ctx.data.drop_last() } else { ctx.data },
    };
    resolve_from(prefix, suffix, names)
}

/// Why a name could not be resolved.
#[derive(Debug, Clone, Copy, PartialEq, Eq, Structural)]
pub enum NameResolveError {
    /// The name denotes nothing.
    NotFound(Location),
    /// The name has an empty piece between dots.
    InvalidName(Location),
}

/// An expression whose names are looked up from `ctx` among `names`: every
/// name that is not built in and denotes something becomes that path; the
/// others stay and give errors, in order. Applications and lists are entered.
pub open spec fn resolve_expr(e: Ranged<SpecExpr>, ctx: SpecPath, names: Set<SpecPath>) -> (Ranged<SpecExpr>, Seq<NameResolveError>)
    decreases e, 0int,
{
    match e.data {
        SpecExpr::Apply { head, body } => {
            let (b, errs) = resolve_list(body, ctx, names, body.len() as int);
            (Ranged { data: SpecExpr::Apply { head, body: b }, range: e.range }, errs)
        },
        SpecExpr::List(body) => {
            let (b, errs) = resolve_list(body, ctx, names, body.len() as int);
            (Ranged { data: SpecExpr::List(b), range: e.range }, errs)
        },
        SpecExpr::Name(n) => if is_reserved(n) {
            (e, Seq::empty())
        } else {
            match name_pieces(n) {
                None => (e, seq![NameResolveError::InvalidName(e.range.unwrap())]),
                Some(suffix) => match resolve_spec(ctx, suffix, names) {
                    Some(p) => (Ranged { data: SpecExpr::Path(p), range: e.range }, Seq::empty()),
                    None => (e, seq![NameResolveError::NotFound(e.range.unwrap())]),
                },
            }
        },
        _ => (e, Seq::empty()),
    }
}

/// The first `k` expressions of `body` resolved, with their errors in order.
pub open spec fn resolve_list(body: Seq<Ranged<SpecExpr>>, ctx: SpecPath, names: Set<SpecPath>, k: int) -> (Seq<Ranged<SpecExpr>>, Seq<NameResolveError>)
    decreases body, k,
{
    if k <= 0 || k > body.len() {
        (Seq::empty(), Seq::empty())
    } else {
        let (b, errs) = resolve_list(body, ctx, names, k - 1);
        let (x, e) = resolve_expr(body[k - 1], ctx, names);
        (b.push(x), errs + e)
    }
}

/// Resolving `e` never needs a location it does not have: every name that
/// gives an error has one.
pub open spec fn resolve_ok(e: Ranged<SpecExpr>, ctx: SpecPath, names: Set<SpecPath>) -> bool
    decreases e,
{
    match e.data {
        SpecExpr::Apply { body, .. } => forall|k: int| 0 <= k < body.len() ==> resolve_ok(#[trigger] body[k], ctx, names),
        SpecExpr::List(body) => forall|k: int| 0 <= k < body.len() ==> resolve_ok(#[trigger] body[k], ctx, names),
        SpecExpr::Name(n) => !is_reserved(n) ==> match name_pieces(n) {
            None => e.range is Some,
            Some(suffix) => resolve_spec(ctx, suffix, names) is None ==> e.range is Some,
        },
        _ => true,
    }
}


/// How `a` stands to `b`: by their modules only, or as paths.
pub open spec fn key_order(a: SpecPath, b: SpecPath, modules_only: bool) -> Order {
    if modules_only {
        lex_order(a.modules, b.modules, bytes_fn())
    } else {
        path_order(a, b)
    }
}

proof fn lemma_le_lt(a: SpecPath, b: SpecPath, p: SpecPath, modules_only: bool)
    requires
        path_order(a, b) != Order::Greater,
        key_order(b, p, modules_only) == Order::Less,
    ensures
        key_order(a, p, modules_only) == Order::Less,
{
    lemma_bytes_total();
    if modules_only {
        let bf = bytes_fn();
        lemma_lex_equal(a.modules, b.modules, bf);
        if lex_order(a.modules, b.modules, bf) == Order::Less {
            lemma_lex_trans(a.modules, b.modules, p.modules, bf);
        }
    } else {
        lemma_path_total();
        let f = path_fn();
        assert(f(a, b) == path_order(a, b));
        assert(f(b, p) == path_order(b, p));
        if path_order(a, b) == Order::Equal {
            assert(a == b);
        } else {
            assert(f(a, b) == Order::Less && f(b, p) == Order::Less);
            assert(f(a, p) == path_order(a, p));
        }
    }
}

/// The number of leading elements of a list sorted by path whose keys are less than `p`.
fn lower_bound<T: PathKeyed>(v: &Vec<T>, p: &RzPath, modules_only: bool) -> (r: usize)
    requires
        crate::sort::sorted_by_path(v@),
    ensures
        r <= v@.len(),
        forall|k: int| 0 <= k < r ==> key_order(#[trigger] v@[k].key(), p@, modules_only) == Order::Less,
        forall|k: int| r <= k < v@.len() ==> key_order(#[trigger] v@[k].key(), p@, modules_only) != Order::Less,
{
    let mut lo: usize = 0;
    let mut hi: usize = v.len();
    while lo < hi
        invariant
            lo <= hi <= v@.len(),
            crate::sort::sorted_by_path(v@),
            forall|k: int| 0 <= k < lo ==> key_order(#[trigger] v@[k].key(), p@, modules_only) == Order::Less,
            forall|k: int| hi <= k < v@.len() ==> key_order(#[trigger] v@[k].key(), p@, modules_only) != Order::Less,
        decreases hi - lo,
    {
        let mid = lo + (hi - lo) / 2;
        let key = v[mid].key_path();
        let c = if modules_only {
            compare_modules(key.modules.as_slice(), p.modules.as_slice())
        } else {
            compare_paths(key, p)
        };
        if c == Order::Less {
            assert forall|k: int| 0 <= k < mid + 1 implies key_order(#[trigger] v@[k].key(), p@, modules_only) == Order::Less by {
                if k < mid {
                    lemma_le_lt(v@[k].key(), v@[mid as int].key(), p@, modules_only);
                }
            }
            lo = mid + 1;
        } else {
            assert forall|k: int| mid <= k < v@.len() implies key_order(#[trigger] v@[k].key(), p@, modules_only) != Order::Less by {
                if k > mid && key_order(v@[k].key(), p@, modules_only) == Order::Less {
                    lemma_le_lt(v@[mid as int].key(), v@[k].key(), p@, modules_only);
                }
            }
            hi = mid;
        }
    }
    lo
}


/// The set of the paths in a list.
pub open spec fn path_set(v: Seq<RzPath>) -> Set<SpecPath> {
    paths_view(v).to_set()
}

proof fn lemma_path_set(v: Seq<RzPath>, x: SpecPath)
    ensures
        path_set(v).contains(x) <==> exists|k: int| 0 <= k < v.len() && #[trigger] v[k]@ == x,
{
    if path_set(v).contains(x) {
        assert(paths_view(v).contains(x));
        let k = choose|k: int| 0 <= k < paths_view(v).len() && paths_view(v)[k] == x;
        assert(v[k]@ == x);
    }
    if exists|k: int| 0 <= k < v.len() && #[trigger] v[k]@ == x {
        let k = choose|k: int| 0 <= k < v.len() && #[trigger] v[k]@ == x;
        assert(paths_view(v)[k] == x);
        assert(paths_view(v).contains(x));
    }
}

/// A list of names to look names up in: sorted, and every one a data path.
pub open spec fn name_list_ok(v: Seq<RzPath>) -> bool {
    &&& crate::sort::sorted_by_path(v)
    &&& forall|k: int| 0 <= k < v.len() ==> !is_module(#[trigger] v[k]@)
}

fn contains_path(names: &Vec<RzPath>, p: &RzPath) -> (r: bool)
    requires
        crate::sort::sorted_by_path(names@),
    ensures
        r == path_set(names@).contains(p@),
{
    let i = lower_bound(names, p, false);
    proof {
        lemma_path_set(names@, p@);
        lemma_path_total();
    }
    let r = i < names.len() && compare_paths(&names[i], p) == Order::Equal;
    proof {
        if !r && path_set(names@).contains(p@) {
            let k = choose|k: int| 0 <= k < names@.len() && #[trigger] names@[k]@ == p@;
            assert(path_order(names@[k]@, p@) == Order::Equal) by {
                lemma_path_equal(names@[k]@, p@);
            }
            assert(names@[k].key() == names@[k]@);
            assert(k >= i);
            assert(names@[i as int].key() == names@[i as int]@);
            if k > i {
                assert(path_order(names@[i as int].key(), names@[k].key()) != Order::Greater);
            }
            lemma_path_equal(names@[i as int]@, p@);
            lemma_path_flip(names@[i as int]@, p@);
        }
        if r {
            lemma_path_equal(names@[i as int]@, p@);
            assert(names@[i as int]@ == p@);
        }
    }
    r
}

fn module_has_name(names: &Vec<RzPath>, p: &RzPath) -> (r: bool)
    requires
        name_list_ok(names@),
        is_module(p@),
    ensures
        r == has_name_in_module(path_set(names@), p@),
{
    let i = lower_bound(names, p, true);
    let r = i < names.len() && compare_modules(names[i].modules.as_slice(), p.modules.as_slice()) == Order::Equal;
    proof {
        lemma_bytes_total();
        let bf = bytes_fn();
        if r {
            lemma_lex_equal(names@[i as int]@.modules, p@.modules, bf);
            lemma_path_set(names@, names@[i as int]@);
            assert(path_set(names@).contains(names@[i as int]@));
        }
        if !r && has_name_in_module(path_set(names@), p@) {
            let x = choose|x: SpecPath| #[trigger] path_set(names@).contains(x) && x.modules == p@.modules;
            lemma_path_set(names@, x);
            let k = choose|k: int| 0 <= k < names@.len() && #[trigger] names@[k]@ == x;
            lemma_lex_equal(x.modules, p@.modules, bf);
            assert(names@[k].key() == x);
            assert(k >= i);
            let a = names@[i as int]@;
            assert(names@[i as int].key() == a);
            if k > i {
                assert(path_order(names@[i as int].key(), names@[k].key()) != Order::Greater);
            }
            assert(path_order(a, x) != Order::Greater) by {
                lemma_path_equal(a, x);
            }
            lemma_lex_equal(a.modules, x.modules, bf);
            assert(lex_order(a.modules, x.modules, bf) != Order::Greater);
            lemma_lex_flip(a.modules, x.modules, bf);
        }
    }
    r
}

/// The index of the first name row at the path `p`, which must have one.
fn name_row_at(names: &Vec<NameRow>, p: &RzPath) -> (r: usize)
    requires
        crate::sort::sorted_by_path(names@),
        exists|k: int| 0 <= k < names@.len() && #[trigger] names@[k].path@ == p@,
    ensures
        r < names@.len(),
        names@[r as int].path@ == p@,
        forall|k: int| 0 <= k < r ==> #[trigger] names@[k].path@ != p@,
{
    let i = lower_bound(names, p, false);
    proof {
        let k = choose|k: int| 0 <= k < names@.len() && #[trigger] names@[k].path@ == p@;
        lemma_path_equal(names@[k].path@, p@);
        assert(names@[k].key() == names@[k].path@);
        assert(k >= i);
        assert forall|j: int| 0 <= j < i implies #[trigger] names@[j].path@ != p@ by {
            assert(names@[j].key() == names@[j].path@);
            lemma_path_equal(names@[j].path@, p@);
        }
        assert(path_order(names@[i as int].key(), names@[k].key()) != Order::Greater);
        lemma_path_equal(names@[i as int].path@, p@);
        lemma_path_flip(names@[i as int].path@, p@);
    }
    i
}


/// The pieces of a dotted name, unless one of them is empty.
pub fn parse_name(name: &[u8]) -> (r: Option<Vec<Vec<u8>>>)
    ensures
        match r {
            Some(v) => name_pieces(name@) == Some(texts_view(v@)),
            None => name_pieces(name@) is None,
        },
{
    let ghost s = name@;
    let mut end = name.len();
    let mut rest: Vec<Vec<u8>> = Vec::new();
    assert(s.subrange(0, end as int) =~= s);
    assert(split_dots(s) =~= split_dots(s.subrange(0, end as int)) + texts_view(rest@));
    loop
        invariant
            end <= name.len(),
            s == name@,
            split_dots(s) == split_dots(s.subrange(0, end as int)) + texts_view(rest@),
        decreases end,
    {
        let mut k = end;
        let mut found = false;
        while k > 0 && !found
            invariant
                k <= end <= name.len(),
                found ==> k < end && name@[k as int] == 46 && forall|j: int| k < j < end ==> name@[j] != 46,
                !found ==> forall|j: int| k <= j < end ==> name@[j] != 46,
            decreases k + if found { 0int } else { 1int },
        {
            if name[k - 1] == 46 {
                found = true;
            }
            k -= 1;
        }
        let ghost t = s.subrange(0, end as int);
        proof {
            assert forall|j: int| k < j < t.len() implies t[j] != 46 by {
                assert(t[j] == name@[j]);
            }
            if !found {
                assert forall|j: int| k <= j < t.len() implies t[j] != 46 by {
                    assert(t[j] == name@[j]);
                }
            } else {
                assert(t[k as int] == name@[k as int]);
            }
            lemma_last_dot(t, k as int, found);
        }
        if !found {
            let ghost old_rest = texts_view(rest@);
            let mut v: Vec<Vec<u8>> = Vec::new();
            v.push(copy_range(name, 0, end));
            let ghost first = v@;
            v.append(&mut rest);
            assert(texts_view(v@) =~= seq![t] + old_rest);
            assert(split_dots(t) == seq![t]);
            return nonempty_pieces(v);
        }
        let piece = copy_range(name, k + 1, end);
        let ghost old_rest = texts_view(rest@);
        rest.insert(0, piece);
        assert(texts_view(rest@) =~= seq![s.subrange(k + 1, end as int)] + old_rest);
        assert(t.subrange(0, k as int) =~= s.subrange(0, k as int));
        assert(t.subrange(k + 1, t.len() as int) =~= s.subrange(k + 1, end as int));
        assert(split_dots(t) == split_dots(s.subrange(0, k as int)).push(s.subrange(k + 1, end as int)));
        assert(split_dots(s.subrange(0, k as int)).push(s.subrange(k + 1, end as int)) + old_rest =~= split_dots(s.subrange(0, k as int)) + texts_view(rest@));
        end = k;
    }
}

/// The pieces, unless one of them is empty.
fn nonempty_pieces(pieces: Vec<Vec<u8>>) -> (r: Option<Vec<Vec<u8>>>)
    ensures
        match r {
            Some(v) => v@ == pieces@ && forall|j: int| 0 <= j < texts_view(pieces@).len() ==> texts_view(pieces@)[j].len() > 0,
            None => exists|j: int| 0 <= j < texts_view(pieces@).len() && texts_view(pieces@)[j].len() == 0,
        },
{
    let mut i: usize = 0;
    while i < pieces.len()
        invariant
            i <= pieces.len(),
            forall|j: int| 0 <= j < i ==> texts_view(pieces@)[j].len() > 0,
        decreases pieces.len() - i,
    {
        if pieces[i].len() == 0 {
            assert(texts_view(pieces@)[i as int].len() == 0);
            return None;
        }
        i += 1;
    }
    Some(pieces)
}

/// What the backward scan for the last dot before `t.len()` finds.
proof fn lemma_last_dot(t: Seq<u8>, k: int, found: bool)
    requires
        0 <= k <= t.len(),
        found ==> k < t.len() && t[k] == 46 && forall|j: int| k < j < t.len() ==> t[j] != 46,
        !found ==> k == 0 && forall|j: int| k <= j < t.len() ==> t[j] != 46,
    ensures
        crate::files::last_index(t, 46) == if found { Some(k) } else { None::<int> },
    decreases t.len(),
{
    if t.len() > 0 && t.last() != 46 {
        lemma_last_dot(t.drop_last(), k, found);
    }
}


/// The value of an optional path.
pub open spec fn opt_path(o: Option<RzPath>) -> Option<SpecPath> {
    match o {
        Some(p) => Some(p@),
        None => None,
    }
}

/// The name that `suffix` denotes from `prefix` (see [`find_from`]).
fn find_path(prefix: &RzPath, suffix: &Vec<Vec<u8>>, names: &Vec<RzPath>) -> (r: Option<RzPath>)
    requires
        name_list_ok(names@),
    ensures
        opt_path(r) == find_from(prefix@, texts_view(suffix@), path_set(names@)),
{
    let ghost sfx = texts_view(suffix@);
    let ghost set = path_set(names@);
    let mut path = prefix.duplicate();
    let mut index: usize = 0;
    let mut go = true;
    while go && index < suffix.len()
        invariant
            index <= suffix.len(),
            sfx == texts_view(suffix@),
            set == path_set(names@),
            name_list_ok(names@),
            descend(prefix@, sfx, 0, set) == descend(path@, sfx, index as int, set),
            !go ==> descend(path@, sfx, index as int, set) == (path@, index as int),
        decreases suffix.len() - index, if go { 1int } else { 0int },
    {
        if path.is_data_path() {
            go = false;
        } else {
            let ghost before = path@;
            path.modules.push(copy_bytes(suffix[index].as_slice()));
            assert(path@.modules =~= before.modules.push(sfx[index as int]));
            if !module_has_name(names, &path) {
                path.pop();
                assert(path@.modules =~= before.modules);
                assert(path@.data =~= before.data);
                go = false;
            } else {
                index += 1;
            }
        }
    }
    let ghost reached = path@;
    let ghost at = index as int;
    let mut j = index;
    assert(reached.data + name_segments(sfx.skip(at)).subrange(0, 0) =~= reached.data);
    while j < suffix.len()
        invariant
            index <= j <= suffix.len(),
            sfx == texts_view(suffix@),
            at == index,
            path@.modules == reached.modules,
            path@.data == reached.data + name_segments(sfx.skip(at)).subrange(0, j - at),
        decreases suffix.len() - j,
    {
        let ghost before = path@.data;
        path.data.push(PathSegment::Name(copy_bytes(suffix[j].as_slice())));
        assert(name_segments(sfx.skip(at)).subrange(0, j + 1 - at) =~= name_segments(sfx.skip(at)).subrange(0, j - at).push(SpecSegment::Name(sfx[j as int])));
        assert(path@.data =~= before.push(SpecSegment::Name(sfx[j as int])));
        j += 1;
    }
    assert(name_segments(sfx.skip(at)).subrange(0, j - at) =~= name_segments(sfx.skip(at)));
    if contains_path(names, &path) {
        Some(path)
    } else {
        None
    }
}

/// What a name with the pieces `suffix`, used inside the definition known as
/// `ctx`, denotes (see [`resolve_spec`]).
fn resolve_name(ctx: &RzPath, suffix: &Vec<Vec<u8>>, names: &Vec<RzPath>) -> (r: Option<RzPath>)
    requires
        name_list_ok(names@),
    ensures
        opt_path(r) == resolve_spec(ctx@, texts_view(suffix@), path_set(names@)),
{
    let mut prefix = ctx.duplicate();
    let ghost before = prefix@;
    let _ = prefix.data.pop();
    assert(prefix@.data =~= if before.data.len() > 0 { before.data.drop_last() } else { before.data });
    loop
        invariant
            name_list_ok(names@),
            resolve_from(prefix@, texts_view(suffix@), path_set(names@)) == resolve_spec(ctx@, texts_view(suffix@), path_set(names@)),
        decreases prefix@.modules.len() + prefix@.data.len(),
    {
        match find_path(&prefix, suffix, names) {
            Some(p) => {
                return Some(p);
            },
            None => {},
        }
        if prefix.is_empty() {
            return None;
        }
        prefix.pop();
    }
}

/// Looks up the names used in the rows of a path table.
#[derive(Debug)]
pub struct NameResolver {
    errors: Vec<NameResolveError>,
}

impl NameResolver {
    /// A resolver that has found no errors.
    pub fn new() -> (r: Self)
        ensures
            r.is_fresh(),
    {
        NameResolver { errors: Vec::new() }
    }

    /// A resolver that has found no errors yet.
    pub closed spec fn is_fresh(&self) -> bool {
        self.errors@.len() == 0
    }

    /// `e` with its names resolved from `ctx`; errors are added in order.
    fn resolve_in_expr(&mut self, ctx: &RzPath, e: &Ranged<RawExpr>, names: &Vec<RzPath>) -> (r: Ranged<RawExpr>)
        requires
            name_list_ok(names@),
            resolve_ok(e@, ctx@, path_set(names@)),
        ensures
            r@ == resolve_expr(e@, ctx@, path_set(names@)).0,
            final(self).errors@ == old(self).errors@ + resolve_expr(e@, ctx@, path_set(names@)).1,
        decreases e, 0int,
    {
        let ghost set = path_set(names@);
        proof {
            lemma_expr_children(e.data);
        }
        match &e.data {
            RawExpr::Apply { head, body } => {
                let b = self.resolve_in_list(ctx, body, names);
                let r = Ranged {
                    data: RawExpr::Apply { head: Ranged { data: copy_bytes(head.data.as_slice()), range: head.range }, body: b },
                    range: e.range,
                };
                proof {
                    lemma_expr_children(r.data);
                }
                r
            },
            RawExpr::List(body) => {
                assert(e@.data == SpecExpr::List(rexprs(body@)));
                let ghost ev = e@;
                assert(resolve_ok(ev, ctx@, set));
                assert(ev.data matches SpecExpr::List(b) && b == rexprs(body@));
                assert(forall|k: int| 0 <= k < rexprs(body@).len() ==> resolve_ok(#[trigger] rexprs(body@)[k], ctx@, set));
                let b = self.resolve_in_list(ctx, body, names);
                let r = Ranged { data: RawExpr::List(b), range: e.range };
                proof {
                    lemma_expr_children(r.data);
                }
                r
            },
            RawExpr::Name(n) => {
                if is_reserved_name(n.as_slice()) {
                    assert(self.errors@ =~= old(self).errors@ + Seq::<NameResolveError>::empty());
                    return copy_rexpr(e);
                }
                match parse_name(n.as_slice()) {
                    None => {
                        self.errors.push(NameResolveError::InvalidName(e.range.unwrap()));
                        copy_rexpr(e)
                    },
                    Some(suffix) => match resolve_name(ctx, &suffix, names) {
                        Some(p) => {
                            assert(self.errors@ =~= old(self).errors@ + Seq::<NameResolveError>::empty());
                            Ranged { data: RawExpr::Path(p), range: e.range }
                        },
                        None => {
                            self.errors.push(NameResolveError::NotFound(e.range.unwrap()));
                            copy_rexpr(e)
                        },
                    },
                }
            },
            _ => {
                assert(self.errors@ =~= old(self).errors@ + Seq::<NameResolveError>::empty());
                copy_rexpr(e)
            },
        }
    }

    fn resolve_in_list(&mut self, ctx: &RzPath, body: &Vec<Ranged<RawExpr>>, names: &Vec<RzPath>) -> (r: Vec<Ranged<RawExpr>>)
        requires
            name_list_ok(names@),
            forall|k: int| 0 <= k < body@.len() ==> resolve_ok(#[trigger] rexprs(body@)[k], ctx@, path_set(names@)),
        ensures
            rexprs(r@) == resolve_list(rexprs(body@), ctx@, path_set(names@), body@.len() as int).0,
            final(self).errors@ == old(self).errors@ + resolve_list(rexprs(body@), ctx@, path_set(names@), body@.len() as int).1,
        decreases body, 1int,
    {
        let ghost set = path_set(names@);
        let ghost items = rexprs(body@);
        let mut out: Vec<Ranged<RawExpr>> = Vec::new();
        let mut i: usize = 0;
        assert(rexprs(out@) =~= Seq::<Ranged<SpecExpr>>::empty());
        assert(self.errors@ =~= old(self).errors@ + Seq::<NameResolveError>::empty());
        while i < body.len()
            invariant
                i <= body.len(),
                items == rexprs(body@),
                items.len() == body@.len(),
                set == path_set(names@),
                name_list_ok(names@),
                forall|k: int| 0 <= k < body@.len() ==> resolve_ok(#[trigger] rexprs(body@)[k], ctx@, set),
                rexprs(out@) == resolve_list(items, ctx@, set, i as int).0,
                self.errors@ == old(self).errors@ + resolve_list(items, ctx@, set, i as int).1,
            decreases body.len() - i,
        {
            assert(items[i as int] == rexpr(body@[i as int]));
            assert(resolve_ok(items[i as int], ctx@, set));
            let ghost prev = resolve_list(items, ctx@, set, i as int);
            let ghost e_before = self.errors@;
            let x = self.resolve_in_expr(ctx, &body[i], names);
            let ghost old_out = rexprs(out@);
            out.push(x);
            assert(rexprs(out@) =~= old_out.push(rexpr(x)));
            assert(self.errors@ =~= old(self).errors@ + (prev.1 + resolve_expr(items[i as int], ctx@, set).1));
            i += 1;
        }
        out
    }
}


/// What the name rows of a table name.
pub open spec fn table_names(t: SpecTable<Ranged<SpecExpr>>) -> Set<SpecPath> {
    t.names.map_values(|r: SpecNameRow| r.name.data).to_set()
}

/// The index of the first name row at the path `p`.
pub open spec fn first_name_at(names: Seq<SpecNameRow>, p: SpecPath) -> int {
    choose|j: int| 0 <= j < names.len() && names[j].path == p && forall|k: int| 0 <= k < j ==> names[k].path != p
}

/// The name of the definition that the row `i` lies in: that of the first name row at its path.
pub open spec fn row_ctx(t: SpecTable<Ranged<SpecExpr>>, i: int) -> SpecPath {
    t.names[first_name_at(t.names, t.rows[i].path)].name.data
}

/// A table whose names can be resolved: its name rows are sorted by path and
/// name data paths, every row has a name row at its path, and resolving a row
/// never needs a location it lacks.
pub open spec fn resolvable(t: SpecTable<Ranged<SpecExpr>>) -> bool {
    &&& table_wf(t)
    &&& rows_resolve_ok(t)
}

/// Resolving the rows of a table never needs a location they lack.
pub open spec fn rows_resolve_ok(t: SpecTable<Ranged<SpecExpr>>) -> bool {
    forall|i: int| 0 <= i < t.rows.len() ==> resolve_ok((#[trigger] t.rows[i]).ty, row_ctx(t, i), table_names(t))
}

/// A well-formed path table: its name rows are sorted by path and name data
/// paths, and every row has a name row at its path.
pub open spec fn table_wf(t: SpecTable<Ranged<SpecExpr>>) -> bool {
    &&& names_sorted(t)
    &&& forall|i: int| 0 <= i < t.names.len() ==> !is_module(#[trigger] t.names[i].name.data)
    &&& rows_named(t)
}

/// The name rows of a table are sorted by path.
pub open spec fn names_sorted(t: SpecTable<Ranged<SpecExpr>>) -> bool {
    forall|i: int, j: int| 0 <= i < j < t.names.len() ==> path_order(t.names[i].path, t.names[j].path) != Order::Greater
}

/// Every row of a table has a name row at its path.
pub open spec fn rows_named(t: SpecTable<Ranged<SpecExpr>>) -> bool {
    forall|i: int| 0 <= i < t.rows.len() ==> has_name_at(t.names, (#[trigger] t.rows[i]).path)
}

/// Some name row is at the path `p`.
pub open spec fn has_name_at(names: Seq<SpecNameRow>, p: SpecPath) -> bool {
    exists|j: int| 0 <= j < names.len() && (#[trigger] names[j]).path == p
}

/// The rows `t.rows[..k]` with their names resolved, and the errors in order.
pub open spec fn resolve_rows(t: SpecTable<Ranged<SpecExpr>>, k: int) -> (Seq<SpecTypeRow<Ranged<SpecExpr>>>, Seq<NameResolveError>)
    decreases k,
{
    if k <= 0 || k > t.rows.len() {
        (Seq::empty(), Seq::empty())
    } else {
        let (rows, errs) = resolve_rows(t, k - 1);
        let (ty, e) = resolve_expr(t.rows[k - 1].ty, row_ctx(t, k - 1), table_names(t));
        (rows.push(SpecTypeRow { path: t.rows[k - 1].path, ty }), errs + e)
    }
}

/// The table with the names in its rows resolved, and the errors.
pub open spec fn resolve_table(t: SpecTable<Ranged<SpecExpr>>) -> (SpecTable<Ranged<SpecExpr>>, Seq<NameResolveError>) {
    let (rows, errs) = resolve_rows(t, t.rows.len() as int);
    (SpecTable { rows, ..t }, errs)
}

/// The name row that the search finds for a row is the one that [`row_ctx`] takes.
proof fn lemma_row_ctx(rows: Seq<NameRow>, t: SpecTable<Ranged<SpecExpr>>, i: int, ix: int)
    requires
        t.names == names_view(rows),
        0 <= i < t.rows.len(),
        0 <= ix < rows.len(),
        rows[ix].path@ == t.rows[i].path,
        forall|k: int| 0 <= k < ix ==> #[trigger] rows[k].path@ != t.rows[i].path,
    ensures
        row_ctx(t, i) == rows[ix].name.data@,
{
    let p = t.rows[i].path;
    assert(t.names[ix] == rows[ix]@);
    assert forall|k: int| 0 <= k < ix implies t.names[k].path != p by {
        assert(t.names[k] == rows[k]@);
    }
    let f = first_name_at(t.names, p);
    assert(0 <= f < t.names.len() && t.names[f].path == p && forall|k: int| 0 <= k < f ==> t.names[k].path != p);
    if f < ix {
    } else if f > ix {
        assert(t.names[ix].path == p);
    }
}

/// Copies of the names that the name rows name.
fn name_data(rows: &Vec<NameRow>) -> (r: Vec<RzPath>)
    ensures
        r@.len() == rows@.len(),
        forall|k: int| 0 <= k < r@.len() ==> (#[trigger] r@[k])@ == rows@[k].name.data@,
{
    let mut names: Vec<RzPath> = Vec::new();
    let mut i: usize = 0;
    while i < rows.len()
        invariant
            i <= rows.len(),
            names@.len() == i,
            forall|k: int| 0 <= k < i ==> (#[trigger] names@[k])@ == rows@[k].name.data@,
        decreases rows.len() - i,
    {
        names.push(rows[i].name.data.duplicate());
        i += 1;
    }
    names
}

/// The sorted copy of what the name rows of a resolvable table name is a list
/// to look names up in, and holds just those names.
proof fn lemma_name_map(t: SpecTable<Ranged<SpecExpr>>, unsorted: Seq<RzPath>, names: Seq<RzPath>)
    requires
        resolvable(t),
        unsorted.len() == t.names.len(),
        forall|k: int| 0 <= k < unsorted.len() ==> (#[trigger] unsorted[k])@ == t.names[k].name.data,
        names == sort_by_path(unsorted),
    ensures
        path_set(names) == table_names(t),
        name_list_ok(names),
{
    lemma_sort_by_path(unsorted);
    let m = t.names.map_values(|r: SpecNameRow| r.name.data);
    assert forall|x: SpecPath| path_set(names).contains(x) == table_names(t).contains(x) by {
        lemma_path_set(names, x);
        if table_names(t).contains(x) {
            assert(m.contains(x));
            let k = choose|k: int| 0 <= k < m.len() && m[k] == x;
            assert(unsorted[k]@ == x);
            assert(unsorted.contains(unsorted[k]));
            assert(names.contains(unsorted[k]));
            let j = choose|j: int| 0 <= j < names.len() && names[j] == unsorted[k];
            assert(names[j]@ == x);
        }
        if path_set(names).contains(x) {
            let j = choose|j: int| 0 <= j < names.len() && #[trigger] names[j]@ == x;
            assert(names.contains(names[j]));
            assert(unsorted.contains(names[j]));
            let k = choose|k: int| 0 <= k < unsorted.len() && unsorted[k] == names[j];
            assert(m[k] == x);
            assert(m.contains(x));
        }
    }
    assert(path_set(names) =~= table_names(t));
    assert forall|k: int| 0 <= k < names.len() implies !is_module(#[trigger] names[k]@) by {
        assert(names.contains(names[k]));
        assert(unsorted.contains(names[k]));
        let j = choose|j: int| 0 <= j < unsorted.len() && unsorted[j] == names[k];
        assert(!is_module(t.names[j].name.data));
    }
}

impl NameResolver {
    #[verifier::rlimit(50)]
    fn resolve_rows_exec(&mut self, table: &PathTable<Ranged<RawExpr>>, names: &Vec<RzPath>) -> (r: Vec<TypeRow<Ranged<RawExpr>>>)
        requires
            rows_named(table@),
            rows_resolve_ok(table@),
            path_set(names@) == table_names(table@),
            name_list_ok(names@),
            sorted_by_path(table.names@),
            old(self).errors@.len() == 0,
        ensures
            rows_view(r@) == resolve_rows(table@, table@.rows.len() as int).0,
            final(self).errors@ == resolve_rows(table@, table@.rows.len() as int).1,
    {
        let ghost t = table@;
        let ghost set = path_set(names@);
        let mut rows: Vec<TypeRow<Ranged<RawExpr>>> = Vec::new();
        let mut i: usize = 0;
        assert(rows_view(rows@) =~= Seq::<SpecTypeRow<Ranged<SpecExpr>>>::empty());
        assert(self.errors@ =~= Seq::<NameResolveError>::empty());
        while i < table.rows.len()
            invariant
                i <= table.rows.len(),
                t == table@,
                rows_named(t),
                rows_resolve_ok(t),
                set == path_set(names@),
                set == table_names(t),
                name_list_ok(names@),
                sorted_by_path(table.names@),
                rows_view(rows@) == resolve_rows(t, i as int).0,
                self.errors@ == resolve_rows(t, i as int).1,
            decreases table.rows.len() - i,
        {
            let row = &table.rows[i];
            assert(t.rows[i as int] == row@);
            assert(has_name_at(t.names, t.rows[i as int].path));
            proof {
                let j = choose|j: int| 0 <= j < t.names.len() && (#[trigger] t.names[j]).path == t.rows[i as int].path;
                assert(table.names@[j]@ == t.names[j]);
            }
            let ix = name_row_at(&table.names, &row.path);
            proof {
                lemma_row_ctx(table.names@, t, i as int, ix as int);
                assert(resolve_ok(t.rows[i as int].ty, row_ctx(t, i as int), set));
            }
            let ctx = &table.names[ix].name.data;
            let ghost prev = resolve_rows(t, i as int);
            let ty = self.resolve_in_expr(ctx, &row.ty, names);
            let new_row = TypeRow { path: row.path.duplicate(), ty };
            let ghost old_rows = rows_view(rows@);
            rows.push(new_row);
            assert(rows_view(rows@) =~= old_rows.push(new_row@));
            i += 1;
        }
        rows
    }

    /// Resolves the names used in each row of `table`, from the definition the
    /// row lies in (see [`resolve_expr`]): the rows are updated; the result is
    /// the errors, if there are any.
    pub fn resolve(self, table: &mut PathTable<Ranged<RawExpr>>) -> (r: Result<(), Vec<NameResolveError>>)
        requires
            self.is_fresh(),
            resolvable(old(table)@),
        ensures
            final(table)@ == resolve_table(old(table)@).0,
            resolve_table(old(table)@).1.len() == 0 ==> r is Ok,
            resolve_table(old(table)@).1.len() > 0 ==> (r matches Err(v) && v@ == resolve_table(old(table)@).1),
    {
        let ghost t = table@;
        let mut this = self;
        let unsorted = name_data(&table.names);
        let ghost uv = unsorted@;
        let names = sort_by_path_exec(unsorted);
        proof {
            lemma_name_map(t, uv, names@);
            assert forall|a: int, b: int| 0 <= a < b < table.names@.len() implies path_order(table.names@[a].key(), table.names@[b].key()) != Order::Greater by {
                assert(t.names[a] == table.names@[a]@);
                assert(t.names[b] == table.names@[b]@);
                assert(path_order(t.names[a].path, t.names[b].path) != Order::Greater);
            }
        }
        let rows = this.resolve_rows_exec(table, &names);
        table.rows = rows;
        assert(table@.names == t.names && table@.defs == t.defs);
        if this.errors.len() == 0 {
            Ok(())
        } else {
            Err(this.errors)
        }
    }
}


/// What a walk adds is well-formed: every row has a name row at its path
/// among what it adds, and every name names a data path.
pub open spec fn walk_good(w: Walk) -> bool {
    &&& forall|i: int| 0 <= i < w.rows.len() ==> has_name_at(w.names, (#[trigger] w.rows[i]).path)
    &&& forall|j: int| 0 <= j < w.names.len() ==> !is_module(#[trigger] w.names[j].name.data)
}

proof fn lemma_join_good(a: Walk, b: Walk)
    requires
        walk_good(a),
        walk_good(b),
    ensures
        walk_good(walk_join(a, b)),
{
    let w = walk_join(a, b);
    assert forall|i: int| 0 <= i < w.rows.len() implies has_name_at(w.names, (#[trigger] w.rows[i]).path) by {
        if i < a.rows.len() {
            assert(w.rows[i] == a.rows[i]);
            assert(has_name_at(a.names, a.rows[i].path));
            let j = choose|j: int| 0 <= j < a.names.len() && (#[trigger] a.names[j]).path == a.rows[i].path;
            assert(w.names[j] == a.names[j]);
            assert(w.names[j].path == w.rows[i].path);
        } else {
            assert(w.rows[i] == b.rows[i - a.rows.len()]);
            assert(has_name_at(b.names, b.rows[i - a.rows.len()].path));
            let j = choose|j: int| 0 <= j < b.names.len() && (#[trigger] b.names[j]).path == b.rows[i - a.rows.len()].path;
            assert(w.names[j + a.names.len()] == b.names[j]);
            assert(w.names[j + a.names.len()].path == w.rows[i].path);
        }
    }
    assert forall|j: int| 0 <= j < w.names.len() implies !is_module(#[trigger] w.names[j].name.data) by {
        if j < a.names.len() {
            assert(w.names[j] == a.names[j]);
        } else {
            assert(w.names[j] == b.names[j - a.names.len()]);
        }
    }
}

proof fn lemma_ty_good(cp: SpecPath, cn: SpecPath, name: Ranged<Seq<u8>>, body: Ranged<SpecExpr>, number: Option<usize>)
    ensures
        walk_good(walk_ty(cp, cn, name, body, number)),
    decreases body, 0int,
{
    let cp2 = push_seg(cp, match number {
        Some(n) => SpecSegment::Pos(n),
        None => SpecSegment::Name(name.data),
    });
    let cn2 = push_seg(cn, SpecSegment::Name(name.data));
    let first = Walk { rows: Seq::empty(), names: seq![SpecNameRow { path: cp2, name: Ranged { data: cn2, range: name.range } }], defs: Seq::empty() };
    assert(walk_good(first));
    match body.data {
        SpecExpr::List(items) => {
            lemma_list_good(cp2, cn2, items, items.len() as int);
            lemma_join_good(first, walk_list(cp2, cn2, items, items.len() as int).0);
        },
        _ => {
            let w = walk_ty(cp, cn, name, body, number);
            assert(w.names[0].path == cp2);
            assert(w.rows[0].path == cp2);
            assert(w.names.len() == 1 && w.rows.len() == 1);
            assert(has_name_at(w.names, w.rows[0].path));
        },
    }
}

proof fn lemma_def_good(cp: SpecPath, cn: SpecPath, name: Ranged<Seq<u8>>, body: Ranged<SpecExpr>)
    ensures
        walk_good(walk_def(cp, cn, name, body)),
    decreases body, 1int,
{
    lemma_ty_good(cp, cn, name, body, None);
    let first = Walk { rows: Seq::empty(), names: Seq::empty(), defs: seq![push_seg(cp, SpecSegment::Name(name.data))] };
    lemma_join_good(first, walk_ty(cp, cn, name, body, None));
}

proof fn lemma_data_good(cp: SpecPath, cn: SpecPath, data: Ranged<SpecExpr>, n: usize)
    ensures
        walk_good(walk_data(cp, cn, data, Some(n))),
{
    let w = walk_data(cp, cn, data, Some(n));
    assert(w.names[0].path == w.rows[0].path);
    assert(has_name_at(w.names, w.rows[0].path));
}

proof fn lemma_list_good(cp: SpecPath, cn: SpecPath, items: Seq<Ranged<SpecExpr>>, k: int)
    ensures
        walk_good(walk_list(cp, cn, items, k).0),
    decreases items, k,
{
    if k <= 0 || k > items.len() {
    } else {
        lemma_list_good(cp, cn, items, k - 1);
        let (w, num) = walk_list(cp, cn, items, k - 1);
        let e = items[k - 1];
        match e.data {
            SpecExpr::Def { name, data } => {
                lemma_def_good(cp, cn, name, *data);
                lemma_join_good(w, walk_def(cp, cn, name, *data));
            },
            SpecExpr::Ty { name, data } => {
                lemma_ty_good(cp, cn, name, *data, Some(num as usize));
                lemma_join_good(w, walk_ty(cp, cn, name, *data, Some(num as usize)));
            },
            _ => {
                lemma_data_good(cp, cn, e, num as usize);
                lemma_join_good(w, walk_data(cp, cn, e, Some(num as usize)));
            },
        }
    }
}

proof fn lemma_top_good(cp: SpecPath, items: Seq<Ranged<SpecExpr>>, k: int)
    ensures
        walk_good(walk_top(cp, items, k).0),
    decreases k,
{
    if k <= 0 || k > items.len() {
    } else {
        lemma_top_good(cp, items, k - 1);
        let (w, errs) = walk_top(cp, items, k - 1);
        match items[k - 1].data {
            SpecExpr::Def { name, data } => {
                lemma_def_good(cp, cp, name, *data);
                lemma_join_good(w, walk_def(cp, cp, name, *data));
            },
            SpecExpr::Ty { name, data } => {
                lemma_ty_good(cp, cp, name, *data, None);
                lemma_join_good(w, walk_ty(cp, cp, name, *data, None));
            },
            _ => {},
        }
    }
}

proof fn lemma_modules_good(mods: Seq<SpecModule>, k: int)
    ensures
        walk_good(walk_modules(mods, k).0),
    decreases k,
{
    if k <= 0 || k > mods.len() {
    } else {
        lemma_modules_good(mods, k - 1);
        let m = mods[k - 1];
        lemma_top_good(module_root(m), m.data.data, m.data.data.len() as int);
        lemma_join_good(walk_modules(mods, k - 1).0, walk_top(module_root(m), m.data.data, m.data.data.len() as int).0);
    }
}

/// The table that [`ExprConverter::convert`] gives is well-formed: its name
/// rows are sorted by path and name data paths, and every row has a name row
/// at its path; the name lookups of [`NameResolver::resolve`] rely on this.
pub proof fn lemma_convert_wf(mods: Seq<SpecModule>)
    ensures
        convert_of(mods) matches Ok(t) ==> table_wf(t),
{
    let (w, errs) = walk_modules(mods, mods.len() as int);
    lemma_modules_good(mods, mods.len() as int);
    if let Ok(t) = convert_of(mods) {
        lemma_sort_with(w.names, name_key());
        lemma_sort_with(w.rows, row_key());
        assert forall|i: int, j: int| 0 <= i < j < t.names.len() implies path_order(t.names[i].path, t.names[j].path) != Order::Greater by {
            assert(name_key()(t.names[i]) == t.names[i].path);
            assert(name_key()(t.names[j]) == t.names[j].path);
        }
        assert forall|i: int| 0 <= i < t.names.len() implies !is_module(#[trigger] t.names[i].name.data) by {
            assert(t.names.contains(t.names[i]));
            assert(w.names.contains(t.names[i]));
            let j = choose|j: int| 0 <= j < w.names.len() && w.names[j] == t.names[i];
            assert(!is_module(w.names[j].name.data));
        }
        assert forall|i: int| 0 <= i < t.rows.len() implies has_name_at(t.names, (#[trigger] t.rows[i]).path) by {
            assert(t.rows.contains(t.rows[i]));
            assert(w.rows.contains(t.rows[i]));
            let a = choose|a: int| 0 <= a < w.rows.len() && w.rows[a] == t.rows[i];
            assert(has_name_at(w.names, w.rows[a].path));
            let b = choose|b: int| 0 <= b < w.names.len() && (#[trigger] w.names[b]).path == w.rows[a].path;
            assert(w.names.contains(w.names[b]));
            assert(t.names.contains(w.names[b]));
            let c = choose|c: int| 0 <= c < t.names.len() && t.names[c] == w.names[b];
            assert(t.names[c].path == t.rows[i].path);
        }
    }
}

} // verus!

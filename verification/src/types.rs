//! Types: reading the rows of a path table as types, and writing types as Makam terms.

use vstd::prelude::*;
use vstd::string::StringSliceAdditionalSpecFns;
use crate::expr::{Location, Ranged, RawExpr, SpecExpr, rexpr, rexprs, lemma_expr_children};
use crate::path::{PathSegment, SpecSegment, PathTable, RzPath, SpecPath, SpecTable, SpecTypeRow, TypeRow, rows_view};
use crate::text::{copy_bytes, is_word, decimal, push_decimal, push_all, push_word};

verus! {

/// The byte order of an integer type.
#[derive(Debug, Clone, Copy, PartialEq, Eq, Structural)]
pub enum Endianness {
    Le,
    Be,
}

/// A type.
#[derive(Debug, PartialEq, Eq)]
pub enum TypeExpr {
    Top,
    Bottom,
    Bool,
    Int,
    U(usize, Endianness),
    S(usize, Endianness),
    Arr(Box<Ranged<TypeExpr>>, Ranged<Size>),
    Str(Ranged<Size>),
    And(Vec<Ranged<TypeExpr>>),
    Or(Vec<Ranged<TypeExpr>>),
    Prod(Vec<RzPath>),
    Ref(RzPath),
    Liq(Box<TypeExpr>, Vec<Ranged<Rel>>),
    Val(Value, Box<TypeExpr>),
}

/// A size: the relations it satisfies.
#[derive(Debug, PartialEq, Eq)]
pub struct Size {
    rels: Vec<Ranged<Rel>>,
}

/// A relation between two terms.
#[derive(Debug, PartialEq, Eq)]
pub enum Rel {
    Lt(Ranged<RelExpr>, Ranged<RelExpr>),
    Le(Ranged<RelExpr>, Ranged<RelExpr>),
    Eq(Ranged<RelExpr>, Ranged<RelExpr>),
    Ge(Ranged<RelExpr>, Ranged<RelExpr>),
    Gt(Ranged<RelExpr>, Ranged<RelExpr>),
}

/// A term of a relation: the value constrained, its size, a number, a path, or a size.
#[derive(Debug, PartialEq, Eq)]
pub enum RelExpr {
    Hole,
    Sizeof,
    Integer(Vec<u8>),
    Ref(RzPath),
    Size(Size),
}

/// A constant value.
#[derive(Debug, PartialEq, Eq)]
pub enum Value {
    Boolean(bool),
    Integer(Vec<u8>),
}

/// The mathematical value of a [`TypeExpr`].
pub enum SpecType {
    Top,
    Bottom,
    Bool,
    Int,
    U(usize, Endianness),
    S(usize, Endianness),
    Arr(Box<Ranged<SpecType>>, Ranged<SpecSize>),
    Str(Ranged<SpecSize>),
    And(Seq<Ranged<SpecType>>),
    Or(Seq<Ranged<SpecType>>),
    Prod(Seq<SpecPath>),
    Ref(SpecPath),
    Liq(Box<SpecType>, Seq<Ranged<SpecRel>>),
    Val(SpecValue, Box<SpecType>),
}

/// The mathematical value of a [`Size`].
pub struct SpecSize {
    pub rels: Seq<Ranged<SpecRel>>,
}

/// The mathematical value of a [`Rel`].
pub enum SpecRel {
    Lt(Ranged<SpecRelExpr>, Ranged<SpecRelExpr>),
    Le(Ranged<SpecRelExpr>, Ranged<SpecRelExpr>),
    Eq(Ranged<SpecRelExpr>, Ranged<SpecRelExpr>),
    Ge(Ranged<SpecRelExpr>, Ranged<SpecRelExpr>),
    Gt(Ranged<SpecRelExpr>, Ranged<SpecRelExpr>),
}

/// The mathematical value of a [`RelExpr`].
pub enum SpecRelExpr {
    Hole,
    Sizeof,
    Integer(Seq<u8>),
    Ref(SpecPath),
    Size(SpecSize),
}

/// The mathematical value of a [`Value`].
pub enum SpecValue {
    Boolean(bool),
    Integer(Seq<u8>),
}

pub open spec fn value_value(v: Value) -> SpecValue {
    match v {
        Value::Boolean(b) => SpecValue::Boolean(b),
        Value::Integer(s) => SpecValue::Integer(s@),
    }
}

pub open spec fn relexpr_value(e: RelExpr) -> SpecRelExpr
    decreases e, 0int,
{
    match e {
        RelExpr::Hole => SpecRelExpr::Hole,
        RelExpr::Sizeof => SpecRelExpr::Sizeof,
        RelExpr::Integer(s) => SpecRelExpr::Integer(s@),
        RelExpr::Ref(p) => SpecRelExpr::Ref(p@),
        RelExpr::Size(s) => SpecRelExpr::Size(size_value(s)),
    }
}

pub open spec fn rel_value(r: Rel) -> SpecRel
    decreases r, 0int,
{
    match r {
        Rel::Lt(a, b) => SpecRel::Lt(Ranged { data: relexpr_value(a.data), range: a.range }, Ranged { data: relexpr_value(b.data), range: b.range }),
        Rel::Le(a, b) => SpecRel::Le(Ranged { data: relexpr_value(a.data), range: a.range }, Ranged { data: relexpr_value(b.data), range: b.range }),
        Rel::Eq(a, b) => SpecRel::Eq(Ranged { data: relexpr_value(a.data), range: a.range }, Ranged { data: relexpr_value(b.data), range: b.range }),
        Rel::Ge(a, b) => SpecRel::Ge(Ranged { data: relexpr_value(a.data), range: a.range }, Ranged { data: relexpr_value(b.data), range: b.range }),
        Rel::Gt(a, b) => SpecRel::Gt(Ranged { data: relexpr_value(a.data), range: a.range }, Ranged { data: relexpr_value(b.data), range: b.range }),
    }
}

pub closed spec fn size_value(s: Size) -> SpecSize
    decreases s, 0int,
{
    SpecSize {
        rels: Seq::new(
            s.rels@.len(),
            |i: int|
                if 0 <= i < s.rels@.len() {
                    Ranged { data: rel_value(s.rels@[i].data), range: s.rels@[i].range }
                } else {
                    arbitrary()
                },
        ),
    }
}

pub open spec fn type_value(t: TypeExpr) -> SpecType
    decreases t,
{
    match t {
        TypeExpr::Top => SpecType::Top,
        TypeExpr::Bottom => SpecType::Bottom,
        TypeExpr::Bool => SpecType::Bool,
        TypeExpr::Int => SpecType::Int,
        TypeExpr::U(n, e) => SpecType::U(n, e),
        TypeExpr::S(n, e) => SpecType::S(n, e),
        TypeExpr::Arr(t, n) => SpecType::Arr(
            Box::new(Ranged { data: type_value(t.data), range: t.range }),
            Ranged { data: size_value(n.data), range: n.range },
        ),
        TypeExpr::Str(n) => SpecType::Str(Ranged { data: size_value(n.data), range: n.range }),
        TypeExpr::And(v) => SpecType::And(
            Seq::new(
                v@.len(),
                |i: int|
                    if 0 <= i < v@.len() {
                        Ranged { data: type_value(v@[i].data), range: v@[i].range }
                    } else {
                        arbitrary()
                    },
            ),
        ),
        TypeExpr::Or(v) => SpecType::Or(
            Seq::new(
                v@.len(),
                |i: int|
                    if 0 <= i < v@.len() {
                        Ranged { data: type_value(v@[i].data), range: v@[i].range }
                    } else {
                        arbitrary()
                    },
            ),
        ),
        TypeExpr::Prod(v) => SpecType::Prod(v@.map_values(|p: RzPath| p@)),
        TypeExpr::Ref(p) => SpecType::Ref(p@),
        TypeExpr::Liq(t, rels) => SpecType::Liq(
            Box::new(type_value(*t)),
            Seq::new(
                rels@.len(),
                |i: int|
                    if 0 <= i < rels@.len() {
                        Ranged { data: rel_value(rels@[i].data), range: rels@[i].range }
                    } else {
                        arbitrary()
                    },
            ),
        ),
        TypeExpr::Val(v, t) => SpecType::Val(value_value(v), Box::new(type_value(*t))),
    }
}

impl View for Value {
    type V = SpecValue;

    open spec fn view(&self) -> SpecValue {
        value_value(*self)
    }
}

impl View for RelExpr {
    type V = SpecRelExpr;

    open spec fn view(&self) -> SpecRelExpr {
        relexpr_value(*self)
    }
}

impl View for Rel {
    type V = SpecRel;

    open spec fn view(&self) -> SpecRel {
        rel_value(*self)
    }
}

impl View for Size {
    type V = SpecSize;

    open spec fn view(&self) -> SpecSize {
        size_value(*self)
    }
}

impl View for TypeExpr {
    type V = SpecType;

    open spec fn view(&self) -> SpecType {
        type_value(*self)
    }
}

/// The values of located relations.
pub open spec fn rels_view(v: Seq<Ranged<Rel>>) -> Seq<Ranged<SpecRel>> {
    Seq::new(v.len(), |i: int| v[i]@)
}

/// The values of located types.
pub open spec fn types_view(v: Seq<Ranged<TypeExpr>>) -> Seq<Ranged<SpecType>> {
    Seq::new(v.len(), |i: int| v[i]@)
}

proof fn lemma_size_rels(s: Size)
    ensures
        s@.rels == rels_view(s.rels@),
{
    assert(s@.rels =~= rels_view(s.rels@));
}

proof fn lemma_type_lists(t: TypeExpr)
    ensures
        t matches TypeExpr::And(v) ==> t@ == SpecType::And(types_view(v@)),
        t matches TypeExpr::Or(v) ==> t@ == SpecType::Or(types_view(v@)),
        t matches TypeExpr::Liq(b, rels) ==> t@ == SpecType::Liq(Box::new((*b)@), rels_view(rels@)),
{
    match t {
        TypeExpr::And(v) => {
            assert(t@->And_0 =~= types_view(v@));
        },
        TypeExpr::Or(v) => {
            assert(t@->Or_0 =~= types_view(v@));
        },
        TypeExpr::Liq(b, rels) => {
            assert(t@->Liq_1 =~= rels_view(rels@));
        },
        _ => {},
    }
}

impl Size {
    /// The relations that the size satisfies.
    pub fn rels(&self) -> (r: &Vec<Ranged<Rel>>)
        ensures
            rels_view(r@) == self@.rels,
    {
        proof {
            lemma_size_rels(*self);
        }
        &self.rels
    }
}


/// Why an expression could not be read as a type.
#[derive(Clone, Copy, Debug, PartialEq, Eq)]
pub enum ExprToTypeError {
    /// The expression is not a type.
    InvalidType(Location),
    /// A type constructor got the wrong number of arguments.
    InvalidArity { name: &'static str, expected: usize, actual: usize, location: Location },
    /// The expression is not a size.
    InvalidSize(Location),
    /// The expression is not a relation.
    InvalidRel(Location),
    /// The expression is not a term of a relation.
    InvalidRelExpr(Location),
    /// Lists are not types yet.
    UnsupportedList(Location),
}

/// The location of an expression, which must have one to report an error.
pub open spec fn at(e: Ranged<SpecExpr>) -> Location {
    e.range.unwrap()
}

/// The words of the relations.
pub open spec fn is_rel_word(n: Seq<u8>) -> bool {
    ||| n == "lt".spec_bytes()
    ||| n == "le".spec_bytes()
    ||| n == "eq".spec_bytes()
    ||| n == "ge".spec_bytes()
    ||| n == "gt".spec_bytes()
}

/// Whether a name is the word of a relation.
pub fn is_rel_name(name: &[u8]) -> (r: bool)
    ensures
        r == is_rel_word(name@),
{
    is_word(name, "lt") || is_word(name, "le") || is_word(name, "eq") || is_word(name, "ge") || is_word(name, "gt")
}

/// The name `_`.
pub open spec fn is_hole(e: SpecExpr) -> bool {
    e matches SpecExpr::Name(n) && n == "_".spec_bytes()
}

pub open spec fn with_range<T>(d: T, range: Option<Location>) -> Ranged<T> {
    Ranged { data: d, range }
}

/// The term of a relation that an expression stands for: a number, the value
/// itself (`_`), its size (`sizeof[_]`), or a path; the second part says that
/// the location an error needs is there.
pub open spec fn rel_expr_of(e: Ranged<SpecExpr>) -> (Result<Ranged<SpecRelExpr>, ExprToTypeError>, bool) {
    let bad = (Err(ExprToTypeError::InvalidRelExpr(at(e))), e.range is Some);
    match e.data {
        SpecExpr::Decimal(n) => (Ok(with_range(SpecRelExpr::Integer(n), e.range)), true),
        SpecExpr::Hexdecimal(n) => (Ok(with_range(SpecRelExpr::Integer(n), e.range)), true),
        SpecExpr::Name(n) => if n == "_".spec_bytes() {
            (Ok(with_range(SpecRelExpr::Hole, e.range)), true)
        } else {
            bad
        },
        SpecExpr::Apply { head, body } => if head.data == "sizeof".spec_bytes() && body.len() > 0 && is_hole(body[0].data) {
            (Ok(with_range(SpecRelExpr::Sizeof, e.range)), true)
        } else {
            bad
        },
        SpecExpr::Path(p) => (Ok(with_range(SpecRelExpr::Ref(p), e.range)), true),
        _ => bad,
    }
}

/// The relation that a relation word makes of two terms.
pub open spec fn rel_cons(w: Seq<u8>, l: Ranged<SpecRelExpr>, r: Ranged<SpecRelExpr>) -> SpecRel {
    if w == "lt".spec_bytes() {
        SpecRel::Lt(l, r)
    } else if w == "le".spec_bytes() {
        SpecRel::Le(l, r)
    } else if w == "eq".spec_bytes() {
        SpecRel::Eq(l, r)
    } else if w == "ge".spec_bytes() {
        SpecRel::Ge(l, r)
    } else {
        SpecRel::Gt(l, r)
    }
}

/// The relation that an expression stands for: a relation word applied to
/// exactly two terms. Reading one always needs the location of the
/// application.
pub open spec fn rel_of(e: Ranged<SpecExpr>) -> (Result<Ranged<SpecRel>, ExprToTypeError>, bool) {
    let bad = (Err(ExprToTypeError::InvalidRel(at(e))), e.range is Some);
    match e.data {
        SpecExpr::Apply { head, body } => if is_rel_word(head.data) {
            if body.len() != 2 {
                bad
            } else {
                let here = e.range is Some;
                match rel_expr_of(body[0]) {
                    (Err(x), f) => (Err(x), here && f),
                    (Ok(l), f) => match rel_expr_of(body[1]) {
                        (Err(x), g) => (Err(x), here && f && g),
                        (Ok(r), g) => (Ok(with_range(rel_cons(head.data, l, r), e.range)), here && f && g),
                    },
                }
            }
        } else {
            bad
        },
        _ => bad,
    }
}

/// The relations that `body[..k]` stand for, or the first error.
pub open spec fn rels_of(body: Seq<Ranged<SpecExpr>>, k: int) -> (Result<Seq<Ranged<SpecRel>>, ExprToTypeError>, bool)
    decreases k,
{
    if k <= 0 || k > body.len() {
        (Ok(Seq::empty()), true)
    } else {
        match rels_of(body, k - 1) {
            (Err(x), f) => (Err(x), f),
            (Ok(v), f) => match rel_of(body[k - 1]) {
                (Err(x), g) => (Err(x), f && g),
                (Ok(r), g) => (Ok(v.push(r)), f && g),
            },
        }
    }
}

/// The relations that an expression stands for: those of the arguments of an
/// `and`, or the one relation it is.
pub open spec fn rel_list_of(e: Ranged<SpecExpr>) -> (Result<Seq<Ranged<SpecRel>>, ExprToTypeError>, bool) {
    match e.data {
        SpecExpr::Apply { head, body } => if head.data == "and".spec_bytes() {
            rels_of(body, body.len() as int)
        } else {
            match rel_of(e) {
                (Ok(r), f) => (Ok(seq![r]), f),
                (Err(x), f) => (Err(x), f),
            }
        },
        _ => match rel_of(e) {
            (Ok(r), f) => (Ok(seq![r]), f),
            (Err(x), f) => (Err(x), f),
        },
    }
}

/// The size that an expression stands for: any (`_`), a number or a path it
/// equals, the relations of the sizes that the arguments of an `and` stand
/// for, or a relation.
pub open spec fn size_of(e: Ranged<SpecExpr>) -> (Result<Ranged<SpecSize>, ExprToTypeError>, bool)
    decreases e, 0int,
{
    let bad = (Err(ExprToTypeError::InvalidSize(at(e))), e.range is Some);
    let one = |d: SpecRelExpr| (Ok(with_range(SpecSize { rels: seq![with_range(SpecRel::Eq(with_range(SpecRelExpr::Hole, None), with_range(d, e.range)), e.range)] }, e.range)), true);
    match e.data {
        SpecExpr::Name(n) => if n == "_".spec_bytes() {
            (Ok(with_range(SpecSize { rels: Seq::empty() }, e.range)), true)
        } else {
            bad
        },
        SpecExpr::Decimal(n) => one(SpecRelExpr::Integer(n)),
        SpecExpr::Hexdecimal(n) => one(SpecRelExpr::Integer(n)),
        SpecExpr::Path(p) => one(SpecRelExpr::Ref(p)),
        SpecExpr::Apply { head, body } => if head.data == "and".spec_bytes() {
            match sizes_of(body, body.len() as int) {
                (Ok(rels), f) => (Ok(with_range(SpecSize { rels }, e.range)), f),
                (Err(x), f) => (Err(x), f),
            }
        } else if is_rel_word(head.data) {
            match rel_of(e) {
                (Ok(r), f) => (Ok(with_range(SpecSize { rels: seq![r] }, e.range)), f),
                (Err(x), f) => (Err(x), f),
            }
        } else {
            bad
        },
        _ => bad,
    }
}

/// The relations of the sizes that `body[..k]` stand for, in order, or the first error.
pub open spec fn sizes_of(body: Seq<Ranged<SpecExpr>>, k: int) -> (Result<Seq<Ranged<SpecRel>>, ExprToTypeError>, bool)
    decreases body, k,
{
    if k <= 0 || k > body.len() {
        (Ok(Seq::empty()), true)
    } else {
        match sizes_of(body, k - 1) {
            (Err(x), f) => (Err(x), f),
            (Ok(v), f) => match size_of(body[k - 1]) {
                (Err(x), g) => (Err(x), f && g),
                (Ok(sz), g) => (Ok(v + sz.data.rels), f && g),
            },
        }
    }
}

/// The type that a name stands for by itself, if any.
#[verifier::opaque]
pub open spec fn named_type(n: Seq<u8>) -> Option<SpecType> {
    if n == "_".spec_bytes() {
        Some(SpecType::Top)
    } else if n == "never".spec_bytes() {
        Some(SpecType::Bottom)
    } else if n == "bool".spec_bytes() {
        Some(SpecType::Bool)
    } else if n == "true".spec_bytes() {
        Some(SpecType::Val(SpecValue::Boolean(true), Box::new(SpecType::Bool)))
    } else if n == "false".spec_bytes() {
        Some(SpecType::Val(SpecValue::Boolean(false), Box::new(SpecType::Bool)))
    } else if n == "int".spec_bytes() {
        Some(SpecType::Int)
    } else if n == "u1".spec_bytes() {
        Some(SpecType::U(1, Endianness::Be))
    } else if n == "u2".spec_bytes() {
        Some(SpecType::U(2, Endianness::Be))
    } else if n == "u4".spec_bytes() {
        Some(SpecType::U(4, Endianness::Be))
    } else if n == "u8".spec_bytes() {
        Some(SpecType::U(8, Endianness::Be))
    } else if n == "u2le".spec_bytes() {
        Some(SpecType::U(2, Endianness::Le))
    } else if n == "u4le".spec_bytes() {
        Some(SpecType::U(4, Endianness::Le))
    } else if n == "u8le".spec_bytes() {
        Some(SpecType::U(8, Endianness::Le))
    } else if n == "s1".spec_bytes() {
        Some(SpecType::S(1, Endianness::Be))
    } else if n == "s2".spec_bytes() {
        Some(SpecType::S(2, Endianness::Be))
    } else if n == "s4".spec_bytes() {
        Some(SpecType::S(4, Endianness::Be))
    } else if n == "s8".spec_bytes() {
        Some(SpecType::S(8, Endianness::Be))
    } else if n == "s2le".spec_bytes() {
        Some(SpecType::S(2, Endianness::Le))
    } else if n == "s4le".spec_bytes() {
        Some(SpecType::S(4, Endianness::Le))
    } else if n == "s8le".spec_bytes() {
        Some(SpecType::S(8, Endianness::Le))
    } else {
        None
    }
}

/// The type that an expression stands for by itself: a built-in name, or a
/// number (a value of `int`).
pub open spec fn simple_of(e: Ranged<SpecExpr>) -> Option<Ranged<SpecType>> {
    match e.data {
        SpecExpr::Name(n) => match named_type(n) {
            Some(t) => Some(with_range(t, e.range)),
            None => None,
        },
        SpecExpr::Decimal(s) => Some(with_range(SpecType::Val(SpecValue::Integer(s), Box::new(SpecType::Int)), e.range)),
        SpecExpr::Hexdecimal(s) => Some(with_range(SpecType::Val(SpecValue::Integer(s), Box::new(SpecType::Int)), e.range)),
        _ => None,
    }
}

/// The paths of a list of expressions that are all paths.
pub open spec fn all_paths(body: Seq<Ranged<SpecExpr>>) -> bool {
    forall|k: int| 0 <= k < body.len() ==> (#[trigger] body[k]).data is Path
}

pub open spec fn paths_of(body: Seq<Ranged<SpecExpr>>) -> Seq<SpecPath> {
    body.map_values(|e: Ranged<SpecExpr>| e.data->Path_0)
}

/// The error for a constructor given the wrong number of arguments.
pub open spec fn arity_error(name: &'static str, expected: usize, e: Ranged<SpecExpr>, actual: nat) -> (Option<Ranged<SpecType>>, Seq<ExprToTypeError>, bool) {
    (None, seq![ExprToTypeError::InvalidArity { name, expected, actual: actual as usize, location: at(e) }], e.range is Some)
}

/// The type that an expression stands for, if any, with the errors met in
/// order; the third part says that the locations they need are there, and
/// that a `:prod` has only paths as arguments.
pub open spec fn type_of(e: Ranged<SpecExpr>) -> (Option<Ranged<SpecType>>, Seq<ExprToTypeError>, bool)
    decreases e, 0int,
{
    match simple_of(e) {
        Some(t) => (Some(t), Seq::empty(), true),
        None => match e.data {
            SpecExpr::Apply { head, body } => {
                let h = head.data;
                if is_rel_word(h) {
                    match rel_list_of(e) {
                        (Ok(rels), f) => (Some(with_range(SpecType::Liq(Box::new(SpecType::Top), rels), e.range)), Seq::empty(), f),
                        (Err(x), f) => (None, seq![x], f),
                    }
                } else if h == "and".spec_bytes() {
                    let (ts, errs, f) = types_of(body, body.len() as int);
                    (Some(with_range(SpecType::And(ts), e.range)), errs, f)
                } else if h == "or".spec_bytes() {
                    let (ts, errs, f) = types_of(body, body.len() as int);
                    (Some(with_range(SpecType::Or(ts), e.range)), errs, f)
                } else if h == "arr".spec_bytes() {
                    if body.len() != 2 {
                        arity_error("arr", 2, e, body.len())
                    } else {
                        match type_of(body[0]) {
                            (None, errs, f) => (None, errs, f),
                            (Some(t), errs, f) => match size_of(body[1]) {
                                (Err(x), g) => (None, errs.push(x), f && g),
                                (Ok(n), g) => (Some(with_range(SpecType::Arr(Box::new(t), n), e.range)), errs, f && g),
                            },
                        }
                    }
                } else if h == "str".spec_bytes() {
                    if body.len() != 1 {
                        arity_error("str", 1, e, body.len())
                    } else {
                        match size_of(body[0]) {
                            (Err(x), g) => (None, seq![x], g),
                            (Ok(n), g) => (Some(with_range(SpecType::Str(n), e.range)), Seq::empty(), g),
                        }
                    }
                } else if h == "bytes".spec_bytes() {
                    if body.len() != 1 {
                        arity_error("bytes", 1, e, body.len())
                    } else {
                        match size_of(body[0]) {
                            (Err(x), g) => (None, seq![x], g),
                            (Ok(n), g) => (Some(with_range(SpecType::Arr(Box::new(with_range(SpecType::U(1, Endianness::Be), None)), n), e.range)), Seq::empty(), g),
                        }
                    }
                } else if h == "size".spec_bytes() {
                    if body.len() != 1 {
                        arity_error("size", 1, e, body.len())
                    } else {
                        match size_of(body[0]) {
                            (Err(x), g) => (None, seq![x], g),
                            (Ok(n), g) => (Some(with_range(SpecType::Liq(Box::new(SpecType::Top), seq![with_range(SpecRel::Eq(with_range(SpecRelExpr::Sizeof, None), with_range(SpecRelExpr::Size(n.data), n.range)), None)]), e.range)), Seq::empty(), g),
                        }
                    }
                } else if h == ":prod".spec_bytes() {
                    (Some(with_range(SpecType::Prod(paths_of(body)), e.range)), Seq::empty(), all_paths(body))
                } else {
                    (None, seq![ExprToTypeError::InvalidType(at(e))], e.range is Some)
                }
            },
            SpecExpr::Path(p) => (Some(with_range(SpecType::Ref(p), e.range)), Seq::empty(), true),
            SpecExpr::List(_) => (None, seq![ExprToTypeError::UnsupportedList(at(e))], e.range is Some),
            _ => (None, seq![ExprToTypeError::InvalidType(at(e))], e.range is Some),
        },
    }
}

/// The types of `body[..k]` that stand for one, with all their errors in order.
pub open spec fn types_of(body: Seq<Ranged<SpecExpr>>, k: int) -> (Seq<Ranged<SpecType>>, Seq<ExprToTypeError>, bool)
    decreases body, k,
{
    if k <= 0 || k > body.len() {
        (Seq::empty(), Seq::empty(), true)
    } else {
        let (ts, errs, f) = types_of(body, k - 1);
        match type_of(body[k - 1]) {
            (Some(t), e, g) => (ts.push(t), errs + e, f && g),
            (None, e, g) => (ts, errs + e, f && g),
        }
    }
}


/// The value of a result whose success has a view.
pub open spec fn result_view<T: View>(r: Result<T, ExprToTypeError>) -> Result<T::V, ExprToTypeError> {
    match r {
        Ok(t) => Ok(t@),
        Err(x) => Err(x),
    }
}

/// Whether an expression is the name `_`.
fn is_hole_expr(e: &RawExpr) -> (r: bool)
    ensures
        r == is_hole(e@),
{
    match e {
        RawExpr::Name(n) => is_word(n.as_slice(), "_"),
        _ => false,
    }
}

fn as_rel_expr(expr: &Ranged<RawExpr>) -> (r: Result<Ranged<RelExpr>, ExprToTypeError>)
    requires
        rel_expr_of(expr@).1,
    ensures
        result_view(r) == rel_expr_of(expr@).0,
{
    proof {
        lemma_expr_children(expr.data);
    }
    let d = match &expr.data {
        RawExpr::Decimal(n) => RelExpr::Integer(copy_bytes(n.as_slice())),
        RawExpr::Hexdecimal(n) => RelExpr::Integer(copy_bytes(n.as_slice())),
        RawExpr::Name(n) => {
            if is_word(n.as_slice(), "_") {
                RelExpr::Hole
            } else {
                return Err(ExprToTypeError::InvalidRelExpr(expr.range.unwrap()));
            }
        },
        RawExpr::Apply { head, body } => {
            if is_word(head.data.as_slice(), "sizeof") && body.len() > 0 && is_hole_expr(&body[0].data) {
                RelExpr::Sizeof
            } else {
                return Err(ExprToTypeError::InvalidRelExpr(expr.range.unwrap()));
            }
        },
        RawExpr::Path(p) => RelExpr::Ref(p.duplicate()),
        _ => return Err(ExprToTypeError::InvalidRelExpr(expr.range.unwrap())),
    };
    Ok(Ranged { data: d, range: expr.range })
}

fn as_rel(expr: &Ranged<RawExpr>) -> (r: Result<Ranged<Rel>, ExprToTypeError>)
    requires
        rel_of(expr@).1,
    ensures
        result_view(r) == rel_of(expr@).0,
{
    proof {
        lemma_expr_children(expr.data);
    }
    match &expr.data {
        RawExpr::Apply { head, body } => {
            let w = head.data.as_slice();
            if !is_rel_name(w) {
                return Err(ExprToTypeError::InvalidRel(expr.range.unwrap()));
            }
            let location = expr.range.unwrap();
            if body.len() != 2 {
                return Err(ExprToTypeError::InvalidRel(location));
            }
            let left = match as_rel_expr(&body[0]) {
                Ok(l) => l,
                Err(x) => return Err(x),
            };
            let right = match as_rel_expr(&body[1]) {
                Ok(r) => r,
                Err(x) => return Err(x),
            };
            let rel = if is_word(w, "lt") {
                Rel::Lt(left, right)
            } else if is_word(w, "le") {
                Rel::Le(left, right)
            } else if is_word(w, "eq") {
                Rel::Eq(left, right)
            } else if is_word(w, "ge") {
                Rel::Ge(left, right)
            } else {
                Rel::Gt(left, right)
            };
            Ok(Ranged { data: rel, range: expr.range })
        },
        _ => Err(ExprToTypeError::InvalidRel(expr.range.unwrap())),
    }
}

/// Reading relations stops at the first error: the flag of a longer prefix
/// covers the shorter ones, and an error stays what the whole list gives.
proof fn lemma_rels_of_prefix(body: Seq<Ranged<SpecExpr>>, i: int, j: int)
    requires
        0 <= i <= j <= body.len(),
    ensures
        rels_of(body, j).1 ==> rels_of(body, i).1,
        rels_of(body, i).0 is Err ==> rels_of(body, j) == rels_of(body, i),
    decreases j - i,
{
    if i < j {
        lemma_rels_of_prefix(body, i, j - 1);
    }
}

fn as_rel_list(expr: &Ranged<RawExpr>) -> (r: Result<Vec<Ranged<Rel>>, ExprToTypeError>)
    requires
        rel_list_of(expr@).1,
    ensures
        match r {
            Ok(v) => rel_list_of(expr@).0 == Ok::<Seq<Ranged<SpecRel>>, ExprToTypeError>(rels_view(v@)),
            Err(x) => rel_list_of(expr@).0 == Err::<Seq<Ranged<SpecRel>>, ExprToTypeError>(x),
        },
{
    proof {
        lemma_expr_children(expr.data);
    }
    match &expr.data {
        RawExpr::Apply { head, body } => {
            if is_word(head.data.as_slice(), "and") {
                let ghost items = rexprs(body@);
                let ghost n = body@.len() as int;
                let mut out: Vec<Ranged<Rel>> = Vec::new();
                let mut i: usize = 0;
                assert(rels_view(out@) =~= Seq::<Ranged<SpecRel>>::empty());
                while i < body.len()
                    invariant
                        i <= body.len(),
                        n == body@.len(),
                        items == rexprs(body@),
                        rels_of(items, n).1,
                        rel_list_of(expr@) == rels_of(items, n),
                        rels_of(items, i as int).0 == Ok::<Seq<Ranged<SpecRel>>, ExprToTypeError>(rels_view(out@)),
                    decreases body.len() - i,
                {
                    proof {
                        lemma_rels_of_prefix(items, i + 1, n);
                        assert(items[i as int] == body@[i as int]@);
                    }
                    match as_rel(&body[i]) {
                        Ok(rel) => {
                            let ghost before = rels_view(out@);
                            out.push(rel);
                            assert(rels_view(out@) =~= before.push(rel@));
                        },
                        Err(x) => {
                            assert(rels_of(items, i + 1).0 == Err::<Seq<Ranged<SpecRel>>, ExprToTypeError>(x));
                            assert(rels_of(items, n).0 == Err::<Seq<Ranged<SpecRel>>, ExprToTypeError>(x));
                            return Err(x);
                        },
                    }
                    i += 1;
                }
                return Ok(out);
            }
        },
        _ => {},
    }
    match as_rel(expr) {
        Ok(rel) => {
            let v = vec![rel];
            assert(rels_view(v@) =~= seq![rel@]);
            Ok(v)
        },
        Err(x) => Err(x),
    }
}


/// Reading sizes stops at the first error, as reading relations does.
proof fn lemma_sizes_of_prefix(body: Seq<Ranged<SpecExpr>>, i: int, j: int)
    requires
        0 <= i <= j <= body.len(),
    ensures
        sizes_of(body, j).1 ==> sizes_of(body, i).1,
        sizes_of(body, i).0 is Err ==> sizes_of(body, j) == sizes_of(body, i),
    decreases j - i,
{
    if i < j {
        lemma_sizes_of_prefix(body, i, j - 1);
    }
}

/// The size `_ == d`, at the location of `expr`.
fn size_equal_to(d: RelExpr, range: Option<Location>) -> (r: Ranged<Size>)
    ensures
        r@ == with_range(SpecSize { rels: seq![with_range(SpecRel::Eq(with_range(SpecRelExpr::Hole, None), with_range(d@, range)), range)] }, range),
{
    let rel = Ranged { data: Rel::Eq(Ranged::new(RelExpr::Hole), Ranged { data: d, range }), range };
    let rels = vec![rel];
    let r = Ranged { data: Size { rels }, range };
    proof {
        lemma_size_rels(r.data);
        assert(rels_view(rels@) =~= seq![rel@]);
    }
    r
}

fn as_size(expr: &Ranged<RawExpr>) -> (r: Result<Ranged<Size>, ExprToTypeError>)
    requires
        size_of(expr@).1,
    ensures
        result_view(r) == size_of(expr@).0,
    decreases expr, 0int,
{
    proof {
        lemma_expr_children(expr.data);
    }
    match &expr.data {
        RawExpr::Name(n) => {
            if is_word(n.as_slice(), "_") {
                let r = Ranged { data: Size { rels: Vec::new() }, range: expr.range };
                proof {
                    lemma_size_rels(r.data);
                    assert(rels_view(r.data.rels@) =~= Seq::<Ranged<SpecRel>>::empty());
                }
                Ok(r)
            } else {
                Err(ExprToTypeError::InvalidSize(expr.range.unwrap()))
            }
        },
        RawExpr::Decimal(n) => Ok(size_equal_to(RelExpr::Integer(copy_bytes(n.as_slice())), expr.range)),
        RawExpr::Hexdecimal(n) => Ok(size_equal_to(RelExpr::Integer(copy_bytes(n.as_slice())), expr.range)),
        RawExpr::Path(p) => Ok(size_equal_to(RelExpr::Ref(p.duplicate()), expr.range)),
        RawExpr::Apply { head, body } => {
            if is_word(head.data.as_slice(), "and") {
                match as_sizes(body) {
                    Ok(rels) => {
                        let r = Ranged { data: Size { rels }, range: expr.range };
                        proof {
                            lemma_size_rels(r.data);
                        }
                        Ok(r)
                    },
                    Err(x) => Err(x),
                }
            } else if is_rel_name(head.data.as_slice()) {
                match as_rel(expr) {
                    Ok(rel) => {
                        let rels = vec![rel];
                        let r = Ranged { data: Size { rels }, range: expr.range };
                        proof {
                            lemma_size_rels(r.data);
                            assert(rels_view(rels@) =~= seq![rel@]);
                        }
                        Ok(r)
                    },
                    Err(x) => Err(x),
                }
            } else {
                Err(ExprToTypeError::InvalidSize(expr.range.unwrap()))
            }
        },
        _ => Err(ExprToTypeError::InvalidSize(expr.range.unwrap())),
    }
}

/// The relations of the sizes of the arguments of an `and`, in order.
fn as_sizes(body: &Vec<Ranged<RawExpr>>) -> (r: Result<Vec<Ranged<Rel>>, ExprToTypeError>)
    requires
        sizes_of(rexprs(body@), body@.len() as int).1,
    ensures
        match r {
            Ok(v) => sizes_of(rexprs(body@), body@.len() as int).0 == Ok::<Seq<Ranged<SpecRel>>, ExprToTypeError>(rels_view(v@)),
            Err(x) => sizes_of(rexprs(body@), body@.len() as int).0 == Err::<Seq<Ranged<SpecRel>>, ExprToTypeError>(x),
        },
    decreases body, 1int,
{
    let ghost items = rexprs(body@);
    let ghost n = body@.len() as int;
    let mut out: Vec<Ranged<Rel>> = Vec::new();
    let mut i: usize = 0;
    assert(rels_view(out@) =~= Seq::<Ranged<SpecRel>>::empty());
    while i < body.len()
        invariant
            i <= body.len(),
            n == body@.len(),
            items == rexprs(body@),
            sizes_of(items, n).1,
            sizes_of(items, i as int).0 == Ok::<Seq<Ranged<SpecRel>>, ExprToTypeError>(rels_view(out@)),
        decreases body.len() - i,
    {
        proof {
            lemma_sizes_of_prefix(items, i + 1, n);
            assert(items[i as int] == body@[i as int]@);
        }
        match as_size(&body[i]) {
            Ok(sz) => {
                let ghost before = rels_view(out@);
                proof {
                    lemma_size_rels(sz.data);
                }
                let mut more = sz.data.rels;
                let ghost added = rels_view(more@);
                out.append(&mut more);
                assert(rels_view(out@) =~= before + added);
            },
            Err(x) => {
                assert(sizes_of(items, i + 1).0 == Err::<Seq<Ranged<SpecRel>>, ExprToTypeError>(x));
                assert(sizes_of(items, n).0 == Err::<Seq<Ranged<SpecRel>>, ExprToTypeError>(x));
                return Err(x);
            },
        }
        i += 1;
    }
    Ok(out)
}


/// The value of an optional located type.
pub open spec fn type_opt_view(o: Option<Ranged<TypeExpr>>) -> Option<Ranged<SpecType>> {
    match o {
        Some(t) => Some(t@),
        None => None,
    }
}

fn named_type_of(n: &[u8]) -> (r: Option<TypeExpr>)
    ensures
        match r {
            Some(t) => named_type(n@) == Some(t@),
            None => named_type(n@) is None,
        },
{
    reveal(named_type);
    if is_word(n, "_") {
        let r = Some(TypeExpr::Top);
        r
    } else if is_word(n, "never") {
        let r = Some(TypeExpr::Bottom);
        r
    } else if is_word(n, "bool") {
        let r = Some(TypeExpr::Bool);
        r
    } else if is_word(n, "true") {
        let r = Some(TypeExpr::Val(Value::Boolean(true), Box::new(TypeExpr::Bool)));
        assert(type_value(TypeExpr::Bool) == SpecType::Bool);
        r
    } else if is_word(n, "false") {
        let r = Some(TypeExpr::Val(Value::Boolean(false), Box::new(TypeExpr::Bool)));
        assert(type_value(TypeExpr::Bool) == SpecType::Bool);
        r
    } else if is_word(n, "int") {
        let r = Some(TypeExpr::Int);
        r
    } else if is_word(n, "u1") {
        let r = Some(TypeExpr::U(1, Endianness::Be));
        r
    } else if is_word(n, "u2") {
        let r = Some(TypeExpr::U(2, Endianness::Be));
        r
    } else if is_word(n, "u4") {
        let r = Some(TypeExpr::U(4, Endianness::Be));
        r
    } else if is_word(n, "u8") {
        let r = Some(TypeExpr::U(8, Endianness::Be));
        r
    } else if is_word(n, "u2le") {
        let r = Some(TypeExpr::U(2, Endianness::Le));
        r
    } else if is_word(n, "u4le") {
        let r = Some(TypeExpr::U(4, Endianness::Le));
        r
    } else if is_word(n, "u8le") {
        let r = Some(TypeExpr::U(8, Endianness::Le));
        r
    } else if is_word(n, "s1") {
        let r = Some(TypeExpr::S(1, Endianness::Be));
        r
    } else if is_word(n, "s2") {
        let r = Some(TypeExpr::S(2, Endianness::Be));
        r
    } else if is_word(n, "s4") {
        let r = Some(TypeExpr::S(4, Endianness::Be));
        r
    } else if is_word(n, "s8") {
        let r = Some(TypeExpr::S(8, Endianness::Be));
        r
    } else if is_word(n, "s2le") {
        let r = Some(TypeExpr::S(2, Endianness::Le));
        r
    } else if is_word(n, "s4le") {
        let r = Some(TypeExpr::S(4, Endianness::Le));
        r
    } else if is_word(n, "s8le") {
        let r = Some(TypeExpr::S(8, Endianness::Le));
        r
    } else {
        None
    }
}

fn as_simple_type(expr: &Ranged<RawExpr>) -> (r: Option<Ranged<TypeExpr>>)
    ensures
        type_opt_view(r) == simple_of(expr@),
{
    let t = match &expr.data {
        RawExpr::Name(n) => match named_type_of(n.as_slice()) {
            Some(t) => t,
            None => return None,
        },
        RawExpr::Decimal(s) => TypeExpr::Val(Value::Integer(copy_bytes(s.as_slice())), Box::new(TypeExpr::Int)),
        RawExpr::Hexdecimal(s) => TypeExpr::Val(Value::Integer(copy_bytes(s.as_slice())), Box::new(TypeExpr::Int)),
        _ => return None,
    };
    assert(type_value(TypeExpr::Int) == SpecType::Int);
    Some(Ranged { data: t, range: expr.range })
}

/// Reading types goes on past errors: the flag of a longer prefix covers the
/// shorter ones and the types read one by one.
proof fn lemma_types_of_prefix(body: Seq<Ranged<SpecExpr>>, i: int, j: int)
    requires
        0 <= i <= j <= body.len(),
    ensures
        types_of(body, j).2 ==> types_of(body, i).2,
        types_of(body, j).2 && i < j ==> type_of(body[i]).2,
    decreases j - i,
{
    if i < j {
        lemma_types_of_prefix(body, i, j - 1);
        if i + 1 < j {
            lemma_types_of_prefix(body, i + 1, j - 1);
        }
    }
}



/// The rows of `rows[..k]` whose expressions stand for a type, as types,
/// with all the errors met in order; the third part says that reading them
/// needs no location that is missing.
pub open spec fn type_rows(rows: Seq<SpecTypeRow<Ranged<SpecExpr>>>, k: int) -> (Seq<SpecTypeRow<Ranged<SpecType>>>, Seq<ExprToTypeError>, bool)
    decreases k,
{
    if k <= 0 || k > rows.len() {
        (Seq::empty(), Seq::empty(), true)
    } else {
        let (rs, errs, f) = type_rows(rows, k - 1);
        match type_of(rows[k - 1].ty) {
            (Some(t), e, g) => (rs.push(SpecTypeRow { path: rows[k - 1].path, ty: t }), errs + e, f && g),
            (None, e, g) => (rs, errs + e, f && g),
        }
    }
}

/// Whether every row of a table can be read without a missing location.
pub open spec fn types_readable(t: SpecTable<Ranged<SpecExpr>>) -> bool {
    type_rows(t.rows, t.rows.len() as int).2
}

/// The table of types that a table of expressions gives after the errors
/// `errs`: the rows that stand for a type, and the same names and
/// definitions, if no error was met at all; otherwise every error in order.
pub open spec fn into_types_of(errs: Seq<ExprToTypeError>, t: SpecTable<Ranged<SpecExpr>>) -> Result<SpecTable<Ranged<SpecType>>, Seq<ExprToTypeError>> {
    let (rows, more, _) = type_rows(t.rows, t.rows.len() as int);
    let all = errs + more;
    if all.len() == 0 {
        Ok(SpecTable { rows, names: t.names, defs: t.defs })
    } else {
        Err(all)
    }
}

proof fn lemma_type_rows_prefix(rows: Seq<SpecTypeRow<Ranged<SpecExpr>>>, i: int, j: int)
    requires
        0 <= i <= j <= rows.len(),
    ensures
        type_rows(rows, j).2 ==> type_rows(rows, i).2,
        type_rows(rows, j).2 && i < j ==> type_of(rows[i].ty).2,
    decreases j - i,
{
    if i < j {
        lemma_type_rows_prefix(rows, i, j - 1);
        if i + 1 < j {
            lemma_type_rows_prefix(rows, i + 1, j - 1);
        }
    }
}

/// Reads expressions as types, gathering the errors it meets.
pub struct ExprToType {
    errors: Vec<ExprToTypeError>,
}

impl ExprToType {
    /// The errors gathered so far, in order.
    pub closed spec fn errors_view(&self) -> Seq<ExprToTypeError> {
        self.errors@
    }

    /// A reader that has met no error.
    pub fn new() -> (r: Self)
        ensures
            r.errors_view() == Seq::<ExprToTypeError>::empty(),
    {
        ExprToType { errors: Vec::new() }
    }

    fn as_type(&mut self, expr: &Ranged<RawExpr>) -> (r: Option<Ranged<TypeExpr>>)
        requires
            type_of(expr@).2,
        ensures
            type_opt_view(r) == type_of(expr@).0,
            final(self).errors@ == old(self).errors@ + type_of(expr@).1,
        decreases expr, 0int,
    {
        proof {
            lemma_expr_children(expr.data);
        }
        let ghost e = expr@;
        match as_simple_type(expr) {
            Some(t) => {
                assert(self.errors@ =~= old(self).errors@ + Seq::<ExprToTypeError>::empty());
                return Some(t);
            },
            None => {},
        }
        let range = expr.range;
        match &expr.data {
            RawExpr::Apply { head, body } => {
                let h = head.data.as_slice();
                if is_rel_name(h) {
                    match as_rel_list(expr) {
                        Ok(rels) => {
                            let t = TypeExpr::Liq(Box::new(TypeExpr::Top), rels);
                            proof {
                                lemma_type_lists(t);
                            }
                            assert(self.errors@ =~= old(self).errors@ + Seq::<ExprToTypeError>::empty());
                            Some(Ranged { data: t, range })
                        },
                        Err(x) => {
                            self.errors.push(x);
                            assert(self.errors@ =~= old(self).errors@ + seq![x]);
                            None
                        },
                    }
                } else if is_word(h, "and") {
                    let ts = self.as_types(body);
                    let t = TypeExpr::And(ts);
                    proof {
                        lemma_type_lists(t);
                    }
                    Some(Ranged { data: t, range })
                } else if is_word(h, "or") {
                    let ts = self.as_types(body);
                    let t = TypeExpr::Or(ts);
                    proof {
                        lemma_type_lists(t);
                    }
                    Some(Ranged { data: t, range })
                } else if is_word(h, "arr") {
                    if body.len() != 2 {
                        let x = ExprToTypeError::InvalidArity { name: "arr", expected: 2, actual: body.len(), location: expr.range.unwrap() };
                        self.errors.push(x);
                        assert(self.errors@ =~= old(self).errors@ + seq![x]);
                        return None;
                    }
                    assert(body@[0]@ == rexprs(body@)[0]);
                    let inner = match self.as_type(&body[0]) {
                        Some(t) => t,
                        None => return None,
                    };
                    let ghost mid = self.errors@;
                    assert(body@[1]@ == rexprs(body@)[1]);
                    match as_size(&body[1]) {
                        Ok(n) => {
                            assert(self.errors@ =~= mid + Seq::<ExprToTypeError>::empty());
                            Some(Ranged { data: TypeExpr::Arr(Box::new(inner), n), range })
                        },
                        Err(x) => {
                            self.errors.push(x);
                            assert(self.errors@ =~= old(self).errors@ + type_of(e).1);
                            None
                        },
                    }
                } else if is_word(h, "str") || is_word(h, "bytes") || is_word(h, "size") {
                    let name: &'static str = if is_word(h, "str") {
                        "str"
                    } else if is_word(h, "bytes") {
                        "bytes"
                    } else {
                        "size"
                    };
                    if body.len() != 1 {
                        let x = ExprToTypeError::InvalidArity { name, expected: 1, actual: body.len(), location: expr.range.unwrap() };
                        self.errors.push(x);
                        assert(self.errors@ =~= old(self).errors@ + seq![x]);
                        return None;
                    }
                    assert(body@[0]@ == rexprs(body@)[0]);
                    let n = match as_size(&body[0]) {
                        Ok(n) => n,
                        Err(x) => {
                            self.errors.push(x);
                            assert(self.errors@ =~= old(self).errors@ + seq![x]);
                            return None;
                        },
                    };
                    assert(self.errors@ =~= old(self).errors@ + Seq::<ExprToTypeError>::empty());
                    let t = if is_word(h, "str") {
                        TypeExpr::Str(n)
                    } else if is_word(h, "bytes") {
                        let byte = TypeExpr::U(1, Endianness::Be);
                        assert(byte@ == SpecType::U(1, Endianness::Be));
                        TypeExpr::Arr(Box::new(Ranged::new(byte)), n)
                    } else {
                        let Ranged { data: size, range: size_range } = n;
                        let rel = Rel::Eq(Ranged::new(RelExpr::Sizeof), Ranged { data: RelExpr::Size(size), range: size_range });
                        let rels = vec![Ranged::new(rel)];
                        let t = TypeExpr::Liq(Box::new(TypeExpr::Top), rels);
                        proof {
                            lemma_type_lists(t);
                            assert(rels_view(rels@) =~= seq![rels@[0]@]);
                        }
                        t
                    };
                    Some(Ranged { data: t, range })
                } else if is_word(h, ":prod") {
                    let mut paths: Vec<RzPath> = Vec::new();
                    let mut i: usize = 0;
                    while i < body.len()
                        invariant
                            i <= body.len(),
                            all_paths(rexprs(body@)),
                            paths@.len() == i,
                            forall|k: int| 0 <= k < i ==> #[trigger] paths@[k]@ == rexprs(body@)[k].data->Path_0,
                        decreases body.len() - i,
                    {
                        assert(rexprs(body@)[i as int].data is Path);
                        match &body[i].data {
                            RawExpr::Path(p) => {
                                paths.push(p.duplicate());
                            },
                            _ => {
                                assert(false);
                            },
                        }
                        i += 1;
                    }
                    let t = TypeExpr::Prod(paths);
                    assert(paths@.map_values(|p: RzPath| p@) =~= paths_of(rexprs(body@)));
                    assert(self.errors@ =~= old(self).errors@ + Seq::<ExprToTypeError>::empty());
                    Some(Ranged { data: t, range })
                } else {
                    let x = ExprToTypeError::InvalidType(expr.range.unwrap());
                    self.errors.push(x);
                    assert(self.errors@ =~= old(self).errors@ + seq![x]);
                    None
                }
            },
            RawExpr::Path(p) => {
                assert(self.errors@ =~= old(self).errors@ + Seq::<ExprToTypeError>::empty());
                Some(Ranged { data: TypeExpr::Ref(p.duplicate()), range })
            },
            RawExpr::List(_) => {
                let x = ExprToTypeError::UnsupportedList(expr.range.unwrap());
                self.errors.push(x);
                assert(self.errors@ =~= old(self).errors@ + seq![x]);
                None
            },
            _ => {
                let x = ExprToTypeError::InvalidType(expr.range.unwrap());
                self.errors.push(x);
                assert(self.errors@ =~= old(self).errors@ + seq![x]);
                None
            },
        }
    }

    /// The table whose rows are the types that the rows of `table` stand
    /// for, with its names and definitions, if no error was met; otherwise
    /// all the errors, in order.
    pub fn into_types(self, table: PathTable<Ranged<RawExpr>>) -> (r: Result<PathTable<Ranged<TypeExpr>>, Vec<ExprToTypeError>>)
        requires
            types_readable(table@),
        ensures
            match r {
                Ok(t) => into_types_of(self.errors_view(), table@) == Ok::<SpecTable<Ranged<SpecType>>, Seq<ExprToTypeError>>(t@),
                Err(e) => into_types_of(self.errors_view(), table@) == Err::<SpecTable<Ranged<SpecType>>, Seq<ExprToTypeError>>(e@),
            },
    {
        let ghost t0 = table@;
        let ghost errs0 = self.errors@;
        let mut reader = self;
        let PathTable { rows, names, defs } = table;
        let ghost rv = t0.rows;
        let ghost n = rows@.len() as int;
        let mut out: Vec<TypeRow<Ranged<TypeExpr>>> = Vec::new();
        let mut i: usize = 0;
        assert(rows_view(out@) =~= Seq::<SpecTypeRow<Ranged<SpecType>>>::empty());
        assert(reader.errors@ =~= errs0 + Seq::<ExprToTypeError>::empty());
        while i < rows.len()
            invariant
                i <= rows.len(),
                n == rows@.len(),
                rv == rows_view(rows@),
                rv.len() == n,
                type_rows(rv, n).2,
                rows_view(out@) == type_rows(rv, i as int).0,
                reader.errors@ == errs0 + type_rows(rv, i as int).1,
            decreases rows.len() - i,
        {
            proof {
                lemma_type_rows_prefix(rv, i as int, n);
                assert(rv[i as int] == rows@[i as int]@);
            }
            let ghost prev = type_rows(rv, i as int);
            let row = &rows[i];
            match reader.as_type(&row.ty) {
                Some(t) => {
                    let ghost before = rows_view(out@);
                    let new_row = TypeRow { path: row.path.duplicate(), ty: t };
                    out.push(new_row);
                    assert(rows_view(out@) =~= before.push(new_row@));
                },
                None => {},
            }
            assert(reader.errors@ =~= errs0 + (prev.1 + type_of(rv[i as int].ty).1));
            i += 1;
        }
        if reader.errors.len() == 0 {
            Ok(PathTable { rows: out, names, defs })
        } else {
            Err(reader.errors)
        }
    }

    /// The types of the arguments of an `and` or an `or` that stand for
    /// one; the errors of the others are gathered in order.
    fn as_types(&mut self, body: &Vec<Ranged<RawExpr>>) -> (r: Vec<Ranged<TypeExpr>>)
        requires
            types_of(rexprs(body@), body@.len() as int).2,
        ensures
            types_view(r@) == types_of(rexprs(body@), body@.len() as int).0,
            final(self).errors@ == old(self).errors@ + types_of(rexprs(body@), body@.len() as int).1,
        decreases body, 1int,
    {
        let ghost items = rexprs(body@);
        let ghost n = body@.len() as int;
        let mut out: Vec<Ranged<TypeExpr>> = Vec::new();
        let mut i: usize = 0;
        assert(types_view(out@) =~= Seq::<Ranged<SpecType>>::empty());
        assert(self.errors@ =~= old(self).errors@ + Seq::<ExprToTypeError>::empty());
        while i < body.len()
            invariant
                i <= body.len(),
                n == body@.len(),
                items == rexprs(body@),
                types_of(items, n).2,
                types_view(out@) == types_of(items, i as int).0,
                self.errors@ == old(self).errors@ + types_of(items, i as int).1,
            decreases body.len() - i,
        {
            proof {
                lemma_types_of_prefix(items, i as int, n);
                assert(items[i as int] == body@[i as int]@);
            }
            let ghost before = self.errors@;
            let ghost prev = types_of(items, i as int);
            match self.as_type(&body[i]) {
                Some(t) => {
                    let ghost tv = types_view(out@);
                    out.push(t);
                    assert(types_view(out@) =~= tv.push(t@));
                },
                None => {},
            }
            assert(self.errors@ =~= old(self).errors@ + (prev.1 + type_of(items[i as int]).1));
            i += 1;
        }
        out
    }
}


/// A text between double quotes.
pub open spec fn quoted(t: Seq<u8>) -> Seq<u8> {
    seq![34u8] + t + seq![34u8]
}

/// The text of a path segment: its position in decimal, or its name.
pub open spec fn segment_text(s: SpecSegment) -> Seq<u8> {
    match s {
        SpecSegment::Pos(n) => decimal(n as nat),
        SpecSegment::Name(t) => t,
    }
}

/// The quoted texts of `v[..k]`, separated by `, `.
pub open spec fn quoted_texts(v: Seq<Seq<u8>>, k: int) -> Seq<u8>
    decreases k,
{
    if k <= 0 || k > v.len() {
        Seq::empty()
    } else if k == 1 {
        quoted(v[0])
    } else {
        quoted_texts(v, k - 1) + ", ".spec_bytes() + quoted(v[k - 1])
    }
}

/// The quoted texts of the segments `v[..k]`, separated by `, `.
pub open spec fn quoted_segments(v: Seq<SpecSegment>, k: int) -> Seq<u8>
    decreases k,
{
    if k <= 0 || k > v.len() {
        Seq::empty()
    } else if k == 1 {
        quoted(segment_text(v[0]))
    } else {
        quoted_segments(v, k - 1) + ", ".spec_bytes() + quoted(segment_text(v[k - 1]))
    }
}

/// A path as a Makam term: `(path [modules] [data])`, each part quoted.
pub open spec fn makam_path(p: SpecPath) -> Seq<u8> {
    "(path [".spec_bytes() + quoted_texts(p.modules, p.modules.len() as int) + "] [".spec_bytes()
        + quoted_segments(p.data, p.data.len() as int) + "])".spec_bytes()
}

/// The Makam terms of the paths `v[..k]`, separated by `, `.
pub open spec fn makam_paths(v: Seq<SpecPath>, k: int) -> Seq<u8>
    decreases k,
{
    if k <= 0 || k > v.len() {
        Seq::empty()
    } else if k == 1 {
        makam_path(v[0])
    } else {
        makam_paths(v, k - 1) + ", ".spec_bytes() + makam_path(v[k - 1])
    }
}

/// A value as a Makam term.
pub open spec fn makam_value(v: SpecValue) -> Seq<u8> {
    match v {
        SpecValue::Boolean(b) => "(value_bool ".spec_bytes() + (if b { "true".spec_bytes() } else { "false".spec_bytes() }) + ")".spec_bytes(),
        SpecValue::Integer(i) => "(value_int ".spec_bytes() + i + ")".spec_bytes(),
    }
}

/// A term of a relation as a Makam term.
pub open spec fn makam_rel_expr(e: SpecRelExpr) -> Seq<u8>
    decreases e, 0int,
{
    match e {
        SpecRelExpr::Hole => "rel_hole".spec_bytes(),
        SpecRelExpr::Sizeof => "rel_sizeof".spec_bytes(),
        SpecRelExpr::Integer(i) => "(rel_int ".spec_bytes() + i + ")".spec_bytes(),
        SpecRelExpr::Ref(p) => "(rel_ref ".spec_bytes() + makam_path(p) + ")".spec_bytes(),
        SpecRelExpr::Size(sz) => "(ref_size ".spec_bytes() + makam_size(sz) + ")".spec_bytes(),
    }
}

/// The Makam name of a relation.
pub open spec fn rel_word(r: SpecRel) -> Seq<u8> {
    match r {
        SpecRel::Lt(..) => "(rel_lt ".spec_bytes(),
        SpecRel::Le(..) => "(rel_le ".spec_bytes(),
        SpecRel::Eq(..) => "(rel_eq ".spec_bytes(),
        SpecRel::Ge(..) => "(rel_ge ".spec_bytes(),
        SpecRel::Gt(..) => "(rel_gt ".spec_bytes(),
    }
}

/// A relation as a Makam term: its name, then its two terms.
pub open spec fn makam_rel(r: SpecRel) -> Seq<u8>
    decreases r, 0int,
{
    match r {
        SpecRel::Lt(a, b) => rel_word(r) + makam_rel_expr(a.data) + " ".spec_bytes() + makam_rel_expr(b.data) + ")".spec_bytes(),
        SpecRel::Le(a, b) => rel_word(r) + makam_rel_expr(a.data) + " ".spec_bytes() + makam_rel_expr(b.data) + ")".spec_bytes(),
        SpecRel::Eq(a, b) => rel_word(r) + makam_rel_expr(a.data) + " ".spec_bytes() + makam_rel_expr(b.data) + ")".spec_bytes(),
        SpecRel::Ge(a, b) => rel_word(r) + makam_rel_expr(a.data) + " ".spec_bytes() + makam_rel_expr(b.data) + ")".spec_bytes(),
        SpecRel::Gt(a, b) => rel_word(r) + makam_rel_expr(a.data) + " ".spec_bytes() + makam_rel_expr(b.data) + ")".spec_bytes(),
    }
}

/// The Makam terms of the relations `v[..k]`, separated by `, `.
pub open spec fn makam_rels(v: Seq<Ranged<SpecRel>>, k: int) -> Seq<u8>
    decreases v, k,
{
    if k <= 0 || k > v.len() {
        Seq::empty()
    } else if k == 1 {
        makam_rel(v[0].data)
    } else {
        makam_rels(v, k - 1) + ", ".spec_bytes() + makam_rel(v[k - 1].data)
    }
}

/// A size as a Makam term: the list of its relations.
pub open spec fn makam_size(s: SpecSize) -> Seq<u8>
    decreases s, 0int,
{
    "[".spec_bytes() + makam_rels(s.rels, s.rels.len() as int) + "]".spec_bytes()
}

/// The Makam name of a byte order.
pub open spec fn endian_word(e: Endianness) -> Seq<u8> {
    match e {
        Endianness::Be => " big_endian)".spec_bytes(),
        Endianness::Le => " little_endian)".spec_bytes(),
    }
}

/// A type as a Makam term.
pub open spec fn makam_ty(t: SpecType) -> Seq<u8>
    decreases t, 0int,
{
    match t {
        SpecType::Top => "top".spec_bytes(),
        SpecType::Bottom => "bottom".spec_bytes(),
        SpecType::Bool => "boolean".spec_bytes(),
        SpecType::Int => "integer".spec_bytes(),
        SpecType::U(n, e) => "(u ".spec_bytes() + decimal(n as nat) + endian_word(e),
        SpecType::S(n, e) => "(s ".spec_bytes() + decimal(n as nat) + endian_word(e),
        SpecType::Arr(a, n) => "(arr ".spec_bytes() + makam_ty(a.data) + " ".spec_bytes() + makam_size(n.data) + ")".spec_bytes(),
        SpecType::Str(n) => "(str ".spec_bytes() + makam_size(n.data) + ")".spec_bytes(),
        SpecType::And(v) => "(meet [".spec_bytes() + makam_tys(v, v.len() as int) + "])".spec_bytes(),
        SpecType::Or(v) => "(join [".spec_bytes() + makam_tys(v, v.len() as int) + "])".spec_bytes(),
        SpecType::Ref(p) => "(ref [".spec_bytes() + makam_path(p) + "])".spec_bytes(),
        SpecType::Prod(v) => "(prod [".spec_bytes() + makam_paths(v, v.len() as int) + "])".spec_bytes(),
        SpecType::Liq(b, rels) => "(liq ".spec_bytes() + makam_ty(*b) + " [".spec_bytes() + makam_rels(rels, rels.len() as int) + "])".spec_bytes(),
        SpecType::Val(v, b) => "(val ".spec_bytes() + makam_value(v) + " ".spec_bytes() + makam_ty(*b) + ")".spec_bytes(),
    }
}

/// The Makam terms of the types `v[..k]`, separated by `, `.
pub open spec fn makam_tys(v: Seq<Ranged<SpecType>>, k: int) -> Seq<u8>
    decreases v, k,
{
    if k <= 0 || k > v.len() {
        Seq::empty()
    } else if k == 1 {
        makam_ty(v[0].data)
    } else {
        makam_tys(v, k - 1) + ", ".spec_bytes() + makam_ty(v[k - 1].data)
    }
}


fn push_quoted(out: &mut Vec<u8>, t: &[u8])
    ensures
        final(out)@ == old(out)@ + quoted(t@),
{
    out.push(34);
    push_all(out, t);
    out.push(34);
    assert(out@ =~= old(out)@ + quoted(t@));
}

fn push_segment(out: &mut Vec<u8>, s: &PathSegment)
    ensures
        final(out)@ == old(out)@ + segment_text(s@),
{
    match s {
        PathSegment::Pos(n) => push_decimal(out, *n),
        PathSegment::Name(t) => push_all(out, t.as_slice()),
    }
}

impl PathSegment {
    /// The segment as text: its position in decimal, or its name.
    pub fn to_text(&self) -> (r: Vec<u8>)
        ensures
            r@ == segment_text(self@),
    {
        let mut out: Vec<u8> = Vec::new();
        push_segment(&mut out, self);
        assert(out@ =~= segment_text(self@));
        out
    }
}

fn push_makam_path(out: &mut Vec<u8>, p: &RzPath)
    ensures
        final(out)@ == old(out)@ + makam_path(p@),
{
    let ghost start = out@;
    push_word(out, "(path [");
    let ghost head = out@;
    let mut i: usize = 0;
    while i < p.modules.len()
        invariant
            i <= p.modules.len(),
            out@ == head + quoted_texts(p@.modules, i as int),
        decreases p.modules.len() - i,
    {
        let ghost before = out@;
        if i > 0 {
            push_word(out, ", ");
        }
        push_quoted(out, p.modules[i].as_slice());
        assert(p@.modules[i as int] == p.modules@[i as int]@);
        assert(out@ =~= head + quoted_texts(p@.modules, i + 1));
        i += 1;
    }
    push_word(out, "] [");
    let ghost mid = out@;
    let mut j: usize = 0;
    while j < p.data.len()
        invariant
            j <= p.data.len(),
            out@ == mid + quoted_segments(p@.data, j as int),
        decreases p.data.len() - j,
    {
        if j > 0 {
            push_word(out, ", ");
        }
        let ghost before = out@;
        let mut piece: Vec<u8> = Vec::new();
        push_segment(&mut piece, &p.data[j]);
        push_quoted(out, piece.as_slice());
        assert(p@.data[j as int] == p.data@[j as int]@);
        assert(out@ =~= mid + quoted_segments(p@.data, j + 1));
        j += 1;
    }
    push_word(out, "])");
    assert(out@ =~= start + makam_path(p@));
}

/// A path as a Makam term: `(path ["m", ..] ["d", ..])`.
pub fn as_makam_path(path: &RzPath) -> (r: Vec<u8>)
    ensures
        r@ == makam_path(path@),
{
    let mut out: Vec<u8> = Vec::new();
    push_makam_path(&mut out, path);
    assert(out@ =~= makam_path(path@));
    out
}

fn push_makam_value(out: &mut Vec<u8>, v: &Value)
    ensures
        final(out)@ == old(out)@ + makam_value(v@),
{
    match v {
        Value::Boolean(b) => {
            push_word(out, "(value_bool ");
            if *b {
                push_word(out, "true");
            } else {
                push_word(out, "false");
            }
            push_word(out, ")");
        },
        Value::Integer(i) => {
            push_word(out, "(value_int ");
            push_all(out, i.as_slice());
            push_word(out, ")");
        },
    }
    assert(out@ =~= old(out)@ + makam_value(v@));
}

/// A value as a Makam term: `(value_bool b)` or `(value_int i)`.
pub fn as_makam_value(value: &Value) -> (r: Vec<u8>)
    ensures
        r@ == makam_value(value@),
{
    let mut out: Vec<u8> = Vec::new();
    push_makam_value(&mut out, value);
    assert(out@ =~= makam_value(value@));
    out
}

fn push_makam_rel_expr(out: &mut Vec<u8>, e: &RelExpr)
    ensures
        final(out)@ == old(out)@ + makam_rel_expr(e@),
    decreases e, 0int,
{
    match e {
        RelExpr::Hole => push_word(out, "rel_hole"),
        RelExpr::Sizeof => push_word(out, "rel_sizeof"),
        RelExpr::Integer(i) => {
            push_word(out, "(rel_int ");
            push_all(out, i.as_slice());
            push_word(out, ")");
        },
        RelExpr::Ref(p) => {
            push_word(out, "(rel_ref ");
            push_makam_path(out, p);
            push_word(out, ")");
        },
        RelExpr::Size(sz) => {
            push_word(out, "(ref_size ");
            push_makam_size(out, sz);
            push_word(out, ")");
        },
    }
    assert(out@ =~= old(out)@ + makam_rel_expr(e@));
}

/// The two terms of a relation.
pub open spec fn rel_sides(r: SpecRel) -> (SpecRelExpr, SpecRelExpr) {
    match r {
        SpecRel::Lt(a, b) => (a.data, b.data),
        SpecRel::Le(a, b) => (a.data, b.data),
        SpecRel::Eq(a, b) => (a.data, b.data),
        SpecRel::Ge(a, b) => (a.data, b.data),
        SpecRel::Gt(a, b) => (a.data, b.data),
    }
}

proof fn lemma_makam_rel(r: SpecRel)
    ensures
        makam_rel(r) == rel_word(r) + makam_rel_expr(rel_sides(r).0) + " ".spec_bytes() + makam_rel_expr(rel_sides(r).1) + ")".spec_bytes(),
{
}

fn rel_name(r: &Rel) -> (w: &'static str)
    ensures
        w.spec_bytes() == rel_word(r@),
{
    match r {
        Rel::Lt(..) => "(rel_lt ",
        Rel::Le(..) => "(rel_le ",
        Rel::Eq(..) => "(rel_eq ",
        Rel::Ge(..) => "(rel_ge ",
        Rel::Gt(..) => "(rel_gt ",
    }
}

fn push_makam_rel(out: &mut Vec<u8>, r: &Rel)
    ensures
        final(out)@ == old(out)@ + makam_rel(r@),
    decreases r, 0int,
{
    let (a, b) = match r {
        Rel::Lt(a, b) => (a, b),
        Rel::Le(a, b) => (a, b),
        Rel::Eq(a, b) => (a, b),
        Rel::Ge(a, b) => (a, b),
        Rel::Gt(a, b) => (a, b),
    };
    assert(rel_sides(r@) == (a.data@, b.data@));
    proof {
        lemma_makam_rel(r@);
    }
    push_word(out, rel_name(r));
    push_makam_rel_expr(out, &a.data);
    push_word(out, " ");
    push_makam_rel_expr(out, &b.data);
    push_word(out, ")");
    assert(out@ =~= old(out)@ + makam_rel(r@));
}

fn push_makam_rels(out: &mut Vec<u8>, v: &Vec<Ranged<Rel>>)
    ensures
        final(out)@ == old(out)@ + makam_rels(rels_view(v@), v@.len() as int),
    decreases v, 1int,
{
    let ghost w = rels_view(v@);
    let mut i: usize = 0;
    assert(out@ =~= old(out)@ + makam_rels(w, 0));
    while i < v.len()
        invariant
            i <= v.len(),
            w == rels_view(v@),
            w.len() == v@.len(),
            out@ == old(out)@ + makam_rels(w, i as int),
        decreases v.len() - i,
    {
        if i > 0 {
            push_word(out, ", ");
        }
        push_makam_rel(out, &v[i].data);
        assert(w[i as int].data == v@[i as int].data@);
        assert(out@ =~= old(out)@ + makam_rels(w, i + 1));
        i += 1;
    }
}

fn push_makam_size(out: &mut Vec<u8>, s: &Size)
    ensures
        final(out)@ == old(out)@ + makam_size(s@),
    decreases s, 0int,
{
    proof {
        lemma_size_rels(*s);
    }
    push_word(out, "[");
    push_makam_rels(out, &s.rels);
    push_word(out, "]");
    assert(out@ =~= old(out)@ + makam_size(s@));
}

/// A size as a Makam term: the list of its relations.
pub fn as_makam_size(size: &Size) -> (r: Vec<u8>)
    ensures
        r@ == makam_size(size@),
{
    let mut out: Vec<u8> = Vec::new();
    push_makam_size(&mut out, size);
    assert(out@ =~= makam_size(size@));
    out
}

/// A term of a relation as a Makam term.
pub fn as_makam_rel_expr(expr: &RelExpr) -> (r: Vec<u8>)
    ensures
        r@ == makam_rel_expr(expr@),
{
    let mut out: Vec<u8> = Vec::new();
    push_makam_rel_expr(&mut out, expr);
    assert(out@ =~= makam_rel_expr(expr@));
    out
}

/// A relation as a Makam term.
pub fn as_makam_rel(rel: &Rel) -> (r: Vec<u8>)
    ensures
        r@ == makam_rel(rel@),
{
    let mut out: Vec<u8> = Vec::new();
    push_makam_rel(&mut out, rel);
    assert(out@ =~= makam_rel(rel@));
    out
}


fn push_makam_paths(out: &mut Vec<u8>, v: &Vec<RzPath>)
    ensures
        final(out)@ == old(out)@ + makam_paths(v@.map_values(|p: RzPath| p@), v@.len() as int),
{
    let ghost w = v@.map_values(|p: RzPath| p@);
    let mut i: usize = 0;
    assert(out@ =~= old(out)@ + makam_paths(w, 0));
    while i < v.len()
        invariant
            i <= v.len(),
            w == v@.map_values(|p: RzPath| p@),
            out@ == old(out)@ + makam_paths(w, i as int),
        decreases v.len() - i,
    {
        if i > 0 {
            push_word(out, ", ");
        }
        push_makam_path(out, &v[i]);
        assert(w[i as int] == v@[i as int]@);
        assert(out@ =~= old(out)@ + makam_paths(w, i + 1));
        i += 1;
    }
}

fn push_makam_tys(out: &mut Vec<u8>, v: &Vec<Ranged<TypeExpr>>)
    ensures
        final(out)@ == old(out)@ + makam_tys(types_view(v@), v@.len() as int),
    decreases v, 1int,
{
    let ghost w = types_view(v@);
    let mut i: usize = 0;
    assert(out@ =~= old(out)@ + makam_tys(w, 0));
    while i < v.len()
        invariant
            i <= v.len(),
            w == types_view(v@),
            w.len() == v@.len(),
            out@ == old(out)@ + makam_tys(w, i as int),
        decreases v.len() - i,
    {
        if i > 0 {
            push_word(out, ", ");
        }
        push_makam_ty(out, &v[i].data);
        assert(w[i as int].data == v@[i as int].data@);
        assert(out@ =~= old(out)@ + makam_tys(w, i + 1));
        i += 1;
    }
}

fn push_endian(out: &mut Vec<u8>, e: Endianness)
    ensures
        final(out)@ == old(out)@ + endian_word(e),
{
    match e {
        Endianness::Be => push_word(out, " big_endian)"),
        Endianness::Le => push_word(out, " little_endian)"),
    }
}

fn push_makam_ty(out: &mut Vec<u8>, t: &TypeExpr)
    ensures
        final(out)@ == old(out)@ + makam_ty(t@),
    decreases t, 0int,
{
    proof {
        lemma_type_lists(*t);
    }
    match t {
        TypeExpr::Top => push_word(out, "top"),
        TypeExpr::Bottom => push_word(out, "bottom"),
        TypeExpr::Bool => push_word(out, "boolean"),
        TypeExpr::Int => push_word(out, "integer"),
        TypeExpr::U(n, e) => {
            push_word(out, "(u ");
            push_decimal(out, *n);
            push_endian(out, *e);
            assert(out@ =~= old(out)@ + makam_ty(t@));
        },
        TypeExpr::S(n, e) => {
            push_word(out, "(s ");
            push_decimal(out, *n);
            push_endian(out, *e);
            assert(out@ =~= old(out)@ + makam_ty(t@));
        },
        TypeExpr::Arr(a, n) => {
            push_word(out, "(arr ");
            push_makam_ty(out, &a.data);
            push_word(out, " ");
            push_makam_size(out, &n.data);
            push_word(out, ")");
            assert(out@ =~= old(out)@ + makam_ty(t@));
        },
        TypeExpr::Str(n) => {
            push_word(out, "(str ");
            push_makam_size(out, &n.data);
            push_word(out, ")");
            assert(out@ =~= old(out)@ + makam_ty(t@));
        },
        TypeExpr::And(v) => {
            push_word(out, "(meet [");
            push_makam_tys(out, v);
            push_word(out, "])");
            assert(out@ =~= old(out)@ + makam_ty(t@));
        },
        TypeExpr::Or(v) => {
            push_word(out, "(join [");
            push_makam_tys(out, v);
            push_word(out, "])");
            assert(out@ =~= old(out)@ + makam_ty(t@));
        },
        TypeExpr::Ref(p) => {
            push_word(out, "(ref [");
            push_makam_path(out, p);
            push_word(out, "])");
            assert(out@ =~= old(out)@ + makam_ty(t@));
        },
        TypeExpr::Prod(v) => {
            push_word(out, "(prod [");
            push_makam_paths(out, v);
            push_word(out, "])");
            assert(out@ =~= old(out)@ + makam_ty(t@));
        },
        TypeExpr::Liq(b, rels) => {
            push_word(out, "(liq ");
            push_makam_ty(out, b);
            push_word(out, " [");
            push_makam_rels(out, rels);
            push_word(out, "])");
            assert(out@ =~= old(out)@ + makam_ty(t@));
        },
        TypeExpr::Val(v, b) => {
            push_word(out, "(val ");
            push_makam_value(out, v);
            push_word(out, " ");
            push_makam_ty(out, b);
            push_word(out, ")");
            assert(out@ =~= old(out)@ + makam_ty(t@));
        },
    }
}

/// A type as a Makam term.
pub fn as_makam_ty(ty: &TypeExpr) -> (r: Vec<u8>)
    ensures
        r@ == makam_ty(ty@),
{
    let mut out: Vec<u8> = Vec::new();
    push_makam_ty(&mut out, ty);
    assert(out@ =~= makam_ty(ty@));
    out
}

} // verus!

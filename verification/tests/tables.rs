use razbor::expr::{copy_expr, ExprLoader, LoadErrorKind, Location, Ranged, RawExpr, RawModule, Span};
use razbor::files::module_paths;
use razbor::guards::{can_convert, can_resolve};
use razbor::path::{is_reserved_name, ExprConvertError, ExprConverter, NameResolveError, NameResolver, PathSegment, PathTable, RzPath};

fn load(files: &[(&str, &str)], root: &str) -> Result<Vec<RawModule>, Vec<LoadErrorKind>> {
    let read = |path: &[u8]| -> Result<Vec<u8>, Vec<u8>> {
        files.iter().find(|(n, _)| n.as_bytes() == path).map(|(_, c)| c.as_bytes().to_vec()).ok_or(b"missing".to_vec())
    };
    let is_there = |path: &[u8]| files.iter().any(|(n, _)| n.as_bytes() == path);
    let mut loader = ExprLoader::new();
    if let Err(e) = loader.load_root(root.as_bytes().to_vec(), read(root.as_bytes())) {
        return Err(vec![e]);
    }
    while let Some(req) = loader.next_step() {
        let (first, second) = module_paths(&req.dir, &req.name, &req.parent);
        let found = if is_there(&first) { Some(first) } else if is_there(&second) { Some(second) } else { None };
        if let Some(path) = loader.locate(req, found) {
            loader.receive(read(&path));
        }
    }
    loader.finish().1
}

fn convert(files: &[(&str, &str)], root: &str) -> Result<PathTable<Ranged<RawExpr>>, Vec<ExprConvertError>> {
    let modules = load(files, root).unwrap();
    ExprConverter::new().convert(&modules)
}

fn loc(file_id: usize, from: usize, to: usize) -> Location {
    Location { file_id, span: Span { from, to } }
}

fn data_path(modules: &[&str], data: &[PathSegment]) -> RzPath {
    RzPath { modules: modules.iter().map(|m| m.as_bytes().to_vec()).collect(), data: data.to_vec() }
}

fn name(s: &str) -> PathSegment {
    PathSegment::Name(s.as_bytes().to_vec())
}

#[test]
fn definitions_become_rows_and_names() {
    let files = [("d/m.mexpr", "def[a, u8]\ndef[b, a]\n")];
    let table = convert(&files, "d/m.mexpr").unwrap();
    let a = data_path(&["m"], &[name("a")]);
    let b = data_path(&["m"], &[name("b")]);
    assert_eq!(table.rows.len(), 2);
    assert_eq!(table.rows[0].path, a);
    assert_eq!(table.rows[0].ty, Ranged { data: RawExpr::Name(b"u8".to_vec()), range: Some(loc(0, 7, 9)) });
    assert_eq!(table.rows[1].path, b);
    assert_eq!(table.rows[1].ty, Ranged { data: RawExpr::Name(b"a".to_vec()), range: Some(loc(0, 18, 19)) });
    assert_eq!(table.names.len(), 2);
    assert_eq!(table.names[0].path, a);
    assert_eq!(table.names[0].name, Ranged { data: a.clone(), range: Some(loc(0, 4, 5)) });
    assert_eq!(table.names[1].name, Ranged { data: b.clone(), range: Some(loc(0, 15, 16)) });
    assert_eq!(table.defs, vec![a, b]);
}

#[test]
fn list_items_take_positions() {
    let files = [("d/m.mexpr", "def[p, [ty[x, u8], ann[doc], u4, def[q, u2]]]")];
    let table = convert(&files, "d/m.mexpr").unwrap();
    let paths: Vec<RzPath> = table.rows.iter().map(|r| r.path.clone()).collect();
    assert_eq!(
        paths,
        vec![
            data_path(&["m"], &[name("p"), PathSegment::Pos(0)]),
            data_path(&["m"], &[name("p"), PathSegment::Pos(1)]),
            data_path(&["m"], &[name("p"), name("q")]),
        ]
    );
    let named: Vec<RzPath> = table.names.iter().map(|r| r.name.data.clone()).collect();
    assert_eq!(
        named,
        vec![
            data_path(&["m"], &[name("p")]),
            data_path(&["m"], &[name("p"), name("x")]),
            data_path(&["m"], &[name("p"), PathSegment::Pos(1)]),
            data_path(&["m"], &[name("p"), name("q")]),
        ]
    );
    assert_eq!(table.defs, vec![data_path(&["m"], &[name("p")]), data_path(&["m"], &[name("p"), name("q")])]);
}

#[test]
fn a_value_at_the_top_is_unbound() {
    let files = [("d/m.mexpr", "def[a, u8]\nu8\nmeta[x]\nf[y]")];
    let errors = convert(&files, "d/m.mexpr").unwrap_err();
    assert_eq!(errors, vec![ExprConvertError::UnboundValue(loc(0, 11, 13)), ExprConvertError::UnboundValue(loc(0, 22, 26))]);
}

#[test]
fn names_resolve_to_definitions() {
    let files = [("d/m.mexpr", "def[a, u8]\ndef[b, a]\n")];
    let mut table = convert(&files, "d/m.mexpr").unwrap();
    assert_eq!(NameResolver::new().resolve(&mut table), Ok(()));
    assert_eq!(table.rows[0].ty.data, RawExpr::Name(b"u8".to_vec()));
    assert_eq!(table.rows[1].ty.data, RawExpr::Path(data_path(&["m"], &[name("a")])));
    assert_eq!(table.rows[1].ty.range, Some(loc(0, 18, 19)));
}

#[test]
fn names_resolve_inside_definitions_and_modules() {
    let files = [
        ("d/root.mexpr", "import[lib]\ndef[t, [ty[x, u8], ty[y, x]]]\ndef[u, lib.w]\ndef[v, t.x]"),
        ("d/lib.mexpr", "def[w, u4]"),
    ];
    let mut table = convert(&files, "d/root.mexpr").unwrap();
    assert_eq!(NameResolver::new().resolve(&mut table), Ok(()));
    let find = |p: &RzPath| table.rows.iter().find(|r| &r.path == p).map(|r| copy_expr(&r.ty.data));
    assert_eq!(
        find(&data_path(&["root"], &[name("t"), PathSegment::Pos(1)])),
        Some(RawExpr::Path(data_path(&["root"], &[name("t"), name("x")])))
    );
    assert_eq!(find(&data_path(&["root"], &[name("u")])), Some(RawExpr::Path(data_path(&["root", "lib"], &[name("w")]))));
    assert_eq!(find(&data_path(&["root"], &[name("v")])), Some(RawExpr::Path(data_path(&["root"], &[name("t"), name("x")]))));
}

#[test]
fn unknown_and_invalid_names_are_errors() {
    let files = [("d/m.mexpr", "def[a, and[zz, b..c, u8]]")];
    let mut table = convert(&files, "d/m.mexpr").unwrap();
    let errors = NameResolver::new().resolve(&mut table).unwrap_err();
    assert_eq!(errors, vec![NameResolveError::NotFound(loc(0, 11, 13)), NameResolveError::InvalidName(loc(0, 15, 19))]);
    assert_eq!(errors[0].file_id(), 0);
}

fn no_free_names(e: &Ranged<RawExpr>) -> bool {
    match &e.data {
        RawExpr::Apply { body, .. } | RawExpr::List(body) => body.iter().all(no_free_names),
        RawExpr::Name(n) => is_reserved_name(n),
        _ => true,
    }
}

#[test]
fn converted_tables_can_be_resolved_and_leave_no_free_names() {
    let files = [
        ("d/root.mexpr", "import[lib]\ndef[t, [ty[x, u8], ty[y, x]]]\ndef[u, and[lib.w, t.x]]"),
        ("d/lib.mexpr", "def[w, u4]"),
    ];
    let modules = load(&files, "d/root.mexpr").unwrap();
    assert!(can_convert(&modules));
    let mut table = ExprConverter::new().convert(&modules).unwrap();
    assert!(can_resolve(&table));
    let before: Vec<(RzPath, Option<Location>)> = table.rows.iter().map(|r| (r.path.clone(), r.ty.range)).collect();
    let names = table.names.clone();
    assert_eq!(NameResolver::new().resolve(&mut table), Ok(()));
    let after: Vec<(RzPath, Option<Location>)> = table.rows.iter().map(|r| (r.path.clone(), r.ty.range)).collect();
    assert_eq!(before, after);
    assert_eq!(table.names, names);
    assert!(table.rows.iter().all(|r| no_free_names(&r.ty)));
}

#[test]
fn tables_that_cannot_be_resolved() {
    let files = [("d/m.mexpr", "def[a, u8]\ndef[b, a]\n")];
    let table = convert(&files, "d/m.mexpr").unwrap();
    // A name without a location could not be reported.
    let mut unlocated = convert(&files, "d/m.mexpr").unwrap();
    unlocated.rows[1].ty = Ranged { data: RawExpr::Name(b"a".to_vec()), range: None };
    assert!(!can_resolve(&unlocated));
    // Names out of order cannot be searched.
    let mut unsorted = convert(&files, "d/m.mexpr").unwrap();
    unsorted.names.swap(0, 1);
    assert!(!can_resolve(&unsorted));
    // A row without a name row has no definition to be resolved from.
    let mut unnamed = convert(&files, "d/m.mexpr").unwrap();
    unnamed.names.truncate(1);
    assert!(!can_resolve(&unnamed));
    assert!(can_resolve(&table));
}

#[test]
fn modules_that_cannot_be_converted() {
    let files = [("d/m.mexpr", "def[a, ty[b, u8]]")];
    let modules = load(&files, "d/m.mexpr").unwrap();
    assert!(!can_convert(&modules));
    let files = [("d/m.mexpr", "def[a, [def[b, [ty[c, def[d, u8]]]]]]")];
    let modules = load(&files, "d/m.mexpr").unwrap();
    assert!(!can_convert(&modules));
    let files = [("d/m.mexpr", "def[a, [def[b, [ty[c, u8]]]]]\nann[x]")];
    let modules = load(&files, "d/m.mexpr").unwrap();
    assert!(can_convert(&modules));
}

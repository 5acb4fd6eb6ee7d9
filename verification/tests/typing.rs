use razbor::expr::{ExprLoader, Location, Ranged, RawExpr, Span};
use razbor::path::{ExprConverter, NameResolver, PathSegment, PathTable, RzPath};
use razbor::types::{
    as_makam_path, as_makam_rel, as_makam_rel_expr, as_makam_size, as_makam_ty, as_makam_value, is_rel_name,
    Endianness, ExprToType, ExprToTypeError, Rel, RelExpr, TypeExpr, Value,
};

fn table_of(source: &str) -> PathTable<Ranged<RawExpr>> {
    let mut loader = ExprLoader::new();
    loader.load_root(b"d/m.mexpr".to_vec(), Ok(source.as_bytes().to_vec())).unwrap();
    assert!(loader.next_step().is_none());
    let modules = loader.finish().1.unwrap();
    ExprConverter::new().convert(&modules).unwrap()
}

fn makam_of_rows(source: &str, resolve: bool) -> Vec<String> {
    let mut table = table_of(source);
    if resolve {
        NameResolver::new().resolve(&mut table).unwrap();
    }
    let types = ExprToType::new().into_types(table).unwrap();
    types.rows.iter().map(|r| String::from_utf8(as_makam_ty(&r.ty.data)).unwrap()).collect()
}

fn loc(from: usize, to: usize) -> Location {
    Location { file_id: 0, span: Span { from, to } }
}

#[test]
fn built_in_names_and_numbers() {
    assert_eq!(
        makam_of_rows("def[a, [u8, u2le, s8, s4le, bool, int, _, never, true, false, 42, 0x1f]]", false),
        vec![
            "(u 8 big_endian)",
            "(u 2 little_endian)",
            "(s 8 big_endian)",
            "(s 4 little_endian)",
            "boolean",
            "integer",
            "top",
            "bottom",
            "(val (value_bool true) boolean)",
            "(val (value_bool false) boolean)",
            "(val (value_int 42) integer)",
            "(val (value_int 0x1f) integer)",
        ]
    );
}

#[test]
fn constructed_types() {
    assert_eq!(
        makam_of_rows("def[a, [arr[u8, 4], str[_], bytes[n], size[16], lt[_, 10], and[u1, gt[sizeof[_], 2]], or[bool, never]]]\ndef[n, u4]", true),
        vec![
            "(arr (u 8 big_endian) [(rel_eq rel_hole (rel_int 4))])",
            "(str [])",
            "(arr (u 1 big_endian) [(rel_eq rel_hole (rel_ref (path [\"m\"] [\"n\"])))])",
            "(liq top [(rel_eq rel_sizeof (ref_size [(rel_eq rel_hole (rel_int 16))]))])",
            "(liq top [(rel_lt rel_hole (rel_int 10))])",
            "(meet [(u 1 big_endian), (liq top [(rel_gt rel_sizeof (rel_int 2))])])",
            "(join [boolean, bottom])",
            "(u 4 big_endian)",
        ]
    );
}

#[test]
fn sizes_and_relations_combine() {
    assert_eq!(
        makam_of_rows("def[a, arr[u8, and[ge[_, 1], le[_, 8], 4]]]", true),
        vec!["(arr (u 8 big_endian) [(rel_ge rel_hole (rel_int 1)), (rel_le rel_hole (rel_int 8)), (rel_eq rel_hole (rel_int 4))])"]
    );
    assert_eq!(
        makam_of_rows("def[a, and[lt[_, 9], eq[_, 3]]]", true),
        vec!["(meet [(liq top [(rel_lt rel_hole (rel_int 9))]), (liq top [(rel_eq rel_hole (rel_int 3))])])"]
    );
}

#[test]
fn references_to_definitions() {
    assert_eq!(
        makam_of_rows("def[a, u8]\ndef[b, a]", true),
        vec!["(u 8 big_endian)", "(ref [(path [\"m\"] [\"a\"])])"]
    );
}

#[test]
fn type_errors_are_gathered_in_order() {
    let table = table_of("def[a, [arr[u8], lt[_], lt[x, 1], and[[u8], \"s\"], str[foo], size[1, 2], q[u8]]]");
    let errors = ExprToType::new().into_types(table).unwrap_err();
    assert_eq!(
        errors,
        vec![
            ExprToTypeError::InvalidArity { name: "arr", expected: 2, actual: 1, location: loc(8, 15) },
            ExprToTypeError::InvalidRel(loc(17, 22)),
            ExprToTypeError::InvalidRelExpr(loc(27, 28)),
            ExprToTypeError::UnsupportedList(loc(38, 42)),
            ExprToTypeError::InvalidType(loc(44, 47)),
            ExprToTypeError::InvalidSize(loc(54, 57)),
            ExprToTypeError::InvalidArity { name: "size", expected: 1, actual: 2, location: loc(60, 70) },
            ExprToTypeError::InvalidType(loc(72, 77)),
        ]
    );
}

#[test]
fn a_table_without_errors_keeps_its_names_and_definitions() {
    let table = table_of("def[a, u8]\ndef[b, [bool, int]]");
    let names = table.names.clone();
    let defs = table.defs.clone();
    let types = ExprToType::new().into_types(table).unwrap();
    assert_eq!(types.names, names);
    assert_eq!(types.defs, defs);
    assert_eq!(types.rows.len(), 3);
    assert_eq!(types.rows[0].ty.data, TypeExpr::U(8, Endianness::Be));
    assert_eq!(types.rows[0].ty.range, Some(loc(7, 9)));
}

fn path(modules: &[&str], data: Vec<PathSegment>) -> RzPath {
    RzPath { modules: modules.iter().map(|m| m.as_bytes().to_vec()).collect(), data }
}

#[test]
fn makam_terms_of_parts() {
    let p = path(&["a", "b"], vec![PathSegment::Name(b"x".to_vec()), PathSegment::Pos(12)]);
    assert_eq!(as_makam_path(&p), b"(path [\"a\", \"b\"] [\"x\", \"12\"])".to_vec());
    assert_eq!(as_makam_path(&path(&[], vec![])), b"(path [] [])".to_vec());
    assert_eq!(as_makam_value(&Value::Boolean(false)), b"(value_bool false)".to_vec());
    assert_eq!(as_makam_value(&Value::Integer(b"7".to_vec())), b"(value_int 7)".to_vec());
    assert_eq!(as_makam_rel_expr(&RelExpr::Hole), b"rel_hole".to_vec());
    assert_eq!(as_makam_rel_expr(&RelExpr::Sizeof), b"rel_sizeof".to_vec());
    assert_eq!(as_makam_rel_expr(&RelExpr::Integer(b"5".to_vec())), b"(rel_int 5)".to_vec());
    assert_eq!(as_makam_rel_expr(&RelExpr::Ref(p)), b"(rel_ref (path [\"a\", \"b\"] [\"x\", \"12\"]))".to_vec());
}

#[test]
fn makam_of_a_type_built_by_hand() {
    let t = TypeExpr::Liq(Box::new(TypeExpr::S(2, Endianness::Le)), vec![]);
    assert_eq!(as_makam_ty(&t), b"(liq (s 2 little_endian) [])".to_vec());
    let t = TypeExpr::Prod(vec![path(&["m"], vec![PathSegment::Pos(0)]), path(&["m"], vec![PathSegment::Pos(1)])]);
    assert_eq!(as_makam_ty(&t), b"(prod [(path [\"m\"] [\"0\"]), (path [\"m\"] [\"1\"])])".to_vec());
    let t = TypeExpr::U(1024, Endianness::Be);
    assert_eq!(as_makam_ty(&t), b"(u 1024 big_endian)".to_vec());
}

#[test]
fn relation_words() {
    for w in ["lt", "le", "eq", "ge", "gt"] {
        assert!(is_rel_name(w.as_bytes()));
    }
    assert!(!is_rel_name(b"ne"));
    assert!(!is_rel_name(b"l"));
}

#[test]
fn sizes_print_their_relations() {
    let table = table_of("def[a, str[and[gt[_, 0], lt[_, 5]]]]");
    let types = ExprToType::new().into_types(table).unwrap();
    match &types.rows[0].ty.data {
        TypeExpr::Str(size) => {
            assert_eq!(size.data.rels().len(), 2);
            assert_eq!(as_makam_size(&size.data), b"[(rel_gt rel_hole (rel_int 0)), (rel_lt rel_hole (rel_int 5))]".to_vec());
            assert_eq!(as_makam_rel(&size.data.rels()[1].data), b"(rel_lt rel_hole (rel_int 5))".to_vec());
        },
        other => panic!("not a string type: {:?}", other),
    }
}

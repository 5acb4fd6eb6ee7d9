use std::cmp::Ordering;

use razbor::files::{file_stem, join, module_paths, parent_dir, FileTable};
use razbor::order::Order;
use razbor::path::{compare_paths, is_reserved_name, parse_name, PathSegment, RzPath};
use razbor::sort::sort_by_path_exec;
use razbor::text::{bytes_eq, is_word, push_decimal};

fn path(modules: &[&str], data: Vec<PathSegment>) -> RzPath {
    RzPath { modules: modules.iter().map(|m| m.as_bytes().to_vec()).collect(), data }
}

fn name(s: &str) -> PathSegment {
    PathSegment::Name(s.as_bytes().to_vec())
}

fn sample_paths() -> Vec<RzPath> {
    vec![
        path(&[], vec![]),
        path(&[], vec![name("p")]),
        path(&[], vec![PathSegment::Pos(0)]),
        path(&["q"], vec![]),
        path(&["a"], vec![]),
        path(&["a", "b"], vec![]),
        path(&["a", "c"], vec![]),
        path(&["a"], vec![name("x")]),
        path(&["a"], vec![name("x"), name("y")]),
        path(&["a"], vec![name("x"), PathSegment::Pos(3)]),
        path(&["a"], vec![PathSegment::Pos(3)]),
        path(&["a", "b"], vec![name("x")]),
        path(&["x", "y"], vec![]),
        path(&["x"], vec![]),
        path(&["x", "z"], vec![]),
        path(&["b"], vec![name("a")]),
    ]
}

#[test]
fn cmp_prefix_is_reflexive() {
    for p in &sample_paths() {
        assert_eq!(p.prefix_cmp(p), Ordering::Equal);
    }
}

#[test]
fn cmp_prefix_is_transitive() {
    let paths = sample_paths();
    for a in &paths {
        for b in &paths {
            for c in &paths {
                if a.prefix_cmp(b) == b.prefix_cmp(c) {
                    assert_eq!(a.prefix_cmp(c), a.prefix_cmp(b));
                }
            }
        }
    }
}

#[test]
fn prefix_cmp_is_the_order_of_paths() {
    let paths = sample_paths();
    for a in &paths {
        for b in &paths {
            let expected = match compare_paths(a, b) {
                Order::Less => Ordering::Less,
                Order::Equal => Ordering::Equal,
                Order::Greater => Ordering::Greater,
            };
            assert_eq!(a.prefix_cmp(b), expected);
        }
    }
}

#[test]
fn prefix_cmp_is_lexicographic() {
    let m = path(&["a"], vec![]);
    let mb = path(&["a", "b"], vec![]);
    let d = path(&["a"], vec![name("x")]);
    let db = path(&["a", "b"], vec![name("x")]);
    // A proper prefix comes first.
    assert_eq!(m.prefix_cmp(&mb), Ordering::Less);
    assert_eq!(mb.prefix_cmp(&m), Ordering::Greater);
    assert_eq!(db.prefix_cmp(&mb), Ordering::Greater);
    assert_eq!(d.prefix_cmp(&mb), Ordering::Less);
    assert_eq!(path(&["a"], vec![name("y")]).prefix_cmp(&d), Ordering::Greater);
    assert_eq!(path(&["b"], vec![]).prefix_cmp(&mb), Ordering::Greater);
    // No data steps against some, then modules decide.
    let p = path(&[], vec![name("p")]);
    let empty = path(&[], vec![]);
    let q = path(&["q"], vec![]);
    assert_eq!(p.prefix_cmp(&empty), Ordering::Greater);
    assert_eq!(empty.prefix_cmp(&q), Ordering::Less);
    assert_eq!(p.prefix_cmp(&q), Ordering::Less);
    let xy = path(&["x", "y"], vec![]);
    let x = path(&["x"], vec![]);
    let xz = path(&["x", "z"], vec![]);
    assert_eq!(xy.prefix_cmp(&x), Ordering::Greater);
    assert_eq!(x.prefix_cmp(&xz), Ordering::Less);
    assert_eq!(xy.prefix_cmp(&xz), Ordering::Less);
}

#[test]
fn path_kinds_pop_and_clear() {
    let mut p = path(&["a", "b"], vec![name("x")]);
    assert!(p.is_data_path());
    assert!(!p.is_module_path());
    p.pop();
    assert_eq!(p, path(&["a", "b"], vec![]));
    assert!(p.is_module_path());
    p.pop();
    assert_eq!(p, path(&["a"], vec![]));
    p.clear();
    assert!(p.is_empty());
    p.pop();
    assert!(p.is_empty());
}

#[test]
fn paths_are_ordered_by_modules_then_data() {
    assert_eq!(compare_paths(&path(&["a"], vec![name("z")]), &path(&["a", "b"], vec![])), Order::Less);
    assert_eq!(compare_paths(&path(&["a"], vec![PathSegment::Pos(9)]), &path(&["a"], vec![name("a")])), Order::Less);
    assert_eq!(compare_paths(&path(&["a"], vec![PathSegment::Pos(10)]), &path(&["a"], vec![PathSegment::Pos(9)])), Order::Greater);
    assert_eq!(compare_paths(&path(&["a"], vec![]), &path(&["a"], vec![])), Order::Equal);
}

#[test]
fn sorting_by_path_is_stable() {
    let v = vec![
        path(&["b"], vec![]),
        path(&["a"], vec![name("x")]),
        path(&["a"], vec![]),
        path(&["a"], vec![PathSegment::Pos(1)]),
    ];
    let sorted = sort_by_path_exec(v);
    assert_eq!(
        sorted,
        vec![
            path(&["a"], vec![]),
            path(&["a"], vec![PathSegment::Pos(1)]),
            path(&["a"], vec![name("x")]),
            path(&["b"], vec![]),
        ]
    );
}

#[test]
fn reserved_names_and_dotted_names() {
    assert!(is_reserved_name(b"u8"));
    assert!(is_reserved_name(b"_"));
    assert!(!is_reserved_name(b"u2le"));
    assert_eq!(parse_name(b"a.b.c"), Some(vec![b"a".to_vec(), b"b".to_vec(), b"c".to_vec()]));
    assert_eq!(parse_name(b"a"), Some(vec![b"a".to_vec()]));
    assert_eq!(parse_name(b"a..b"), None);
    assert_eq!(parse_name(b".a"), None);
    assert_eq!(parse_name(b""), None);
}

#[test]
fn parents_stems_and_joins() {
    assert_eq!(parent_dir(b"d/a.mexpr"), b"d".to_vec());
    assert_eq!(parent_dir(b"/a.mexpr"), b"/".to_vec());
    assert_eq!(parent_dir(b"a.mexpr"), b"".to_vec());
    assert_eq!(file_stem(b"d/a.mexpr"), b"a".to_vec());
    assert_eq!(file_stem(b"d/.hidden"), b".hidden".to_vec());
    assert_eq!(file_stem(b"d/a.b.c"), b"a.b".to_vec());
    assert_eq!(join(b"d", b"b.mexpr"), b"d/b.mexpr".to_vec());
    assert_eq!(join(b"", b"b.mexpr"), b"b.mexpr".to_vec());
    assert_eq!(join(b"/", b"b.mexpr"), b"/b.mexpr".to_vec());
    assert_eq!(module_paths(b"d", b"b", b"a"), (b"d/b.mexpr".to_vec(), b"d/a/b.mexpr".to_vec()));
}

#[test]
fn file_table_keeps_one_id_per_path() {
    let mut t = FileTable::new();
    assert_eq!(t.append(b"a".to_vec()), 0);
    assert_eq!(t.append(b"b".to_vec()), 1);
    assert_eq!(t.append(b"a".to_vec()), 0);
    assert_eq!(t.len(), 2);
    assert_eq!(t.position(b"b"), Some(1));
    assert_eq!(t.position(b"c"), None);
    assert_eq!(t.file(1), &b"b".to_vec());
    assert_eq!(t.files(), &[b"a".to_vec(), b"b".to_vec()][..]);
}

#[test]
fn text_helpers() {
    assert!(bytes_eq(b"abc", b"abc"));
    assert!(!bytes_eq(b"abc", b"abd"));
    assert!(!bytes_eq(b"ab", b"abc"));
    assert!(is_word(b"lt", "lt"));
    let mut v = b"n=".to_vec();
    push_decimal(&mut v, 0);
    push_decimal(&mut v, 907);
    assert_eq!(v, b"n=0907".to_vec());
}

#[test]
fn segments_as_text() {
    assert_eq!(PathSegment::Pos(40).to_text(), b"40".to_vec());
    assert_eq!(name("field").to_text(), b"field".to_vec());
}

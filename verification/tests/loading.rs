use razbor::expr::{ExprLoader, LoadErrorKind, Location, RawExpr, RawModule, Span};
use razbor::files::{module_paths, FileTable};
use razbor::grammar::ParseError;

fn read(files: &[(&str, &str)], path: &[u8]) -> Result<Vec<u8>, Vec<u8>> {
    files
        .iter()
        .find(|(n, _)| n.as_bytes() == path)
        .map(|(_, c)| c.as_bytes().to_vec())
        .ok_or(b"no such file".to_vec())
}

fn is_there(files: &[(&str, &str)], path: &[u8]) -> bool {
    files.iter().any(|(n, _)| n.as_bytes() == path)
}

fn load(files: &[(&str, &str)], root: &str) -> (FileTable, Result<Vec<RawModule>, Vec<LoadErrorKind>>) {
    let mut loader = ExprLoader::new();
    if let Err(e) = loader.load_root(root.as_bytes().to_vec(), read(files, root.as_bytes())) {
        let (table, _) = loader.finish();
        return (table, Err(vec![e]));
    }
    while let Some(req) = loader.next_step() {
        let (first, second) = module_paths(&req.dir, &req.name, &req.parent);
        let found = if is_there(files, &first) {
            Some(first)
        } else if is_there(files, &second) {
            Some(second)
        } else {
            None
        };
        if let Some(path) = loader.locate(req, found) {
            let source = read(files, &path);
            loader.receive(source);
        }
    }
    loader.finish()
}

fn loc(file_id: usize, from: usize, to: usize) -> Location {
    Location { file_id, span: Span { from, to } }
}

fn names(path: &[&str]) -> Vec<Vec<u8>> {
    path.iter().map(|s| s.as_bytes().to_vec()).collect()
}

#[test]
fn common_import_is_loaded_for_each_importer() {
    let files = [
        ("d/root.mexpr", "import[a, b]"),
        ("d/a.mexpr", "import[c]"),
        ("d/b.mexpr", "import[c]"),
        ("d/c.mexpr", "def[x, u8]"),
    ];
    let (table, modules) = load(&files, "d/root.mexpr");
    let modules = modules.unwrap();
    for file_id in 0..4 {
        assert!(modules.iter().any(|m| m.file_id == file_id));
    }
    assert_eq!(table.files(), &names(&["d/root.mexpr", "d/b.mexpr", "d/c.mexpr", "d/a.mexpr"])[..]);
    let paths: Vec<Vec<Vec<u8>>> = modules.iter().map(|m| m.path.clone()).collect();
    assert_eq!(
        paths,
        vec![
            names(&["root", "b", "c"]),
            names(&["root", "b"]),
            names(&["root", "a", "c"]),
            names(&["root", "a"]),
            names(&["root"]),
        ]
    );
    assert_eq!(modules[0].data.data.len(), 1);
    assert_eq!(modules[4].data.data.len(), 0);
    assert_eq!(modules[4].data.range, Some(loc(0, 0, 12)));
}

#[test]
fn subdirectory_import_is_found() {
    let files = [("d/root.mexpr", "import[a]"), ("d/root/a.mexpr", "def[x, u8]")];
    let (table, modules) = load(&files, "d/root.mexpr");
    let modules = modules.unwrap();
    assert_eq!(modules.len(), 2);
    assert_eq!(modules[0].file_id, 1);
    assert_eq!(modules[0].path, names(&["root", "a"]));
    assert_eq!(table.files()[1], b"d/root/a.mexpr".to_vec());
}

#[test]
fn cycle_is_reported_with_its_imports() {
    let files = [("d/a.mexpr", "import[b]\nty[x, u8]"), ("d/b.mexpr", "import[a]")];
    let (_, modules) = load(&files, "d/a.mexpr");
    assert_eq!(modules, Err(vec![LoadErrorKind::Cycle(vec![loc(0, 7, 8), loc(1, 7, 8)])]));
}

#[test]
fn missing_import_is_not_found() {
    let files = [("d/root.mexpr", "import[zz]")];
    let (_, modules) = load(&files, "d/root.mexpr");
    assert_eq!(modules, Err(vec![LoadErrorKind::NotFound(loc(0, 7, 9))]));
}

#[test]
fn unreadable_root_is_an_io_error() {
    let (table, modules) = load(&[], "d/root.mexpr");
    assert_eq!(modules, Err(vec![LoadErrorKind::Io(None, b"no such file".to_vec())]));
    assert_eq!(table.len(), 0);
}

#[test]
fn root_that_does_not_parse() {
    let files = [("d/root.mexpr", "]")];
    let (table, modules) = load(&files, "d/root.mexpr");
    assert_eq!(modules, Err(vec![LoadErrorKind::Parse(ParseError { pos: 0 }, 0)]));
    assert_eq!(table.len(), 1);
}

#[test]
fn import_of_something_not_a_name() {
    let files = [("d/root.mexpr", "import[1]\ndef[x, u8]")];
    let (_, modules) = load(&files, "d/root.mexpr");
    assert_eq!(modules, Err(vec![LoadErrorKind::InvalidName(loc(0, 7, 8))]));
}

#[test]
fn unreadable_import_is_an_io_error_at_the_import() {
    let mut loader = ExprLoader::new();
    assert!(loader.load_root(b"d/root.mexpr".to_vec(), Ok(b"import[a]".to_vec())).is_ok());
    let req = loader.next_step().unwrap();
    assert_eq!(req.name, b"a".to_vec());
    assert_eq!(req.parent, b"root".to_vec());
    assert_eq!(req.dir, b"d".to_vec());
    assert_eq!(req.loc, loc(0, 7, 8));
    let path = loader.locate(req, Some(b"d/a.mexpr".to_vec()));
    assert_eq!(path, Some(b"d/a.mexpr".to_vec()));
    loader.receive(Err(b"denied".to_vec()));
    assert!(loader.next_step().is_none());
    let (_, modules) = loader.finish();
    assert_eq!(modules, Err(vec![LoadErrorKind::Io(Some(loc(0, 7, 8)), b"denied".to_vec())]));
}

#[test]
fn import_that_does_not_parse() {
    let files = [("d/root.mexpr", "import[a]"), ("d/a.mexpr", "x ]")];
    let (_, modules) = load(&files, "d/root.mexpr");
    assert_eq!(modules, Err(vec![LoadErrorKind::Parse(ParseError { pos: 2 }, 1)]));
}

#[test]
fn expressions_that_do_not_read_are_skipped() {
    let files = [("d/root.mexpr", "ty[a]\ndef[b, u8]")];
    let (_, modules) = load(&files, "d/root.mexpr");
    let modules = modules.unwrap();
    assert_eq!(modules.len(), 1);
    assert_eq!(modules[0].data.data.len(), 1);
    match &modules[0].data.data[0].data {
        RawExpr::Def { name, .. } => assert_eq!(name.data, b"b".to_vec()),
        other => panic!("not a definition: {:?}", other),
    }
}

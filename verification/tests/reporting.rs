use razbor::expr::{Location, Span};
use razbor::path::NameResolveError;
use razbor::report::{paragraph_indices, Sourcer};

fn span(from: usize, to: usize) -> Span {
    Span { from, to }
}

#[test]
fn paragraph_of_a_text_without_line_breaks() {
    assert_eq!(paragraph_indices(span(2, 4), &[], 10), (1, 0, 10));
}

#[test]
fn paragraph_of_a_middle_line() {
    // "ab\ncd\nef\n": breaks at 2, 5 and 8.
    assert_eq!(paragraph_indices(span(3, 5), &[2, 5, 8], 9), (2, 3, 5));
    assert_eq!(paragraph_indices(span(3, 7), &[2, 5, 8], 9), (2, 3, 8));
    assert_eq!(paragraph_indices(span(6, 7), &[2, 5, 8], 9), (3, 6, 8));
}

#[test]
fn paragraph_of_the_first_line_starts_after_the_first_break() {
    assert_eq!(paragraph_indices(span(0, 1), &[2, 5, 8], 9), (2, 3, 2));
}

#[test]
fn paragraph_without_a_break_after_the_span_ends_at_the_last_index() {
    // "ab\ncd\nef": no break at or after 8.
    assert_eq!(paragraph_indices(span(6, 8), &[2, 5], 8), (3, 6, 1));
}

fn sourcer() -> Sourcer {
    let mut s = Sourcer::default();
    s.load_file(4, b"dir/f.mexpr".to_vec(), b"ab\ncd\nef\n".to_vec());
    s
}

#[test]
fn source_of_a_location() {
    let s = sourcer();
    let loc = Location { file_id: 4, span: span(3, 5) };
    assert!(s.can_source(loc));
    let source = s.source(loc).unwrap();
    assert_eq!(source.content(), &b"cd".to_vec());
    assert_eq!(source.content_start(), 3);
    assert_eq!(source.line_start(), 2);
    assert_eq!(source.file_name(), &b"dir/f.mexpr".to_vec());
    assert_eq!(source.relative_span(span(3, 5)), (0, 2));
}

#[test]
fn no_source_for_unknown_files_or_locations_past_the_end() {
    let s = sourcer();
    assert!(s.source(Location { file_id: 5, span: span(0, 1) }).is_none());
    assert!(s.source(Location { file_id: 4, span: span(0, 10) }).is_none());
    assert!(s.has_file(4));
    assert!(!s.has_file(5));
}

#[test]
fn source_cannot_cut_the_first_line() {
    let s = sourcer();
    assert!(!s.can_source(Location { file_id: 4, span: span(0, 1) }));
}

#[test]
fn a_file_is_loaded_once() {
    let mut s = sourcer();
    s.load_file(4, b"other".to_vec(), b"x\ny\n".to_vec());
    let source = s.source(Location { file_id: 4, span: span(3, 5) }).unwrap();
    assert_eq!(source.file_name(), &b"dir/f.mexpr".to_vec());
}

#[test]
fn errors_know_their_file() {
    let loc = Location { file_id: 7, span: span(1, 2) };
    assert_eq!(NameResolveError::NotFound(loc).file_id(), 7);
    assert_eq!(NameResolveError::InvalidName(loc).file_id(), 7);
    assert_eq!(NameResolveError::NotFound(loc).location(), loc);
    assert_eq!(NameResolveError::NotFound(loc).label(), "unknown reference");
    assert_eq!(NameResolveError::InvalidName(loc).label(), "invalid name");
}

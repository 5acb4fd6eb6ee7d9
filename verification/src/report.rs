//! Reports: finding the lines of a source file that an error points into.

use vstd::prelude::*;
use crate::expr::{Location, Span};
use crate::path::NameResolveError;

verus! {

/// The positions of the line breaks among the first `k` bytes of a text, in order.
pub open spec fn newline_positions(c: Seq<u8>, k: int) -> Seq<usize>
    decreases k,
{
    if k <= 0 || k > c.len() {
        Seq::empty()
    } else if c[k - 1] == 10 {
        newline_positions(c, k - 1).push((k - 1) as usize)
    } else {
        newline_positions(c, k - 1)
    }
}

/// The index of the last line break at or before `pos` among `nl[..k]`, or 0.
pub open spec fn last_break_at_or_before(nl: Seq<usize>, pos: usize, k: int) -> int
    decreases k,
{
    if k <= 0 || k > nl.len() {
        0
    } else if nl[k - 1] <= pos {
        k - 1
    } else {
        last_break_at_or_before(nl, pos, k - 1)
    }
}

/// The first line break from index `j` on that is at or after `pos`.
pub open spec fn first_break_from(nl: Seq<usize>, pos: usize, j: int) -> Option<int>
    decreases nl.len() - j,
{
    if j < 0 || j >= nl.len() {
        None
    } else if nl[j] >= pos {
        Some(j)
    } else {
        first_break_from(nl, pos, j + 1)
    }
}

/// What the lines around `span` are, given the line breaks of a text of
/// length `len`: the number of the line after the last break at or before
/// the span's start, the position after that break, and the first break from
/// there on at or after the span's end. Where no such break is found, the
/// third part is the index of the last break, not a position.
pub open spec fn paragraph(span: Span, nl: Seq<usize>, len: usize) -> (int, int, int) {
    if nl.len() == 0 {
        (1, 0, len as int)
    } else {
        let ls = last_break_at_or_before(nl, span.from, nl.len() as int);
        let to = match first_break_from(nl, span.to, ls) {
            Some(j) => nl[j] as int,
            None => nl.len() - 1,
        };
        (ls + 2, nl[ls] + 1, to)
    }
}

/// Finds the lines around `span`; see [`paragraph`].
pub fn paragraph_indices(span: Span, newlines: &[usize], len: usize) -> (r: (usize, usize, usize))
    requires
        newlines@.len() < usize::MAX,
        forall|i: int| 0 <= i < newlines@.len() ==> #[trigger] newlines@[i] < usize::MAX,
    ensures
        (r.0 as int, r.1 as int, r.2 as int) == paragraph(span, newlines@, len),
{
    if newlines.len() == 0 {
        return (1, 0, len);
    }
    let ghost nl = newlines@;
    let mut ls: usize = 0;
    let mut i: usize = 0;
    while i < newlines.len()
        invariant
            nl == newlines@,
            i <= newlines.len(),
            newlines.len() > 0,
            ls < newlines.len(),
            ls as int == last_break_at_or_before(nl, span.from, i as int),
        decreases newlines.len() - i,
    {
        if newlines[i] <= span.from {
            ls = i;
        }
        i += 1;
    }
    let from = newlines[ls];
    let mut j: usize = ls;
    while j < newlines.len()
        invariant
            nl == newlines@,
            newlines.len() > 0,
            ls <= j <= newlines.len(),
            ls as int == last_break_at_or_before(nl, span.from, nl.len() as int),
            from == nl[ls as int],
            from < usize::MAX,
            newlines.len() < usize::MAX,
            first_break_from(nl, span.to, ls as int) == first_break_from(nl, span.to, j as int),
        decreases newlines.len() - j,
    {
        if newlines[j] >= span.to {
            return (ls + 2, from + 1, newlines[j]);
        }
        j += 1;
    }
    (ls + 2, from + 1, newlines.len() - 1)
}

/// A source file: its number, its name, its text and where its lines break.
struct SourceFile {
    id: usize,
    name: Vec<u8>,
    content: Vec<u8>,
    newlines: Vec<usize>,
}

/// The mathematical value of a loaded source file.
pub struct SpecFile {
    pub id: usize,
    pub name: Seq<u8>,
    pub content: Seq<u8>,
    pub newlines: Seq<usize>,
}

/// A piece of a source file: whole lines around a location.
#[derive(Debug, Clone, PartialEq, Eq)]
pub struct Source {
    content: Vec<u8>,
    content_start: usize,
    line_start: usize,
    file_name: Vec<u8>,
}

/// The mathematical value of a [`Source`].
pub struct SpecSource {
    pub content: Seq<u8>,
    pub content_start: usize,
    pub line_start: usize,
    pub file_name: Seq<u8>,
}

impl View for Source {
    type V = SpecSource;

    closed spec fn view(&self) -> SpecSource {
        SpecSource { content: self.content@, content_start: self.content_start, line_start: self.line_start, file_name: self.file_name@ }
    }
}

impl Source {
    /// The text of the lines.
    pub fn content(&self) -> (r: &Vec<u8>)
        ensures
            r@ == self@.content,
    {
        &self.content
    }

    /// Where the lines start in the file.
    pub fn content_start(&self) -> (r: usize)
        ensures
            r == self@.content_start,
    {
        self.content_start
    }

    /// The number of the first line.
    pub fn line_start(&self) -> (r: usize)
        ensures
            r == self@.line_start,
    {
        self.line_start
    }

    /// The name of the file.
    pub fn file_name(&self) -> (r: &Vec<u8>)
        ensures
            r@ == self@.file_name,
    {
        &self.file_name
    }

    /// The span of a location within these lines, for pointing at it.
    pub fn relative_span(&self, span: Span) -> (r: (usize, usize))
        requires
            self@.content_start <= span.from,
            self@.content_start <= span.to,
        ensures
            r.0 == span.from - self@.content_start,
            r.1 == span.to - self@.content_start,
    {
        (span.from - self.content_start, span.to - self.content_start)
    }
}

/// The loaded source files, by number, in the order they were loaded.
pub struct Sourcer {
    files: Vec<SourceFile>,
}

/// The index of the first file with the number `id`.
pub open spec fn find_file(files: Seq<SpecFile>, id: usize, k: int) -> Option<int>
    decreases k,
{
    if k <= 0 || k > files.len() {
        None
    } else {
        match find_file(files, id, k - 1) {
            Some(i) => Some(i),
            None => if files[k - 1].id == id {
                Some(k - 1)
            } else {
                None
            },
        }
    }
}

/// The file with the number `id`, if it was loaded.
pub open spec fn file_with(files: Seq<SpecFile>, id: usize) -> Option<SpecFile> {
    match find_file(files, id, files.len() as int) {
        Some(i) => Some(files[i]),
        None => None,
    }
}

/// The lines of the loaded files around a location: none if its file was
/// not loaded or the location ends past the file's end.
pub open spec fn source_of(files: Seq<SpecFile>, location: Location) -> Option<SpecSource> {
    match file_with(files, location.file_id) {
        None => None,
        Some(f) => if f.content.len() < location.span.to {
            None
        } else {
            let (line_start, from, to) = paragraph(location.span, f.newlines, f.content.len() as usize);
            Some(SpecSource { content: f.content.subrange(from, to), content_start: from as usize, line_start: line_start as usize, file_name: f.name })
        },
    }
}

/// Whether the lines around a location can be cut out of its file: the
/// piece that [`paragraph`] gives begins no later than it ends.
pub open spec fn source_ok(files: Seq<SpecFile>, location: Location) -> bool {
    match file_with(files, location.file_id) {
        None => true,
        Some(f) => f.content.len() < location.span.to || {
            let (_, from, to) = paragraph(location.span, f.newlines, f.content.len() as usize);
            from <= to <= f.content.len()
        },
    }
}

impl Sourcer {
    /// The loaded files.
    pub closed spec fn files_view(&self) -> Seq<SpecFile> {
        self.files@.map_values(|f: SourceFile| SpecFile { id: f.id, name: f.name@, content: f.content@, newlines: f.newlines@ })
    }

    /// Every file's line breaks are those of its text, its text is shorter
    /// than the largest size, and no two files have the same number.
    pub open spec fn wf(&self) -> bool {
        &&& forall|i: int| 0 <= i < self.files_view().len() ==> {
            let f = #[trigger] self.files_view()[i];
            &&& f.content.len() < usize::MAX
            &&& f.newlines == newline_positions(f.content, f.content.len() as int)
        }
        &&& forall|i: int, j: int| 0 <= i < j < self.files_view().len() ==> #[trigger] self.files_view()[i].id != #[trigger] self.files_view()[j].id
    }

    /// No file loaded.
    pub fn default() -> (r: Self)
        ensures
            r.wf(),
            r.files_view() == Seq::<SpecFile>::empty(),
    {
        let r = Sourcer { files: Vec::new() };
        assert(r.files_view() =~= Seq::<SpecFile>::empty());
        r
    }

    /// Whether a file with the number `file_id` is loaded.
    pub fn has_file(&self, file_id: usize) -> (r: bool)
        ensures
            r == (file_with(self.files_view(), file_id) is Some),
    {
        self.find(file_id).is_some()
    }

    fn find(&self, file_id: usize) -> (r: Option<usize>)
        ensures
            match r {
                Some(i) => find_file(self.files_view(), file_id, self.files_view().len() as int) == Some(i as int) && i < self.files@.len(),
                None => find_file(self.files_view(), file_id, self.files_view().len() as int) is None,
            },
    {
        let ghost fv = self.files_view();
        let mut i: usize = 0;
        while i < self.files.len()
            invariant
                fv == self.files_view(),
                fv.len() == self.files@.len(),
                i <= self.files.len(),
                find_file(fv, file_id, i as int) is None,
            decreases self.files.len() - i,
        {
            assert(fv[i as int].id == self.files@[i as int].id);
            if self.files[i].id == file_id {
                proof {
                    lemma_find_file_stable(fv, file_id, i + 1, fv.len() as int);
                }
                return Some(i);
            }
            i += 1;
        }
        proof {
            lemma_find_file_none(fv, file_id, i as int);
        }
        None
    }

    /// Loads a file under the number `file_id`, with its name and text,
    /// unless a file with that number is loaded already.
    pub fn load_file(&mut self, file_id: usize, name: Vec<u8>, content: Vec<u8>)
        requires
            old(self).wf(),
            content@.len() < usize::MAX,
        ensures
            final(self).wf(),
            file_with(old(self).files_view(), file_id) is Some ==> final(self).files_view() == old(self).files_view(),
            file_with(old(self).files_view(), file_id) is None ==> final(self).files_view() == old(self).files_view().push(
                SpecFile { id: file_id, name: name@, content: content@, newlines: newline_positions(content@, content@.len() as int) },
            ),
    {
        if self.find(file_id).is_some() {
            return;
        }
        let ghost c = content@;
        let mut newlines: Vec<usize> = Vec::new();
        let mut i: usize = 0;
        while i < content.len()
            invariant
                c == content@,
                i <= content.len(),
                newlines@ == newline_positions(c, i as int),
            decreases content.len() - i,
        {
            if content[i] == 10 {
                newlines.push(i);
            }
            i += 1;
        }
        let ghost before = self.files_view();
        let file = SourceFile { id: file_id, name, content, newlines };
        self.files.push(file);
        assert(self.files_view() =~= before.push(SpecFile { id: file_id, name: file.name@, content: file.content@, newlines: file.newlines@ }));
        proof {
            lemma_find_file_none(before, file_id, before.len() as int);
        }
    }

    /// The lines of a loaded file around `location`; none if its file is not
    /// loaded or the location ends past the file's end.
    pub fn source(&self, location: Location) -> (r: Option<Source>)
        requires
            self.wf(),
            source_ok(self.files_view(), location),
        ensures
            match r {
                Some(s) => source_of(self.files_view(), location) == Some(s@),
                None => source_of(self.files_view(), location) is None,
            },
    {
        let ghost fv = self.files_view();
        let i = match self.find(location.file_id) {
            Some(i) => i,
            None => return None,
        };
        let file = &self.files[i];
        assert(fv[i as int].content == file.content@);
        if file.content.len() < location.span.to {
            return None;
        }
        proof {
            lemma_newlines_bounded(file.content@, file.content@.len() as int);
        }
        let (line_start, from, to) = paragraph_indices(location.span, file.newlines.as_slice(), file.content.len());
        let content = crate::text::copy_range(file.content.as_slice(), from, to);
        let file_name = crate::text::copy_bytes(file.name.as_slice());
        Some(Source { content, content_start: from, line_start, file_name })
    }

    /// Whether [`Sourcer::source`] can cut out the lines around `location`.
    pub fn can_source(&self, location: Location) -> (r: bool)
        requires
            self.wf(),
        ensures
            r == source_ok(self.files_view(), location),
    {
        let ghost fv = self.files_view();
        let i = match self.find(location.file_id) {
            Some(i) => i,
            None => return true,
        };
        let file = &self.files[i];
        if file.content.len() < location.span.to {
            return true;
        }
        proof {
            lemma_newlines_bounded(file.content@, file.content@.len() as int);
        }
        let (_, from, to) = paragraph_indices(location.span, file.newlines.as_slice(), file.content.len());
        from <= to && to <= file.content.len()
    }
}

proof fn lemma_find_file_none(files: Seq<SpecFile>, id: usize, k: int)
    requires
        0 <= k <= files.len(),
        find_file(files, id, k) is None,
    ensures
        forall|j: int| 0 <= j < k ==> files[j].id != id,
    decreases k,
{
    if k > 0 {
        lemma_find_file_none(files, id, k - 1);
    }
}

proof fn lemma_find_file_stable(files: Seq<SpecFile>, id: usize, k: int, j: int)
    requires
        0 <= k <= j <= files.len(),
        find_file(files, id, k) is Some,
    ensures
        find_file(files, id, j) == find_file(files, id, k),
    decreases j - k,
{
    if k < j {
        lemma_find_file_stable(files, id, k, j - 1);
    }
}

/// Line breaks lie inside the text, and there are no more of them than bytes.
proof fn lemma_newlines_bounded(c: Seq<u8>, k: int)
    requires
        0 <= k <= c.len(),
    ensures
        newline_positions(c, k).len() <= k,
        forall|i: int| 0 <= i < newline_positions(c, k).len() ==> #[trigger] newline_positions(c, k)[i] < k,
    decreases k,
{
    if k > 0 {
        lemma_newlines_bounded(c, k - 1);
    }
}

impl NameResolveError {
    /// Where the error is.
    pub fn location(&self) -> (r: Location)
        ensures
            r == match *self {
                NameResolveError::NotFound(loc) => loc,
                NameResolveError::InvalidName(loc) => loc,
            },
    {
        match self {
            NameResolveError::NotFound(loc) => *loc,
            NameResolveError::InvalidName(loc) => *loc,
        }
    }

    /// The title of the error in a report.
    pub fn label(&self) -> (r: &'static str)
        ensures
            r@ == match *self {
                NameResolveError::NotFound(_) => "unknown reference"@,
                NameResolveError::InvalidName(_) => "invalid name"@,
            },
    {
        match self {
            NameResolveError::NotFound(_) => "unknown reference",
            NameResolveError::InvalidName(_) => "invalid name",
        }
    }

    /// The number of the file the error is in.
    pub fn file_id(&self) -> (r: usize)
        ensures
            r == match *self {
                NameResolveError::NotFound(loc) => loc.file_id,
                NameResolveError::InvalidName(loc) => loc.file_id,
            },
    {
        match self {
            NameResolveError::NotFound(loc) => loc.file_id,
            NameResolveError::InvalidName(loc) => loc.file_id,
        }
    }
}

} // verus!

//! File paths as byte strings: parents, stems, joining, and the table of loaded files.
//!
//! Paths are in normal form: components are separated by single `/`, with no
//! trailing `/` and no `.` components; the empty path is the current directory.

use vstd::prelude::*;
use vstd::string::StringSliceAdditionalSpecFns;
use crate::path::texts_view;
use crate::text::{bytes_eq, copy_bytes, copy_range, push_all, push_word};

verus! {

/// The index of the last `b` in `s`, if any.
pub open spec fn last_index(s: Seq<u8>, b: u8) -> Option<int>
    decreases s.len(),
{
    if s.len() == 0 {
        None
    } else if s.last() == b {
        Some(s.len() - 1)
    } else {
        last_index(s.drop_last(), b)
    }
}

/// A path has a parent unless it is empty or the root.
pub open spec fn has_parent(p: Seq<u8>) -> bool {
    p.len() > 0 && p != seq![47u8]
}

/// The directory that holds a path: everything before its last `/`, the root
/// for a path right under it, the empty path for a bare name.
pub open spec fn parent_of(p: Seq<u8>) -> Seq<u8> {
    match last_index(p, 47) {
        None => Seq::empty(),
        Some(k) if k == 0 => seq![47u8],
        Some(k) => p.subrange(0, k),
    }
}

/// The last component of a path.
pub open spec fn file_name_of(p: Seq<u8>) -> Seq<u8> {
    match last_index(p, 47) {
        None => p,
        Some(k) => p.subrange(k + 1, p.len() as int),
    }
}

/// A file name has a stem unless it is empty or `..`.
pub open spec fn has_stem(p: Seq<u8>) -> bool {
    let n = file_name_of(p);
    n.len() > 0 && n != seq![46u8, 46u8]
}

/// The file name without its extension: the part before its last `.`, unless
/// that `.` is its first byte or there is none, when it is the whole name.
pub open spec fn stem_of(p: Seq<u8>) -> Seq<u8> {
    let n = file_name_of(p);
    match last_index(n, 46) {
        None => n,
        Some(k) if k == 0 => n,
        Some(k) => n.subrange(0, k),
    }
}

/// `rel` taken from the directory `dir`.
pub open spec fn join_of(dir: Seq<u8>, rel: Seq<u8>) -> Seq<u8> {
    if dir.len() == 0 {
        rel
    } else if dir.last() == 47 {
        dir + rel
    } else {
        dir + seq![47u8] + rel
    }
}

/// Where an import may be found, in the order they are tried: the file named
/// after it in the directory, then in a subdirectory named after the importing module.
pub open spec fn candidates_of(dir: Seq<u8>, import: Seq<u8>, parent: Seq<u8>) -> (Seq<u8>, Seq<u8>) {
    (
        join_of(dir, import + ".mexpr".spec_bytes()),
        join_of(dir, parent + seq![47u8] + import + ".mexpr".spec_bytes()),
    )
}

fn last_index_exec(s: &[u8], b: u8) -> (r: Option<usize>)
    ensures
        match r {
            Some(k) => last_index(s@, b) == Some(k as int) && k < s.len(),
            None => last_index(s@, b) is None,
        },
{
    proof {
        lemma_last_index_bound(s@, b);
    }
    let mut k = s.len();
    assert(s@.subrange(0, k as int) =~= s@);
    while k > 0
        invariant
            k <= s.len(),
            last_index(s@, b) == last_index(s@.subrange(0, k as int), b),
        decreases k,
    {
        assert(s@.subrange(0, k as int).drop_last() =~= s@.subrange(0, k - 1));
        if s[k - 1] == b {
            return Some(k - 1);
        }
        k -= 1;
    }
    assert(s@.subrange(0, 0) =~= Seq::<u8>::empty());
    None
}

proof fn lemma_last_index_bound(s: Seq<u8>, b: u8)
    ensures
        last_index(s, b) matches Some(k) ==> 0 <= k < s.len() && s[k] == b,
    decreases s.len(),
{
    if s.len() > 0 && s.last() != b {
        lemma_last_index_bound(s.drop_last(), b);
    }
}

/// Whether a path has a parent directory.
pub fn path_has_parent(p: &[u8]) -> (r: bool)
    ensures
        r == has_parent(p@),
{
    if p.len() == 0 {
        return false;
    }
    let r = !(p.len() == 1 && p[0] == 47);
    assert(r == (p@ != seq![47u8])) by {
        if p.len() == 1 && p[0] == 47 {
            assert(p@ =~= seq![47u8]);
        }
    }
    r
}

/// Whether a path's file name has a stem.
pub fn path_has_stem(p: &[u8]) -> (r: bool)
    ensures
        r == has_stem(p@),
{
    proof {
        lemma_last_index_bound(p@, 47);
    }
    let start = match last_index_exec(p, 47) {
        None => 0,
        Some(k) => k + 1,
    };
    let ghost n = file_name_of(p@);
    assert(n =~= p@.subrange(start as int, p@.len() as int));
    let len = p.len() - start;
    if len == 0 {
        return false;
    }
    let dots = len == 2 && p[start] == 46 && p[start + 1] == 46;
    assert(dots == (n == seq![46u8, 46u8])) by {
        if dots {
            assert(n =~= seq![46u8, 46u8]);
        }
        if n == seq![46u8, 46u8] {
            assert(n[0] == 46 && n[1] == 46);
        }
    }
    !dots
}

/// The directory that holds a path.
pub fn parent_dir(p: &[u8]) -> (r: Vec<u8>)
    requires
        has_parent(p@),
    ensures
        r@ == parent_of(p@),
{
    proof {
        lemma_last_index_bound(p@, 47);
    }
    match last_index_exec(p, 47) {
        None => Vec::new(),
        Some(0) => {
            let mut r: Vec<u8> = Vec::new();
            r.push(47);
            assert(r@ =~= seq![47u8]);
            r
        },
        Some(k) => copy_range(p, 0, k),
    }
}

/// The stem of a path's file name.
pub fn file_stem(p: &[u8]) -> (r: Vec<u8>)
    requires
        has_stem(p@),
    ensures
        r@ == stem_of(p@),
{
    proof {
        lemma_last_index_bound(p@, 47);
    }
    let name = match last_index_exec(p, 47) {
        None => copy_bytes(p),
        Some(k) => copy_range(p, k + 1, p.len()),
    };
    proof {
        lemma_last_index_bound(name@, 46);
    }
    match last_index_exec(name.as_slice(), 46) {
        None => name,
        Some(0) => name,
        Some(k) => copy_range(name.as_slice(), 0, k),
    }
}

/// `rel` taken from the directory `dir`.
pub fn join(dir: &[u8], rel: &[u8]) -> (r: Vec<u8>)
    ensures
        r@ == join_of(dir@, rel@),
{
    let mut r = copy_bytes(dir);
    if dir.len() > 0 && dir[dir.len() - 1] != 47 {
        r.push(47);
    }
    push_all(&mut r, rel);
    r
}

/// Where an import may be found, in the order to try them.
pub fn module_paths(dir: &[u8], import: &[u8], parent: &[u8]) -> (r: (Vec<u8>, Vec<u8>))
    ensures
        (r.0@, r.1@) == candidates_of(dir@, import@, parent@),
{
    let mut first = copy_bytes(import);
    push_word(&mut first, ".mexpr");
    let mut second = copy_bytes(parent);
    second.push(47);
    push_all(&mut second, import);
    push_word(&mut second, ".mexpr");
    (join(dir, first.as_slice()), join(dir, second.as_slice()))
}

/// The files loaded so far; a file's index is its id.
#[derive(Debug, Clone, PartialEq, Eq, Default)]
pub struct FileTable {
    table: Vec<Vec<u8>>,
}

/// The index of the first occurrence of `x` in `s`, if any.
pub open spec fn first_index(s: Seq<Seq<u8>>, x: Seq<u8>) -> Option<int> {
    if exists|i: int| 0 <= i < s.len() && s[i] == x {
        let i = choose|i: int| 0 <= i < s.len() && s[i] == x && forall|j: int| 0 <= j < i ==> s[j] != x;
        Some(i)
    } else {
        None
    }
}

/// What appending `x` to the table `s` gives: the table, unchanged if it
/// holds `x` and else with `x` at its end, and the index of `x` in it.
pub open spec fn append_of(s: Seq<Seq<u8>>, x: Seq<u8>) -> (Seq<Seq<u8>>, int) {
    match first_index(s, x) {
        Some(i) => (s, i),
        None => (s.push(x), s.len() as int),
    }
}

/// No path occurs twice.
pub open spec fn distinct(s: Seq<Seq<u8>>) -> bool {
    forall|i: int, j: int| 0 <= i < j < s.len() ==> s[i] != s[j]
}

impl View for FileTable {
    type V = Seq<Seq<u8>>;

    closed spec fn view(&self) -> Seq<Seq<u8>> {
        texts_view(self.table@)
    }
}

proof fn lemma_first_index(s: Seq<Seq<u8>>, x: Seq<u8>, i: int)
    requires
        0 <= i <= s.len(),
        forall|j: int| 0 <= j < i ==> s[j] != x,
        i < s.len() ==> s[i] == x,
    ensures
        first_index(s, x) == if i < s.len() { Some(i) } else { None::<int> },
{
    if i < s.len() {
        let k = choose|k: int| 0 <= k < s.len() && s[k] == x && forall|j: int| 0 <= j < k ==> s[j] != x;
        assert(0 <= k < s.len() && s[k] == x && forall|j: int| 0 <= j < k ==> s[j] != x);
        if k < i {
        } else if k > i {
            assert(s[i] != x);
        }
    }
}

impl FileTable {
    /// An empty table.
    pub fn new() -> (r: Self)
        ensures
            r@ == Seq::<Seq<u8>>::empty(),
    {
        let r = FileTable { table: Vec::new() };
        assert(r@ =~= Seq::<Seq<u8>>::empty());
        r
    }

    fn find(&self, path: &[u8]) -> (r: Option<usize>)
        ensures
            match r {
                Some(i) => first_index(self@, path@) == Some(i as int),
                None => first_index(self@, path@) is None,
            },
    {
        let ghost v = self@;
        let mut i: usize = 0;
        while i < self.table.len()
            invariant
                i <= self.table.len(),
                v == self@,
                v.len() == self.table.len(),
                forall|j: int| 0 <= j < i ==> v[j] != path@,
            decreases self.table.len() - i,
        {
            assert(v[i as int] == self.table@[i as int]@);
            if bytes_eq(self.table[i].as_slice(), path) {
                proof {
                    lemma_first_index(v, path@, i as int);
                }
                return Some(i);
            }
            i += 1;
        }
        proof {
            lemma_first_index(v, path@, i as int);
        }
        None
    }

    /// The id of `file`: its index if the table holds it, else a new index at the end.
    pub fn append(&mut self, file: Vec<u8>) -> (r: usize)
        ensures
            (final(self)@, r as int) == append_of(old(self)@, file@),
    {
        match self.find(file.as_slice()) {
            Some(i) => i,
            None => {
                let ghost old_v = self@;
                self.table.push(file);
                assert(self@ =~= old_v.push(file@));
                self.table.len() - 1
            },
        }
    }

    /// The id of `path`, if the table holds it.
    pub fn position(&self, path: &[u8]) -> (r: Option<usize>)
        ensures
            match r {
                Some(i) => first_index(self@, path@) == Some(i as int),
                None => first_index(self@, path@) is None,
            },
    {
        self.find(path)
    }

    /// The paths of the files, indexed by id.
    pub fn files(&self) -> (r: &[Vec<u8>])
        ensures
            texts_view(r@) == self@,
    {
        self.table.as_slice()
    }

    /// The path of the file with the given id.
    pub fn file(&self, id: usize) -> (r: &Vec<u8>)
        requires
            id < self@.len(),
        ensures
            r@ == self@[id as int],
    {
        &self.table[id]
    }

    /// The number of files.
    pub fn len(&self) -> (r: usize)
        ensures
            r == self@.len(),
    {
        self.table.len()
    }
}

/// Appending to a table without repeats keeps it without repeats.
pub proof fn lemma_append_distinct(s: Seq<Seq<u8>>, x: Seq<u8>)
    requires
        distinct(s),
    ensures
        distinct(append_of(s, x).0),
        0 <= append_of(s, x).1 < append_of(s, x).0.len(),
        append_of(s, x).0[append_of(s, x).1] == x,
        append_of(s, x).0.len() >= s.len(),
        forall|i: int| 0 <= i < s.len() ==> append_of(s, x).0[i] == s[i],
{
    match first_index(s, x) {
        Some(i) => {
            let k = choose|i: int| 0 <= i < s.len() && s[i] == x && forall|j: int| 0 <= j < i ==> s[j] != x;
            assert(0 <= k < s.len() && s[k] == x);
        },
        None => {
            let t = s.push(x);
            assert forall|i: int, j: int| 0 <= i < j < t.len() implies t[i] != t[j] by {
                if j == s.len() {
                    assert(!(0 <= i < s.len() && s[i] == x));
                }
            }
        },
    }
}


/// After a path is appended, [`FileTable::position`] finds it at the id that
/// [`FileTable::append`] gave, and appending it again changes nothing and
/// gives the same id.
pub proof fn lemma_append_position(s: Seq<Seq<u8>>, x: Seq<u8>)
    ensures
        first_index(append_of(s, x).0, x) == Some(append_of(s, x).1),
        append_of(append_of(s, x).0, x) == append_of(s, x),
{
    if first_index(s, x) is None {
        let t = s.push(x);
        assert forall|j: int| 0 <= j < s.len() implies t[j] != x by {
            assert(t[j] == s[j]);
        }
        lemma_first_index(t, x, s.len() as int);
        assert(append_of(s, x) == (t, s.len() as int));
    }
}

} // verus!

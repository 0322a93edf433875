//! The manifest of a content tree: each file's path with the digest of its
//! content, kept in path order.

use crate::digest::{hex, sha256, sha256_hex, FileDigest};
use crate::text::to_chars;
use vstd::prelude::*;
use vstd::string::*;

verus! {

/// One line of the manifest: a path below the content root, without a leading
/// slash, and the file's digest in hexadecimal, if it has one.
pub struct ManifestLine {
    pub path: Seq<char>,
    pub hash: Option<Seq<char>>,
}

/// Where a character stands in path order: at its code point. The slash is a
/// character like any other.
pub open spec fn rank(c: char) -> int {
    c as int
}

/// Path order: the lexicographic order of the paths as strings. The first
/// character in which two paths differ decides, and a path comes before
/// those that extend it.
pub open spec fn path_lt(a: Seq<char>, b: Seq<char>) -> bool
    decreases a.len(),
{
    if b.len() == 0 {
        false
    } else if a.len() == 0 {
        true
    } else if a[0] != b[0] {
        rank(a[0]) < rank(b[0])
    } else {
        path_lt(a.drop_first(), b.drop_first())
    }
}

/// Different characters stand at different places.
pub proof fn lemma_rank_injective(x: char, y: char)
    ensures
        0 <= rank(x),
        rank(x) == rank(y) ==> x == y,
{
    assert(0 <= x as int);
    if rank(x) == rank(y) {
        assert(x as int == y as int);
        assert(x == y);
    }
}

/// No path comes before itself.
pub proof fn lemma_path_lt_irreflexive(a: Seq<char>)
    ensures
        !path_lt(a, a),
    decreases a.len(),
{
    if a.len() > 0 {
        lemma_path_lt_irreflexive(a.drop_first());
    }
}

/// Of two paths, not each comes before the other.
pub proof fn lemma_path_lt_asymmetric(a: Seq<char>, b: Seq<char>)
    ensures
        !(path_lt(a, b) && path_lt(b, a)),
    decreases a.len(),
{
    if a.len() > 0 && b.len() > 0 && a[0] == b[0] {
        lemma_path_lt_asymmetric(a.drop_first(), b.drop_first());
    }
}

/// What comes before a path comes before all that the path comes before.
pub proof fn lemma_path_lt_transitive(a: Seq<char>, b: Seq<char>, c: Seq<char>)
    requires
        path_lt(a, b),
        path_lt(b, c),
    ensures
        path_lt(a, c),
    decreases a.len(),
{
    if a.len() > 0 && b.len() > 0 && c.len() > 0 && a[0] == b[0] && b[0] == c[0] {
        lemma_path_lt_transitive(a.drop_first(), b.drop_first(), c.drop_first());
    }
}

/// Of two different paths one comes before the other.
pub proof fn lemma_path_lt_total(a: Seq<char>, b: Seq<char>)
    ensures
        a == b || path_lt(a, b) || path_lt(b, a),
    decreases a.len(),
{
    if a.len() > 0 && b.len() > 0 && a[0] == b[0] {
        lemma_path_lt_total(a.drop_first(), b.drop_first());
        if a.drop_first() == b.drop_first() {
            assert(a =~= seq![a[0]] + a.drop_first());
            assert(b =~= seq![b[0]] + b.drop_first());
        }
    } else if a.len() == 0 && b.len() == 0 {
        assert(a =~= b);
    } else if a.len() > 0 && b.len() > 0 {
        lemma_rank_injective(a[0], b[0]);
    }
}

/// A common start does not decide the order of two paths.
proof fn lemma_path_lt_skip(a: Seq<char>, b: Seq<char>, k: int)
    requires
        0 <= k <= a.len(),
        k <= b.len(),
        a.take(k) == b.take(k),
    ensures
        path_lt(a, b) == path_lt(a.skip(k), b.skip(k)),
    decreases k,
{
    if k == 0 {
        assert(a.skip(0) == a);
        assert(b.skip(0) == b);
    } else {
        assert(a[0] == a.take(k)[0]);
        assert(b[0] == b.take(k)[0]);
        let a1 = a.drop_first();
        let b1 = b.drop_first();
        assert(a1.take(k - 1) == a.take(k).drop_first());
        assert(b1.take(k - 1) == b.take(k).drop_first());
        lemma_path_lt_skip(a1, b1, k - 1);
        assert(a1.skip(k - 1) == a.skip(k));
        assert(b1.skip(k - 1) == b.skip(k));
    }
}

/// Lines in strictly rising path order: no path occurs twice.
pub open spec fn sorted(lines: Seq<ManifestLine>) -> bool {
    forall|i: int, j: int| 0 <= i < j < lines.len() ==> path_lt(lines[i].path, lines[j].path)
}

/// Whether two listings hold the same lines.
pub open spec fn same_lines(a: Seq<ManifestLine>, b: Seq<ManifestLine>) -> bool {
    forall|x: ManifestLine| a.contains(x) <==> b.contains(x)
}

/// Whether a listing has a line for `path`.
pub open spec fn has_path(lines: Seq<ManifestLine>, path: Seq<char>) -> bool {
    exists|i: int| 0 <= i < lines.len() && lines[i].path == path
}

/// The word that stands for the digest of a file that has none.
pub open spec fn nohash() -> Seq<char> {
    seq!['n', 'o', 'h', 'a', 's', 'h']
}

/// A line as it is written: a slash, the path, a space, the digest or
/// `nohash`, and a line feed.
pub open spec fn line_text(line: ManifestLine) -> Seq<char> {
    seq!['/'] + line.path + seq![' '] + match line.hash {
        Some(h) => h,
        None => nohash(),
    } + seq!['\n']
}

/// The text of a listing: its lines in order.
pub open spec fn filelist_text(lines: Seq<ManifestLine>) -> Seq<char>
    decreases lines.len(),
{
    if lines.len() == 0 {
        Seq::empty()
    } else {
        filelist_text(lines.drop_last()) + line_text(lines.last())
    }
}

/// The order of a sorted listing is decided by the lines it holds: two sorted
/// listings of the same lines are the same listing, and so is their text,
/// in whatever order the lines were added.
pub proof fn lemma_listing_determined(a: Seq<ManifestLine>, b: Seq<ManifestLine>)
    requires
        sorted(a),
        sorted(b),
        same_lines(a, b),
    ensures
        a == b,
        filelist_text(a) == filelist_text(b),
    decreases a.len(),
{
    if a.len() == 0 {
        if b.len() > 0 {
            assert(b.contains(b[0]));
        }
        assert(a =~= b);
    } else {
        assert(a.contains(a[0]));
        let k = choose|k: int| 0 <= k < b.len() && b[k] == a[0];
        assert(b.contains(b[0]));
        let m = choose|m: int| 0 <= m < a.len() && a[m] == b[0];
        if k > 0 {
            lemma_path_lt_irreflexive(a[0].path);
            lemma_path_lt_asymmetric(a[0].path, a[m].path);
        }
        let a1 = a.drop_first();
        let b1 = b.drop_first();
        assert forall|x: ManifestLine| a1.contains(x) <==> b1.contains(x) by {
            lemma_path_lt_irreflexive(a[0].path);
            if a1.contains(x) {
                let i = choose|i: int| 0 <= i < a1.len() && a1[i] == x;
                assert(a[i + 1] == x);
                assert(a.contains(x));
                let j = choose|j: int| 0 <= j < b.len() && b[j] == x;
                assert(j > 0);
                assert(b1[j - 1] == x);
            }
            if b1.contains(x) {
                let i = choose|i: int| 0 <= i < b1.len() && b1[i] == x;
                assert(b[i + 1] == x);
                assert(b.contains(x));
                let j = choose|j: int| 0 <= j < a.len() && a[j] == x;
                assert(j > 0);
                assert(a1[j - 1] == x);
            }
        }
        assert forall|i: int, j: int| 0 <= i < j < a1.len() implies path_lt(
            a1[i].path,
            a1[j].path,
        ) by {
            assert(a1[i] == a[i + 1] && a1[j] == a[j + 1]);
        }
        assert forall|i: int, j: int| 0 <= i < j < b1.len() implies path_lt(
            b1[i].path,
            b1[j].path,
        ) by {
            assert(b1[i] == b[i + 1] && b1[j] == b[j + 1]);
        }
        lemma_listing_determined(a1, b1);
        assert(a =~= seq![a[0]] + a1);
        assert(b =~= seq![b[0]] + b1);
    }
}

/// A listing with one more line, at the place that path order gives it.
pub open spec fn inserted(lines: Seq<ManifestLine>, line: ManifestLine) -> Seq<ManifestLine>
    decreases lines.len(),
{
    if lines.len() == 0 {
        seq![line]
    } else if path_lt(lines.last().path, line.path) {
        lines.push(line)
    } else {
        inserted(lines.drop_last(), line).push(lines.last())
    }
}

/// The paths of a listing.
pub open spec fn paths(lines: Seq<ManifestLine>) -> Set<Seq<char>> {
    Set::new(|p: Seq<char>| has_path(lines, p))
}

/// A line put into a sorted listing that has no line for its path: the
/// listing stays sorted, is one line longer, and holds the line besides what
/// it held.
pub proof fn lemma_inserted(lines: Seq<ManifestLine>, line: ManifestLine)
    requires
        sorted(lines),
        !has_path(lines, line.path),
    ensures
        sorted(inserted(lines, line)),
        inserted(lines, line).len() == lines.len() + 1,
        inserted(lines, line).contains(line),
        has_path(inserted(lines, line), line.path),
        forall|x: ManifestLine|
            inserted(lines, line).contains(x) <==> lines.contains(x) || x == line,
        forall|p: Seq<char>|
            has_path(inserted(lines, line), p) <==> has_path(lines, p) || p == line.path,
    decreases lines.len(),
{
    let out = inserted(lines, line);
    if lines.len() == 0 {
        assert(out[0] == line);
        assert forall|p: Seq<char>| has_path(out, p) <==> has_path(lines, p) || p
            == line.path by {
            if p == line.path {
                assert(out[0].path == p);
            }
        }
    } else if path_lt(lines.last().path, line.path) {
        assert forall|i: int, j: int| 0 <= i < j < out.len() implies path_lt(
            out[i].path,
            out[j].path,
        ) by {
            if j == lines.len() && i < lines.len() - 1 {
                lemma_path_lt_transitive(lines[i].path, lines.last().path, line.path);
            }
        }
        assert forall|x: ManifestLine| out.contains(x) <==> lines.contains(x) || x == line by {
            if lines.contains(x) {
                let i = choose|i: int| 0 <= i < lines.len() && lines[i] == x;
                assert(out[i] == x);
            }
            assert(out[lines.len() as int] == line);
        }
        assert forall|p: Seq<char>| has_path(out, p) <==> has_path(lines, p) || p
            == line.path by {
            if has_path(lines, p) {
                let i = choose|i: int| 0 <= i < lines.len() && lines[i].path == p;
                assert(out[i].path == p);
            }
            assert(out[lines.len() as int].path == line.path);
        }
    } else {
        let front = lines.drop_last();
        let last = lines.last();
        assert forall|i: int, j: int| 0 <= i < j < front.len() implies path_lt(
            front[i].path,
            front[j].path,
        ) by {
            assert(front[i] == lines[i] && front[j] == lines[j]);
        }
        if has_path(front, line.path) {
            let i = choose|i: int| 0 <= i < front.len() && front[i].path == line.path;
            assert(lines[i].path == line.path);
        }
        lemma_inserted(front, line);
        let mid = inserted(front, line);
        assert(lines[lines.len() - 1].path != line.path);
        lemma_path_lt_total(last.path, line.path);
        assert forall|i: int, j: int| 0 <= i < j < out.len() implies path_lt(
            out[i].path,
            out[j].path,
        ) by {
            if j == mid.len() {
                let x = mid[i];
                assert(out[i] == x && out[j] == last);
                assert(mid.contains(x));
                if x != line {
                    assert(front.contains(x));
                    let k = choose|k: int| 0 <= k < front.len() && front[k] == x;
                    assert(lines[k] == x);
                    assert(path_lt(lines[k].path, lines[lines.len() - 1].path));
                }
            } else {
                assert(out[i] == mid[i] && out[j] == mid[j]);
            }
        }
        assert forall|x: ManifestLine| out.contains(x) <==> lines.contains(x) || x == line by {
            if out.contains(x) {
                let i = choose|i: int| 0 <= i < out.len() && out[i] == x;
                if i < mid.len() {
                    assert(mid[i] == x);
                    assert(mid.contains(x));
                    if x != line {
                        assert(front.contains(x));
                        let k = choose|k: int| 0 <= k < front.len() && front[k] == x;
                        assert(lines[k] == x);
                    }
                } else {
                    assert(lines[lines.len() - 1] == x);
                }
            }
            if lines.contains(x) {
                let i = choose|i: int| 0 <= i < lines.len() && lines[i] == x;
                if i < front.len() {
                    assert(front[i] == x);
                    assert(front.contains(x));
                    assert(mid.contains(x));
                    let k = choose|k: int| 0 <= k < mid.len() && mid[k] == x;
                    assert(out[k] == x);
                } else {
                    assert(out[mid.len() as int] == x);
                }
            }
            if x == line {
                assert(mid.contains(line));
                let k = choose|k: int| 0 <= k < mid.len() && mid[k] == x;
                assert(out[k] == x);
            }
        }
        assert forall|p: Seq<char>| has_path(out, p) <==> has_path(lines, p) || p
            == line.path by {
            if has_path(out, p) {
                let i = choose|i: int| 0 <= i < out.len() && out[i].path == p;
                if i < mid.len() {
                    assert(mid[i].path == p);
                    assert(has_path(mid, p));
                    if p != line.path {
                        assert(has_path(front, p));
                        let k = choose|k: int| 0 <= k < front.len() && front[k].path == p;
                        assert(lines[k].path == p);
                    }
                } else {
                    assert(lines[lines.len() - 1].path == p);
                }
            }
            if has_path(lines, p) {
                let i = choose|i: int| 0 <= i < lines.len() && lines[i].path == p;
                if i < front.len() {
                    assert(front[i].path == p);
                    assert(has_path(front, p));
                    assert(has_path(mid, p));
                    let k = choose|k: int| 0 <= k < mid.len() && mid[k].path == p;
                    assert(out[k].path == p);
                } else {
                    assert(out[mid.len() as int].path == p);
                }
            }
            if p == line.path {
                assert(has_path(mid, p));
                let k = choose|k: int| 0 <= k < mid.len() && mid[k].path == p;
                assert(out[k].path == p);
            }
        }
    }
}

/// The order in which two files are added does not show in the listing.
pub proof fn lemma_insert_order(lines: Seq<ManifestLine>, a: ManifestLine, b: ManifestLine)
    requires
        sorted(lines),
        !has_path(lines, a.path),
        !has_path(lines, b.path),
        a.path != b.path,
    ensures
        inserted(inserted(lines, a), b) == inserted(inserted(lines, b), a),
        filelist_text(inserted(inserted(lines, a), b)) == filelist_text(
            inserted(inserted(lines, b), a),
        ),
{
    lemma_inserted(lines, a);
    lemma_inserted(lines, b);
    lemma_inserted(inserted(lines, a), b);
    lemma_inserted(inserted(lines, b), a);
    let ab = inserted(inserted(lines, a), b);
    let ba = inserted(inserted(lines, b), a);
    assert forall|x: ManifestLine| ab.contains(x) <==> ba.contains(x) by {
        assert(ab.contains(x) <==> inserted(lines, a).contains(x) || x == b);
        assert(inserted(lines, a).contains(x) <==> lines.contains(x) || x == a);
        assert(ba.contains(x) <==> inserted(lines, b).contains(x) || x == a);
        assert(inserted(lines, b).contains(x) <==> lines.contains(x) || x == b);
    }
    lemma_listing_determined(ab, ba);
}

/// A sorted listing has as many lines as paths.
pub proof fn lemma_paths_len(lines: Seq<ManifestLine>)
    requires
        sorted(lines),
    ensures
        paths(lines).finite(),
        paths(lines).len() == lines.len(),
    decreases lines.len(),
{
    if lines.len() == 0 {
        assert(paths(lines) =~= Set::<Seq<char>>::empty());
    } else {
        let front = lines.drop_last();
        let last = lines.last();
        assert forall|i: int, j: int| 0 <= i < j < front.len() implies path_lt(
            front[i].path,
            front[j].path,
        ) by {
            assert(front[i] == lines[i] && front[j] == lines[j]);
        }
        lemma_paths_len(front);
        lemma_path_lt_irreflexive(last.path);
        assert(paths(lines) =~= paths(front).insert(last.path)) by {
            assert forall|p: Seq<char>| paths(lines).contains(p) <==> paths(front).insert(
                last.path,
            ).contains(p) by {
                if has_path(lines, p) {
                    let i = choose|i: int| 0 <= i < lines.len() && lines[i].path == p;
                    if i < front.len() {
                        assert(front[i].path == p);
                    }
                }
                if has_path(front, p) {
                    let i = choose|i: int| 0 <= i < front.len() && front[i].path == p;
                    assert(lines[i].path == p);
                }
                if p == last.path {
                    assert(lines[lines.len() - 1].path == p);
                }
            }
        }
        if has_path(front, last.path) {
            let i = choose|i: int| 0 <= i < front.len() && front[i].path == last.path;
            assert(lines[i].path == lines[lines.len() - 1].path);
        }
    }
}

/// The result of putting two paths in order.
#[derive(Clone, Copy, Debug, PartialEq, Eq, Structural)]
pub enum Place {
    Before,
    Same,
    After,
}

fn rank_of(c: char) -> (r: u32)
    ensures
        r == rank(c),
{
    c as u32
}

/// Puts two paths in path order.
pub fn place(a: &Vec<char>, b: &Vec<char>) -> (r: Place)
    ensures
        (r == Place::Before) == path_lt(a@, b@),
        (r == Place::Same) == (a@ == b@),
        (r == Place::After) == path_lt(b@, a@),
{
    let mut i: usize = 0;
    while i < a.len() && i < b.len()
        invariant
            i <= a.len(),
            i <= b.len(),
            a@.take(i as int) == b@.take(i as int),
        decreases a.len() - i,
    {
        if a[i] != b[i] {
            proof {
                lemma_path_lt_skip(a@, b@, i as int);
                lemma_path_lt_skip(b@, a@, i as int);
                assert(a@.skip(i as int)[0] == a@[i as int]);
                assert(b@.skip(i as int)[0] == b@[i as int]);
                assert(a@ != b@);
                lemma_rank_injective(a@[i as int], b@[i as int]);
            }
            if rank_of(a[i]) < rank_of(b[i]) {
                return Place::Before;
            } else {
                return Place::After;
            }
        }
        assert(a@.take(i + 1) == a@.take(i as int).push(a@[i as int]));
        assert(b@.take(i + 1) == b@.take(i as int).push(b@[i as int]));
        i += 1;
    }
    proof {
        lemma_path_lt_skip(a@, b@, i as int);
        lemma_path_lt_skip(b@, a@, i as int);
        lemma_path_lt_irreflexive(a@);
        if i == a.len() && i == b.len() {
            assert(a@.take(i as int) == a@);
            assert(b@.take(i as int) == b@);
        }
    }
    if i < b.len() {
        Place::Before
    } else if i < a.len() {
        Place::After
    } else {
        Place::Same
    }
}

/// The line for a file at `path`: with the digest of its content where it has
/// content, without a digest where it has none.
pub open spec fn new_line(path: Seq<char>, content: Option<Seq<u8>>) -> ManifestLine {
    ManifestLine {
        path,
        hash: match content {
            Some(c) => Some(hex(sha256(c))),
            None => None,
        },
    }
}

/// The content behind a digest that may be missing.
pub open spec fn content_of(digest: Option<&FileDigest>) -> Option<Seq<u8>> {
    match digest {
        Some(d) => Some(d.content()),
        None => None,
    }
}

/// A file of the manifest.
struct FileListEntry {
    /// The path below the content root, without a leading slash.
    path: String,
    /// The digest of the content in hexadecimal; `None` is written `nohash`.
    hash: Option<String>,
    /// The characters of the path, by which entries are put in order.
    key: Vec<char>,
}

impl FileListEntry {
    /// The line that this entry stands for.
    spec fn line(&self) -> ManifestLine {
        ManifestLine {
            path: self.path@,
            hash: match self.hash {
                Some(h) => Some(h@),
                None => None,
            },
        }
    }

    spec fn wf(&self) -> bool {
        self.key@ == self.path@
    }
}

/// The manifest under construction: its entries in path order, no path twice.
pub struct Manifest {
    entries: Vec<FileListEntry>,
}

impl View for Manifest {
    type V = Seq<ManifestLine>;

    closed spec fn view(&self) -> Seq<ManifestLine> {
        Seq::new(self.entries@.len(), |i: int| self.entries@[i].line())
    }
}

impl Manifest {
    /// The entries are in path order and each is well formed.
    pub closed spec fn wf(&self) -> bool {
        &&& sorted(self@)
        &&& forall|i: int| 0 <= i < self.entries@.len() ==> (#[trigger] self.entries@[i]).wf()
    }

    /// A well-formed manifest lists its lines in path order.
    pub proof fn lemma_sorted(&self)
        requires
            self.wf(),
        ensures
            sorted(self@),
    {
    }

    /// An empty manifest.
    pub fn new() -> (r: Manifest)
        ensures
            r.wf(),
            r@ == Seq::<ManifestLine>::empty(),
    {
        let r = Manifest { entries: Vec::new() };
        assert(r@ =~= Seq::<ManifestLine>::empty());
        r
    }

    /// The number of entries.
    pub fn len(&self) -> (r: usize)
        ensures
            r == self@.len(),
    {
        self.entries.len()
    }

    /// Where `key` stands among the entries: the number of entries before it,
    /// and whether it is there.
    fn locate(&self, key: &Vec<char>) -> (r: (usize, bool))
        requires
            self.wf(),
        ensures
            r.0 <= self@.len(),
            forall|i: int| 0 <= i < r.0 ==> path_lt(self@[i].path, key@),
            r.1 ==> r.0 < self@.len() && self@[r.0 as int].path == key@,
            !r.1 ==> forall|i: int| r.0 <= i < self@.len() ==> path_lt(key@, self@[i].path),
            r.1 == has_path(self@, key@),
    {
        let mut lo: usize = 0;
        let mut hi: usize = self.entries.len();
        while lo < hi
            invariant
                self.wf(),
                lo <= hi <= self.entries@.len(),
                self@.len() == self.entries@.len(),
                forall|i: int| 0 <= i < lo ==> path_lt(self@[i].path, key@),
                forall|i: int| hi <= i < self@.len() ==> path_lt(key@, self@[i].path),
            decreases hi - lo,
        {
            let mid = lo + (hi - lo) / 2;
            assert(self.entries@[mid as int].wf());
            assert(self@[mid as int].path == self.entries@[mid as int].key@);
            match place(&self.entries[mid].key, key) {
                Place::Before => {
                    assert forall|i: int| 0 <= i < mid + 1 implies path_lt(
                        self@[i].path,
                        key@,
                    ) by {
                        if i < mid {
                            lemma_path_lt_transitive(self@[i].path, self@[mid as int].path, key@);
                        }
                    }
                    lo = mid + 1;
                },
                Place::Same => {
                    return (mid, true);
                },
                Place::After => {
                    assert forall|i: int| mid <= i < self@.len() implies path_lt(
                        key@,
                        self@[i].path,
                    ) by {
                        if i > mid {
                            lemma_path_lt_transitive(key@, self@[mid as int].path, self@[i].path);
                        }
                    }
                    hi = mid;
                },
            }
        }
        proof {
            if has_path(self@, key@) {
                let i = choose|i: int| 0 <= i < self@.len() && self@[i].path == key@;
                lemma_path_lt_irreflexive(key@);
            }
        }
        (lo, false)
    }

    /// Whether the manifest has an entry for `path`.
    pub fn contains(&self, path: &str) -> (r: bool)
        requires
            self.wf(),
        ensures
            r == has_path(self@, path@),
    {
        let key = to_chars(path);
        self.locate(&key).1
    }

    /// Adds an entry for `path`: with the SHA-256 digest of the file's content
    /// where a digest is given, without a digest where none is. Where the path
    /// is taken already, nothing changes and the result is `false`.
    pub fn add(&mut self, path: &str, digest: Option<&FileDigest>) -> (r: bool)
        requires
            old(self).wf(),
        ensures
            final(self).wf(),
            r == !has_path(old(self)@, path@),
            !r ==> final(self)@ == old(self)@,
            r ==> final(self)@ == inserted(old(self)@, new_line(path@, content_of(digest))),
    {
        let key = to_chars(path);
        let (at, found) = self.locate(&key);
        if found {
            return false;
        }
        let hash = match digest {
            Some(d) => Some(d.as_hex().to_owned()),
            None => None,
        };
        let entry = FileListEntry { path: path.to_owned(), hash, key };
        let ghost line = entry.line();
        let ghost before = self@;
        self.entries.insert(at, entry);
        proof {
            let after = self@;
            assert(after =~= before.insert(at as int, line));
            assert forall|i: int, j: int| 0 <= i < j < after.len() implies path_lt(
                after[i].path,
                after[j].path,
            ) by {
                if i == at {
                    assert(after[j] == before[j - 1]);
                } else if j == at {
                } else {
                    let i0 = if i < at { i } else { i - 1 };
                    let j0 = if j < at { j } else { j - 1 };
                    assert(after[i] == before[i0] && after[j] == before[j0]);
                }
            }
            assert forall|x: ManifestLine|
                after.contains(x) <==> before.contains(x) || x == line by {
                if after.contains(x) {
                    let i = choose|i: int| 0 <= i < after.len() && after[i] == x;
                    if i < at {
                        assert(before[i] == x);
                    } else if i > at {
                        assert(before[i - 1] == x);
                    }
                }
                if before.contains(x) {
                    let i = choose|i: int| 0 <= i < before.len() && before[i] == x;
                    if i < at {
                        assert(after[i] == x);
                    } else {
                        assert(after[i + 1] == x);
                    }
                }
                assert(after[at as int] == line);
            }
            lemma_inserted(before, line);
            lemma_listing_determined(after, inserted(before, line));
        }
        true
    }

    /// The manifest as it is written: one line for each entry, in path order.
    pub fn emit_filelist(&self) -> (r: String)
        ensures
            r@ == filelist_text(self@),
    {
        let mut out = String::new();
        let mut i: usize = 0;
        while i < self.entries.len()
            invariant
                i <= self.entries@.len(),
                self@.len() == self.entries@.len(),
                out@ == filelist_text(self@.take(i as int)),
            decreases self.entries.len() - i,
        {
            let e = &self.entries[i];
            proof {
                reveal_strlit("/");
                reveal_strlit(" ");
                reveal_strlit("nohash");
                reveal_strlit("\n");
                assert("nohash"@ =~= nohash());
                assert(self@.take(i + 1).drop_last() == self@.take(i as int));
                assert(self@.take(i + 1).last() == e.line());
            }
            let ghost before = out@;
            out.append("/");
            out.append(e.path.as_str());
            out.append(" ");
            match &e.hash {
                Some(h) => {
                    out.append(h.as_str());
                },
                None => {
                    out.append("nohash");
                },
            }
            out.append("\n");
            assert(out@ =~= before + line_text(e.line()));
            i += 1;
        }
        assert(self@.take(self@.len() as int) == self@);
        out
    }
}

/// The bundle digest as it is written: the SHA-256 digest of the manifest's
/// text in hexadecimal, and a line feed.
pub fn emit_digest(filelist: &str) -> (r: String)
    ensures
        r@ == hex(sha256(filelist.spec_bytes())) + seq!['\n'],
        sha256(filelist.spec_bytes()).len() == 32,
{
    let mut out = sha256_hex(filelist.as_bytes());
    proof {
        reveal_strlit("\n");
    }
    out.append("\n");
    out
}

} // verus!

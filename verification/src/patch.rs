//! The patch registry: which patch file changes the file at a logical path.

use crate::config::same_text;
use crate::error::BuildError;
use crate::expand::{expand, expand_spec};
use crate::text::{
    find_char, first_index, last_index, lemma_first_index_bounds, lemma_first_index_is,
    lemma_last_index_is, to_chars, views,
};
use vstd::prelude::*;
use vstd::string::*;

verus! {

/// One entry of the registry: a logical path and the patch file for it.
pub struct PatchTarget {
    pub path: Seq<char>,
    pub file: Seq<char>,
}

/// The logical paths of the entries, in order.
pub open spec fn target_paths(m: Seq<PatchTarget>) -> Seq<Seq<char>> {
    Seq::new(m.len(), |i: int| m[i].path)
}

/// Whether there is a patch for `path`.
pub open spec fn has_target(m: Seq<PatchTarget>, path: Seq<char>) -> bool {
    target_paths(m).contains(path)
}

/// The patch file for `path`, if there is one.
pub open spec fn file_for(m: Seq<PatchTarget>, path: Seq<char>) -> Option<Seq<char>> {
    let k = first_index(target_paths(m), path);
    if 0 <= k < m.len() {
        Some(m[k].file)
    } else {
        None
    }
}

/// No logical path has two patches.
pub open spec fn injective(m: Seq<PatchTarget>) -> bool {
    forall|i: int, j: int| 0 <= i < j < m.len() ==> m[i].path != m[j].path
}

/// The registry after `file` was registered for each of `targets` in turn: a
/// target that has a patch already keeps it.
pub open spec fn register(m: Seq<PatchTarget>, targets: Seq<Seq<char>>, file: Seq<char>) -> Seq<
    PatchTarget,
>
    decreases targets.len(),
{
    if targets.len() == 0 {
        m
    } else {
        let r = register(m, targets.drop_last(), file);
        if has_target(r, targets.last()) {
            r
        } else {
            r.push(PatchTarget { path: targets.last(), file })
        }
    }
}

/// The first line of a patch file, which names what the patch changes, and
/// what follows that line: the diff. A text without a line feed is all first
/// line.
pub open spec fn split_header(text: Seq<char>) -> (Seq<char>, Seq<char>) {
    let i = first_index(text, '\n');
    if 0 <= i < text.len() {
        (text.take(i), text.skip(i + 1))
    } else {
        (text, Seq::empty())
    }
}

/// Whether a path names a patch file: in its last segment the text after the
/// last dot is `diff`, and that dot is not the segment's first character.
pub open spec fn is_diff_path(path: Seq<char>) -> bool {
    let name = path.skip(last_index(path, '/') + 1);
    let dot = last_index(name, '.');
    dot > 0 && name.skip(dot + 1) == seq!['d', 'i', 'f', 'f']
}

/// The last position in `from..to` that holds `c`, or `from - 1`: as a count
/// from `from`, one more than the last index, so 0 where there is none.
fn rfind_char(v: &Vec<char>, c: char, from: usize, to: usize) -> (r: usize)
    requires
        from <= to <= v.len(),
    ensures
        r == last_index(v@.subrange(from as int, to as int), c) + 1,
        r <= to - from,
{
    let mut i: usize = to;
    while i > from && v[i - 1] != c
        invariant
            from <= i <= to <= v.len(),
            forall|j: int| i <= j < to ==> v@[j] != c,
        decreases i,
    {
        i -= 1;
    }
    proof {
        lemma_last_index_is(v@.subrange(from as int, to as int), c, i - from - 1);
    }
    i - from
}

/// Whether a path names a patch file.
pub fn is_diff_file(path: &str) -> (r: bool)
    ensures
        r == is_diff_path(path@),
{
    let chars = to_chars(path);
    let n = chars.len();
    let start = rfind_char(&chars, '/', 0, n);
    assert(chars@.subrange(0, n as int) == path@);
    let ghost name = path@.skip(start as int);
    assert(chars@.subrange(start as int, n as int) == name);
    let dot = rfind_char(&chars, '.', start, n);
    if dot < 2 {
        return false;
    }
    let at = start + dot;
    assert(name.skip(dot as int) =~= path@.skip(at as int));
    if n - at != 4 {
        assert(name.skip(dot as int).len() != 4);
        return false;
    }
    let r = chars[at] == 'd' && chars[at + 1] == 'i' && chars[at + 2] == 'f' && chars[at + 3] == 'f';
    proof {
        let e = name.skip(dot as int);
        assert(e[0] == chars@[at as int] && e[1] == chars@[at + 1] && e[2] == chars@[at + 2] && e[3]
            == chars@[at + 3]);
        if r {
            assert(e =~= seq!['d', 'i', 'f', 'f']);
        }
    }
    r
}

/// The first line of a patch file: the pattern of the logical paths that the
/// patch changes.
pub fn patch_target<'a>(text: &'a str) -> (r: &'a str)
    ensures
        r@ == split_header(text@).0,
{
    let chars = to_chars(text);
    let n = chars.len();
    let i = find_char(&chars, '\n', 0, n);
    assert(chars@.subrange(0, n as int) == text@);
    let r = text.substring_char(0, i);
    assert(text@.subrange(0, i as int) == text@.take(i as int));
    assert(text@.take(n as int) == text@);
    r
}

/// What follows the first line of a patch file: the diff, as the patch tool
/// reads it.
pub fn patch_body<'a>(text: &'a str) -> (r: &'a str)
    ensures
        r@ == split_header(text@).1,
{
    let chars = to_chars(text);
    let n = chars.len();
    let i = find_char(&chars, '\n', 0, n);
    assert(chars@.subrange(0, n as int) == text@);
    if i < n {
        let r = text.substring_char(i + 1, n);
        assert(text@.subrange(i + 1, n as int) == text@.skip(i + 1));
        r
    } else {
        let r = text.substring_char(n, n);
        assert(r@ =~= Seq::<char>::empty());
        r
    }
}

struct PatchEntry {
    target: String,
    file: String,
}

/// What came of loading one patch file.
pub struct DiffLoad {
    /// The number of targets that were registered.
    pub found: usize,
    /// The number of targets that had a patch already and kept it.
    pub conflicts: usize,
}

impl DiffLoad {
    /// What is to be warned of after loading: a conflict, if a target kept
    /// its earlier patch.
    pub fn warning(&self) -> (r: Option<BuildError>)
        ensures
            r == (if self.conflicts > 0 {
                Some(BuildError::PatchConflict)
            } else {
                None
            }),
    {
        if self.conflicts > 0 {
            Some(BuildError::PatchConflict)
        } else {
            None
        }
    }
}

/// The patches of one source, by the logical path that each changes.
pub struct PatchRegistry {
    entries: Vec<PatchEntry>,
}

impl View for PatchRegistry {
    type V = Seq<PatchTarget>;

    closed spec fn view(&self) -> Seq<PatchTarget> {
        Seq::new(
            self.entries@.len(),
            |i: int| PatchTarget { path: self.entries@[i].target@, file: self.entries@[i].file@ },
        )
    }
}

/// Registering keeps the registry injective, keeps what it held, and adds no
/// more entries than there are targets.
pub proof fn lemma_register(m: Seq<PatchTarget>, targets: Seq<Seq<char>>, file: Seq<char>)
    requires
        injective(m),
    ensures
        injective(register(m, targets, file)),
        m.len() <= register(m, targets, file).len() <= m.len() + targets.len(),
        register(m, targets, file).take(m.len() as int) == m,
        forall|i: int| 0 <= i < targets.len() ==> has_target(register(m, targets, file), targets[i]),
    decreases targets.len(),
{
    if targets.len() > 0 {
        let front = targets.drop_last();
        lemma_register(m, front, file);
        let r = register(m, front, file);
        let out = register(m, targets, file);
        if !has_target(r, targets.last()) {
            assert forall|i: int, j: int| 0 <= i < j < out.len() implies out[i].path
                != out[j].path by {
                if j == r.len() {
                    assert(target_paths(r)[i] == r[i].path);
                }
            }
            assert(out.take(m.len() as int) =~= r.take(m.len() as int));
            assert(target_paths(out)[r.len() as int] == targets.last());
        }
        assert forall|i: int| 0 <= i < targets.len() implies has_target(out, targets[i]) by {
            if i < front.len() {
                assert(front[i] == targets[i]);
                let k = choose|k: int|
                    0 <= k < target_paths(r).len() && target_paths(r)[k] == targets[i];
                assert(target_paths(out)[k] == targets[i]);
            }
        }
    } else {
        assert(m.take(m.len() as int) == m);
    }
}

impl PatchRegistry {
    /// No logical path has two patches.
    pub open spec fn wf(&self) -> bool {
        injective(self@)
    }

    /// A registry without patches.
    pub fn new() -> (r: PatchRegistry)
        ensures
            r@ == Seq::<PatchTarget>::empty(),
            r.wf(),
    {
        let r = PatchRegistry { entries: Vec::new() };
        assert(r@ =~= Seq::<PatchTarget>::empty());
        r
    }

    /// The number of logical paths that have a patch.
    pub fn len(&self) -> (r: usize)
        ensures
            r == self@.len(),
    {
        self.entries.len()
    }

    /// The place of the entry for `path`, or the number of entries.
    fn position(&self, path: &str) -> (r: usize)
        ensures
            r == first_index(target_paths(self@), path@),
            r <= self@.len(),
    {
        let mut i: usize = 0;
        while i < self.entries.len()
            invariant
                i <= self.entries.len(),
                forall|j: int| 0 <= j < i ==> target_paths(self@)[j] != path@,
            decreases self.entries.len() - i,
        {
            if same_text(self.entries[i].target.as_str(), path) {
                proof {
                    assert(target_paths(self@)[i as int] == path@);
                    lemma_first_index_is(target_paths(self@), path@, i as int);
                }
                return i;
            }
            i += 1;
        }
        proof {
            lemma_first_index_is(target_paths(self@), path@, i as int);
        }
        i
    }

    /// The patch file for the file at a logical path, if there is one.
    pub fn lookup(&self, path: &str) -> (r: Option<String>)
        ensures
            match file_for(self@, path@) {
                Some(f) => r is Some && r->Some_0@ == f,
                None => r is None,
            },
            r is Some <==> has_target(self@, path@),
    {
        let k = self.position(path);
        proof {
            lemma_first_index_bounds(target_paths(self@), path@);
        }
        if k < self.entries.len() {
            Some(self.entries[k].file.clone())
        } else {
            None
        }
    }

    /// Registers a patch file, given its path and its text, for every logical
    /// path that its first line stands for. A path that has a patch already
    /// keeps it, which is a conflict. Fails, and changes nothing, where the
    /// first line cannot be expanded.
    pub fn load_diff(&mut self, file: &str, text: &str) -> (r: Result<DiffLoad, BuildError>)
        requires
            old(self).wf(),
        ensures
            final(self).wf(),
            match expand_spec(split_header(text@).0) {
                Ok(targets) => {
                    &&& r is Ok
                    &&& final(self)@ == register(old(self)@, targets, file@)
                    &&& r->Ok_0.found == final(self)@.len() - old(self)@.len()
                    &&& r->Ok_0.found + r->Ok_0.conflicts == targets.len()
                },
                Err(_) => {
                    &&& r == Err::<DiffLoad, BuildError>(BuildError::PatternInvalid)
                    &&& final(self)@ == old(self)@
                },
            },
    {
        let targets = match expand(patch_target(text)) {
            Ok(t) => t,
            Err(_) => {
                return Err(BuildError::PatternInvalid);
            },
        };
        let mut found: usize = 0;
        let mut conflicts: usize = 0;
        let mut i: usize = 0;
        let ghost all = views(targets@);
        assert(all.take(0) == Seq::<Seq<char>>::empty());
        while i < targets.len()
            invariant
                i <= targets.len(),
                all == views(targets@),
                injective(old(self)@),
                self@ == register(old(self)@, all.take(i as int), file@),
                found == self@.len() - old(self)@.len(),
                found + conflicts == i,
            decreases targets.len() - i,
        {
            let ghost upto = all.take(i + 1);
            proof {
                assert(upto.drop_last() == all.take(i as int));
                assert(upto.last() == targets@[i as int]@);
                lemma_register(old(self)@, all.take(i as int), file@);
                lemma_first_index_bounds(target_paths(self@), targets@[i as int]@);
            }
            let k = self.position(targets[i].as_str());
            if k < self.entries.len() {
                conflicts += 1;
            } else {
                let ghost before = self@;
                self.entries.push(PatchEntry { target: targets[i].clone(), file: file.to_owned() });
                assert(self@ =~= before.push(
                    PatchTarget { path: targets@[i as int]@, file: file@ },
                ));
                found += 1;
            }
            i += 1;
        }
        proof {
            assert(all.take(targets.len() as int) == all);
            lemma_register(old(self)@, all, file@);
        }
        Ok(DiffLoad { found, conflicts })
    }
}

} // verus!

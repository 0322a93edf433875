//! What a selection run counts, and the summary that it prints.

use crate::config::same_text;
use crate::text::{decimal, push_decimal, push_repeated, repeated};
use std::cmp::Ordering;
use vstd::prelude::*;
use vstd::string::*;

verus! {

/// The counts of a run as plain values.
pub struct Stats {
    /// For each source, in the order in which the sources came, the number of
    /// files added from it.
    pub added: Seq<(Seq<char>, nat)>,
    pub extra: nat,
    pub extra_conflict: nat,
    pub ignored: nat,
    pub replaced: nat,
    pub patch_applied: nat,
    pub patch_found: nat,
}

/// The counts before anything was counted.
pub open spec fn zero_stats() -> Stats {
    Stats {
        added: Seq::empty(),
        extra: 0,
        extra_conflict: 0,
        ignored: 0,
        replaced: 0,
        patch_applied: 0,
        patch_found: 0,
    }
}

/// A count after `by` more, up to the largest that the counter holds.
pub open spec fn bump(n: nat, by: nat) -> nat {
    if n + by <= usize::MAX {
        n + by
    } else {
        usize::MAX as nat
    }
}

/// The names of the sources that have a count.
pub open spec fn source_names(added: Seq<(Seq<char>, nat)>) -> Seq<Seq<char>> {
    Seq::new(added.len(), |i: int| added[i].0)
}

/// The counts with `count` for `source`: in the source's place where it has
/// one, at the end where it has none.
pub open spec fn with_source(added: Seq<(Seq<char>, nat)>, source: Seq<char>, count: nat) -> Seq<
    (Seq<char>, nat),
> {
    let k = crate::text::first_index(source_names(added), source);
    if 0 <= k < added.len() {
        added.update(k, (source, count))
    } else {
        added.push((source, count))
    }
}

/// The sum of the counts of the sources.
pub open spec fn sum_added(added: Seq<(Seq<char>, nat)>) -> nat
    decreases added.len(),
{
    if added.len() == 0 {
        0
    } else {
        sum_added(added.drop_last()) + added.last().1
    }
}

/// The label of a source's row, and the spaces that bring it to 22 bytes
/// where it is shorter.
pub open spec fn source_label(name: Seq<char>) -> Seq<char> {
    let label = name + " files: "@;
    label + repeated(seq![' '], 22 - vstd::utf8::encode_utf8(label).len())
}

/// The rows of the sources.
pub open spec fn source_rows(added: Seq<(Seq<char>, nat)>) -> Seq<char>
    decreases added.len(),
{
    if added.len() == 0 {
        Seq::empty()
    } else {
        source_rows(added.drop_last()) + "    "@ + source_label(added.last().0) + decimal(
            added.last().1,
        ) + "\n"@
    }
}

/// The summary of a run.
pub open spec fn summary(s: Stats) -> Seq<char> {
    "=============== Summary ===============\n    extra file conflicts: "@ + decimal(
        s.extra_conflict,
    ) + "\n    files ignored:        "@ + decimal(s.ignored) + "\n    files replaced:       "@
        + decimal(s.replaced) + "\n    diffs applied/found:  "@ + decimal(s.patch_applied) + "/"@
        + decimal(s.patch_found)
        + "\n    =============================\n    extra files:          "@ + decimal(s.extra)
        + "\n"@ + source_rows(s.added) + "    total files:          "@ + decimal(
        s.extra + sum_added(s.added),
    ) + "\n\n"@ + "======================================="@
}

struct SourceCount {
    source: String,
    count: usize,
}

/// The statistics of a selection run.
pub struct PickStatistics {
    /// Total number of files added from each source
    added: Vec<SourceCount>,
    /// Number of extra files added
    extra: usize,
    /// Number of extra file conflicts
    extra_conflict: usize,
    /// Total number of files ignored
    ignored: usize,
    /// Total number of files replaced
    replaced: usize,
    /// Total number of patches applied
    patch_applied: usize,
    /// Total number of patches found
    patch_found: usize,
}

impl View for PickStatistics {
    type V = Stats;

    closed spec fn view(&self) -> Stats {
        Stats {
            added: Seq::new(
                self.added@.len(),
                |i: int| (self.added@[i].source@, self.added@[i].count as nat),
            ),
            extra: self.extra as nat,
            extra_conflict: self.extra_conflict as nat,
            ignored: self.ignored as nat,
            replaced: self.replaced as nat,
            patch_applied: self.patch_applied as nat,
            patch_found: self.patch_found as nat,
        }
    }
}

fn add_capped(n: usize, by: usize) -> (r: usize)
    ensures
        r == bump(n as nat, by as nat),
{
    if by <= usize::MAX - n {
        n + by
    } else {
        usize::MAX
    }
}

impl Default for PickStatistics {
    fn default() -> (r: PickStatistics)
        ensures
            r@ == zero_stats(),
    {
        let r = PickStatistics {
            added: Vec::new(),
            extra: 0,
            extra_conflict: 0,
            ignored: 0,
            replaced: 0,
            patch_applied: 0,
            patch_found: 0,
        };
        assert(r@.added =~= Seq::empty());
        r
    }
}

impl PickStatistics {
    /// Every count is one that a counter holds.
    pub proof fn lemma_counts_fit(&self)
        ensures
            self@.extra <= usize::MAX,
            self@.extra_conflict <= usize::MAX,
            self@.ignored <= usize::MAX,
            self@.replaced <= usize::MAX,
            self@.patch_applied <= usize::MAX,
            self@.patch_found <= usize::MAX,
    {
    }

    /// Number of extra files added
    pub fn extra(&self) -> (r: usize)
        ensures
            r == self@.extra,
    {
        self.extra
    }

    /// Number of extra file conflicts
    pub fn extra_conflict(&self) -> (r: usize)
        ensures
            r == self@.extra_conflict,
    {
        self.extra_conflict
    }

    /// Total number of files ignored
    pub fn ignored(&self) -> (r: usize)
        ensures
            r == self@.ignored,
    {
        self.ignored
    }

    /// Total number of files replaced
    pub fn replaced(&self) -> (r: usize)
        ensures
            r == self@.replaced,
    {
        self.replaced
    }

    /// Total number of patches applied
    pub fn patch_applied(&self) -> (r: usize)
        ensures
            r == self@.patch_applied,
    {
        self.patch_applied
    }

    /// Total number of patches found
    pub fn patch_found(&self) -> (r: usize)
        ensures
            r == self@.patch_found,
    {
        self.patch_found
    }

    /// The number of files added from a source, if the source has a count.
    pub fn added(&self, source: &str) -> (r: Option<usize>)
        ensures
            match r {
                Some(n) => {
                    let k = crate::text::first_index(source_names(self@.added), source@);
                    0 <= k < self@.added.len() && self@.added[k].1 == n
                },
                None => !source_names(self@.added).contains(source@),
            },
    {
        let ghost names = source_names(self@.added);
        let mut i: usize = 0;
        while i < self.added.len()
            invariant
                i <= self.added.len(),
                names == source_names(self@.added),
                forall|j: int| 0 <= j < i ==> names[j] != source@,
            decreases self.added.len() - i,
        {
            if same_text(self.added[i].source.as_str(), source) {
                proof {
                    assert(names[i as int] == source@);
                    crate::text::lemma_first_index_is(names, source@, i as int);
                }
                return Some(self.added[i].count);
            }
            i += 1;
        }
        None
    }

    /// Counts a file that an ignore rule matched.
    pub fn count_ignored(&mut self)
        ensures
            final(self)@ == (Stats { ignored: bump(old(self)@.ignored, 1), ..old(self)@ }),
    {
        self.ignored = add_capped(self.ignored, 1);
    }

    /// Counts a file whose place in the manifest was taken.
    pub fn count_conflict(&mut self)
        ensures
            final(self)@ == (Stats {
                extra_conflict: bump(old(self)@.extra_conflict, 1),
                ..old(self)@
            }),
    {
        self.extra_conflict = add_capped(self.extra_conflict, 1);
    }

    /// Counts a patch that was applied.
    pub fn count_patch_applied(&mut self)
        ensures
            final(self)@ == (Stats {
                patch_applied: bump(old(self)@.patch_applied, 1),
                ..old(self)@
            }),
    {
        self.patch_applied = add_capped(self.patch_applied, 1);
    }

    /// Counts patch targets that were registered.
    pub fn count_patches_found(&mut self, found: usize)
        ensures
            final(self)@ == (Stats {
                patch_found: bump(old(self)@.patch_found, found as nat),
                ..old(self)@
            }),
    {
        self.patch_found = add_capped(self.patch_found, found);
    }

    /// Records the number of files added from a source, in place of an
    /// earlier number for that source.
    pub fn set_added(&mut self, source: &str, count: usize)
        ensures
            final(self)@ == (Stats {
                added: with_source(old(self)@.added, source@, count as nat),
                ..old(self)@
            }),
    {
        let ghost names = source_names(self@.added);
        let mut i: usize = 0;
        while i < self.added.len()
            invariant
                i <= self.added.len(),
                *self == *old(self),
                names == source_names(self@.added),
                forall|j: int| 0 <= j < i ==> names[j] != source@,
            decreases self.added.len() - i,
        {
            if same_text(self.added[i].source.as_str(), source) {
                proof {
                    assert(names[i as int] == source@);
                    crate::text::lemma_first_index_is(names, source@, i as int);
                }
                let ghost before = self@.added;
                self.added[i] = SourceCount { source: source.to_owned(), count };
                assert(self@.added =~= before.update(i as int, (source@, count as nat)));
                return ;
            }
            i += 1;
        }
        proof {
            crate::text::lemma_first_index_is(names, source@, i as int);
        }
        let ghost before = self@.added;
        self.added.push(SourceCount { source: source.to_owned(), count });
        assert(self@.added =~= before.push((source@, count as nat)));
    }

    /// Returns a pretty status summary string
    pub fn make_string(&self) -> (r: String)
        ensures
            r@ == summary(self@),
    {
        let mut out = String::new();
        out.append("=============== Summary ===============\n    extra file conflicts: ");
        push_decimal(&mut out, self.extra_conflict as u128);
        out.append("\n    files ignored:        ");
        push_decimal(&mut out, self.ignored as u128);
        out.append("\n    files replaced:       ");
        push_decimal(&mut out, self.replaced as u128);
        out.append("\n    diffs applied/found:  ");
        push_decimal(&mut out, self.patch_applied as u128);
        out.append("/");
        push_decimal(&mut out, self.patch_found as u128);
        out.append("\n    =============================\n    extra files:          ");
        push_decimal(&mut out, self.extra as u128);
        out.append("\n");
        let ghost head = out@;
        let mut sum: u128 = self.extra as u128;
        let mut i: usize = 0;
        assert(self@.added.take(0) == Seq::<(Seq<char>, nat)>::empty());
        while i < self.added.len()
            invariant
                i <= self.added.len(),
                out@ == head + source_rows(self@.added.take(i as int)),
                sum == self.extra + sum_added(self@.added.take(i as int)),
                sum <= (i + 1) * usize::MAX,
            decreases self.added.len() - i,
        {
            let entry = &self.added[i];
            let ghost upto = self@.added.take(i + 1);
            proof {
                assert(upto.drop_last() == self@.added.take(i as int));
                assert(upto.last() == (entry.source@, entry.count as nat));
                reveal_strlit(" ");
            }
            let mut label = String::new();
            label.append(entry.source.as_str());
            label.append(" files: ");
            let width = label.as_str().as_bytes().len();
            let pad: usize = if width < 22 {
                22 - width
            } else {
                0
            };
            assert(" "@ =~= seq![' ']);
            assert(repeated(seq![' '], pad as int) == repeated(seq![' '], 22 - width));
            push_repeated(&mut label, " ", pad);
            out.append("    ");
            out.append(label.as_str());
            push_decimal(&mut out, entry.count as u128);
            out.append("\n");
            proof {
                assert((i + 1) * usize::MAX + usize::MAX == (i + 2) * usize::MAX)
                    by (nonlinear_arith);
                assert((i + 2) * usize::MAX <= 0xffff_ffff_ffff_ffff_ffff_ffff_ffff_ffff)
                    by (nonlinear_arith)
                    requires
                        i + 2 <= 0x1_0000_0000_0000_0001,
                        usize::MAX <= 0xffff_ffff_ffff_ffff,
                ;
            }
            sum = sum + entry.count as u128;
            i += 1;
        }
        assert(self@.added.take(self.added.len() as int) == self@.added);
        out.append("    total files:          ");
        push_decimal(&mut out, sum);
        out.append("\n\n");
        out.append("=======================================");
        out
    }

    /// Did we find as many, fewer, or more patches than we applied?
    pub fn compare_patch_found_applied(&self) -> (r: Ordering)
        ensures
            match r {
                Ordering::Less => self@.patch_found < self@.patch_applied,
                Ordering::Equal => self@.patch_found == self@.patch_applied,
                Ordering::Greater => self@.patch_found > self@.patch_applied,
            },
    {
        if self.patch_found < self.patch_applied {
            Ordering::Less
        } else if self.patch_found == self.patch_applied {
            Ordering::Equal
        } else {
            Ordering::Greater
        }
    }
}

} // verus!

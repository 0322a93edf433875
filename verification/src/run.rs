//! A selection run as a whole: what the files of a source leave in the
//! manifest and in the counts, and what holds of every run.

use crate::ignore::{ignored, logical_path, no_weaker};
use crate::manifest::{
    has_path, lemma_inserted, lemma_paths_len, new_line, paths, sorted, ManifestLine,
};
use crate::patch::{has_target, injective, target_paths, PatchTarget};
use crate::select::{decide, manifest_key, stored, Action, PickState};
use crate::stats::bump;
use vstd::prelude::*;

verus! {

/// A file of a source as a run meets it: its path within the source, and what
/// it holds in the content tree once it is copied and patched.
pub struct RunFile {
    pub path: Seq<char>,
    pub content: Seq<u8>,
}

/// The state after one file: the decision, and the line in the manifest where
/// the file is copied.
pub open spec fn select_file(
    state: PickState,
    patterns: Seq<Seq<char>>,
    diffs: Seq<PatchTarget>,
    source: Seq<char>,
    file: RunFile,
) -> PickState {
    let (next, action) = decide(state, patterns, diffs, source, file.path);
    match action {
        Action::Copy { .. } => stored(next, diffs, source, file.path, file.content),
        _ => next,
    }
}

/// The state after the files of a source, taken in order.
pub open spec fn select_all(
    state: PickState,
    patterns: Seq<Seq<char>>,
    diffs: Seq<PatchTarget>,
    source: Seq<char>,
    files: Seq<RunFile>,
) -> PickState
    decreases files.len(),
{
    if files.len() == 0 {
        state
    } else {
        select_file(
            select_all(state, patterns, diffs, source, files.drop_last()),
            patterns,
            diffs,
            source,
            files.last(),
        )
    }
}

/// After a file the manifest is still sorted, and it holds the paths that it
/// held and, unless the file is ignored, the file's.
pub proof fn lemma_select_file_paths(
    state: PickState,
    patterns: Seq<Seq<char>>,
    diffs: Seq<PatchTarget>,
    source: Seq<char>,
    file: RunFile,
)
    requires
        sorted(state.manifest),
    ensures
        sorted(select_file(state, patterns, diffs, source, file).manifest),
        forall|p: Seq<char>|
            has_path(select_file(state, patterns, diffs, source, file).manifest, p) <==> has_path(
                state.manifest,
                p,
            ) || (p == manifest_key(source, file.path) && !ignored(
                patterns,
                logical_path(source, file.path),
            )),
{
    let key = manifest_key(source, file.path);
    if !ignored(patterns, logical_path(source, file.path)) && !has_path(state.manifest, key) {
        lemma_inserted(state.manifest, new_line(key, Some(file.content)));
    }
}

/// After the files of a source the manifest is still sorted, and every path
/// that it held is still there.
pub proof fn lemma_select_all_sorted(
    state: PickState,
    patterns: Seq<Seq<char>>,
    diffs: Seq<PatchTarget>,
    source: Seq<char>,
    files: Seq<RunFile>,
)
    requires
        sorted(state.manifest),
    ensures
        sorted(select_all(state, patterns, diffs, source, files).manifest),
        forall|p: Seq<char>|
            has_path(state.manifest, p) ==> has_path(
                select_all(state, patterns, diffs, source, files).manifest,
                p,
            ),
    decreases files.len(),
{
    if files.len() > 0 {
        let before = select_all(state, patterns, diffs, source, files.drop_last());
        lemma_select_all_sorted(state, patterns, diffs, source, files.drop_last());
        lemma_select_file_paths(before, patterns, diffs, source, files.last());
    }
}

/// After a file the count of ignored files is one more where a rule ignores
/// the file, and as it was where none does.
pub proof fn lemma_select_file_ignored(
    state: PickState,
    patterns: Seq<Seq<char>>,
    diffs: Seq<PatchTarget>,
    source: Seq<char>,
    file: RunFile,
)
    ensures
        select_file(state, patterns, diffs, source, file).stats.ignored == (if ignored(
            patterns,
            logical_path(source, file.path),
        ) {
            bump(state.stats.ignored, 1)
        } else {
            state.stats.ignored
        }),
{
}

/// Ignore monotonicity. Of two runs over the same files from the same state,
/// the one whose rules ignore no less leaves no path in the manifest that the
/// other does not leave there, so its manifest is no longer; and it counts no
/// fewer ignored files. With `lemma_pattern_added`, `lemma_global_line_added`
/// and `lemma_local_line_added` this holds of one more rule, wherever it is
/// added.
pub proof fn lemma_ignore_monotone(
    state: PickState,
    fewer: Seq<Seq<char>>,
    more: Seq<Seq<char>>,
    diffs: Seq<PatchTarget>,
    source: Seq<char>,
    files: Seq<RunFile>,
)
    requires
        sorted(state.manifest),
        state.stats.ignored <= usize::MAX,
        no_weaker(fewer, more),
    ensures
        select_all(state, more, diffs, source, files).stats.ignored <= usize::MAX,
        forall|p: Seq<char>|
            has_path(select_all(state, more, diffs, source, files).manifest, p) ==> has_path(
                select_all(state, fewer, diffs, source, files).manifest,
                p,
            ),
        select_all(state, more, diffs, source, files).manifest.len() <= select_all(
            state,
            fewer,
            diffs,
            source,
            files,
        ).manifest.len(),
        select_all(state, more, diffs, source, files).stats.ignored >= select_all(
            state,
            fewer,
            diffs,
            source,
            files,
        ).stats.ignored,
    decreases files.len(),
{
    let a = select_all(state, fewer, diffs, source, files).manifest;
    let b = select_all(state, more, diffs, source, files).manifest;
    lemma_select_all_sorted(state, fewer, diffs, source, files);
    lemma_select_all_sorted(state, more, diffs, source, files);
    if files.len() > 0 {
        let front = files.drop_last();
        let a0 = select_all(state, fewer, diffs, source, front);
        let b0 = select_all(state, more, diffs, source, front);
        lemma_ignore_monotone(state, fewer, more, diffs, source, front);
        lemma_select_all_sorted(state, fewer, diffs, source, front);
        lemma_select_all_sorted(state, more, diffs, source, front);
        lemma_select_file_paths(a0, fewer, diffs, source, files.last());
        lemma_select_file_paths(b0, more, diffs, source, files.last());
        lemma_select_file_ignored(a0, fewer, diffs, source, files.last());
        lemma_select_file_ignored(b0, more, diffs, source, files.last());
        let logical = logical_path(source, files.last().path);
        assert(ignored(fewer, logical) ==> ignored(more, logical));
        assert(a0.stats.ignored <= b0.stats.ignored <= usize::MAX);
        assert forall|p: Seq<char>| has_path(b, p) implies has_path(a, p) by {
            if has_path(b0.manifest, p) {
                assert(has_path(a0.manifest, p));
            }
        }
    }
    lemma_paths_len(a);
    lemma_paths_len(b);
    assert(paths(b).subset_of(paths(a)));
    vstd::set_lib::lemma_len_subset(paths(b), paths(a));
}

/// Whether the patch for the logical path `target` was applied since the
/// manifest was `start`: the file at that path is in the manifest now and was
/// not then.
pub open spec fn was_applied(target: Seq<char>, start: Seq<ManifestLine>, now: Seq<ManifestLine>) -> bool {
    &&& target.len() > 0
    &&& target[0] == '/'
    &&& has_path(now, target.drop_first())
    &&& !has_path(start, target.drop_first())
}

/// The number of patches that were applied since the manifest was `start`.
pub open spec fn applied_count(
    diffs: Seq<PatchTarget>,
    start: Seq<ManifestLine>,
    now: Seq<ManifestLine>,
) -> nat
    decreases diffs.len(),
{
    if diffs.len() == 0 {
        0
    } else {
        applied_count(diffs.drop_last(), start, now) + if was_applied(
            diffs.last().path,
            start,
            now,
        ) {
            1nat
        } else {
            0nat
        }
    }
}

proof fn lemma_logical_key(source: Seq<char>, relative: Seq<char>)
    ensures
        logical_path(source, relative).len() > 0,
        logical_path(source, relative)[0] == '/',
        logical_path(source, relative).drop_first() == manifest_key(source, relative),
{
    assert(logical_path(source, relative).drop_first() =~= manifest_key(source, relative));
}

/// A path is decided by its first character and the rest.
proof fn lemma_drop_first_eq(a: Seq<char>, b: Seq<char>)
    requires
        a.len() > 0,
        b.len() > 0,
        a[0] == b[0],
        a.drop_first() == b.drop_first(),
    ensures
        a == b,
{
    assert(a =~= seq![a[0]] + a.drop_first());
    assert(b =~= seq![b[0]] + b.drop_first());
}

/// The count does not change while the manifest holds the same paths.
proof fn lemma_count_same(
    diffs: Seq<PatchTarget>,
    start: Seq<ManifestLine>,
    a: Seq<ManifestLine>,
    b: Seq<ManifestLine>,
)
    requires
        forall|p: Seq<char>| has_path(a, p) <==> has_path(b, p),
    ensures
        applied_count(diffs, start, a) == applied_count(diffs, start, b),
    decreases diffs.len(),
{
    if diffs.len() > 0 {
        lemma_count_same(diffs.drop_last(), start, a, b);
    }
}

/// One more file in the manifest is one more applied patch where the file
/// has a patch, and none where it has not.
proof fn lemma_count_step(
    diffs: Seq<PatchTarget>,
    start: Seq<ManifestLine>,
    before: Seq<ManifestLine>,
    after: Seq<ManifestLine>,
    logical: Seq<char>,
)
    requires
        injective(diffs),
        logical.len() > 0,
        logical[0] == '/',
        !has_path(before, logical.drop_first()),
        forall|p: Seq<char>| has_path(start, p) ==> has_path(before, p),
        forall|p: Seq<char>| has_path(after, p) <==> has_path(before, p) || p == logical.drop_first(),
    ensures
        applied_count(diffs, start, after) == applied_count(diffs, start, before) + if has_target(
            diffs,
            logical,
        ) {
            1nat
        } else {
            0nat
        },
    decreases diffs.len(),
{
    if diffs.len() > 0 {
        let front = diffs.drop_last();
        let last = diffs.last();
        assert forall|i: int, j: int| 0 <= i < j < front.len() implies front[i].path
            != front[j].path by {
            assert(front[i] == diffs[i] && front[j] == diffs[j]);
        }
        lemma_count_step(front, start, before, after, logical);
        if has_target(front, logical) {
            let k = choose|k: int|
                0 <= k < target_paths(front).len() && target_paths(front)[k] == logical;
            assert(diffs[k].path == logical);
            assert(target_paths(diffs)[k] == logical);
            assert(last.path != logical);
        }
        if last.path == logical {
            assert(target_paths(diffs)[diffs.len() - 1] == logical);
        } else {
            if has_target(diffs, logical) {
                let k = choose|k: int|
                    0 <= k < target_paths(diffs).len() && target_paths(diffs)[k] == logical;
                assert(target_paths(front)[k] == logical);
            }
            if last.path.len() > 0 && last.path[0] == '/' && last.path.drop_first()
                == logical.drop_first() {
                lemma_drop_first_eq(last.path, logical);
            }
        }
    } else {
        assert(!has_target(diffs, logical));
    }
}

/// No more patches are applied than there are patches.
proof fn lemma_count_bound(diffs: Seq<PatchTarget>, start: Seq<ManifestLine>, now: Seq<ManifestLine>)
    ensures
        applied_count(diffs, start, now) <= diffs.len(),
        (forall|k: int| 0 <= k < diffs.len() ==> was_applied((#[trigger] diffs[k]).path, start, now))
            ==> applied_count(diffs, start, now) == diffs.len(),
    decreases diffs.len(),
{
    if diffs.len() > 0 {
        let front = diffs.drop_last();
        lemma_count_bound(front, start, now);
        if forall|k: int| 0 <= k < diffs.len() ==> was_applied((#[trigger] diffs[k]).path, start, now) {
            assert forall|k: int| 0 <= k < front.len() implies was_applied(
                (#[trigger] front[k]).path,
                start,
                now,
            ) by {
                assert(front[k] == diffs[k]);
            }
            assert(diffs.last() == diffs[diffs.len() - 1]);
        }
    }
}

/// A run counts the patches that it applies, and nothing else changes the
/// count of applied patches or that of found ones.
proof fn lemma_select_all_applied(
    state: PickState,
    patterns: Seq<Seq<char>>,
    diffs: Seq<PatchTarget>,
    source: Seq<char>,
    files: Seq<RunFile>,
)
    requires
        sorted(state.manifest),
        injective(diffs),
        state.stats.patch_applied + files.len() <= usize::MAX,
    ensures
        select_all(state, patterns, diffs, source, files).stats.patch_applied
            == state.stats.patch_applied + applied_count(
            diffs,
            state.manifest,
            select_all(state, patterns, diffs, source, files).manifest,
        ),
        applied_count(
            diffs,
            state.manifest,
            select_all(state, patterns, diffs, source, files).manifest,
        ) <= files.len(),
        select_all(state, patterns, diffs, source, files).stats.patch_found
            == state.stats.patch_found,
    decreases files.len(),
{
    if files.len() == 0 {
        lemma_count_none(diffs, state.manifest);
    } else {
        let front = files.drop_last();
        let file = files.last();
        let before = select_all(state, patterns, diffs, source, front);
        let after = select_file(before, patterns, diffs, source, file);
        lemma_select_all_applied(state, patterns, diffs, source, front);
        lemma_select_all_sorted(state, patterns, diffs, source, front);
        lemma_select_file_paths(before, patterns, diffs, source, file);
        let logical = logical_path(source, file.path);
        let key = manifest_key(source, file.path);
        lemma_logical_key(source, file.path);
        if !ignored(patterns, logical) && !has_path(before.manifest, key) {
            lemma_count_step(diffs, state.manifest, before.manifest, after.manifest, logical);
        } else {
            lemma_count_same(diffs, state.manifest, before.manifest, after.manifest);
        }
    }
}

/// Nothing is applied while the manifest is as it was.
proof fn lemma_count_none(diffs: Seq<PatchTarget>, start: Seq<ManifestLine>)
    ensures
        applied_count(diffs, start, start) == 0,
    decreases diffs.len(),
{
    if diffs.len() > 0 {
        lemma_count_none(diffs.drop_last(), start);
    }
}

/// A file that is not ignored is in the manifest after the run.
proof fn lemma_file_is_selected(
    state: PickState,
    patterns: Seq<Seq<char>>,
    diffs: Seq<PatchTarget>,
    source: Seq<char>,
    files: Seq<RunFile>,
    i: int,
)
    requires
        sorted(state.manifest),
        0 <= i < files.len(),
        !ignored(patterns, logical_path(source, files[i].path)),
    ensures
        has_path(
            select_all(state, patterns, diffs, source, files).manifest,
            manifest_key(source, files[i].path),
        ),
    decreases files.len(),
{
    let front = files.drop_last();
    let before = select_all(state, patterns, diffs, source, front);
    lemma_select_all_sorted(state, patterns, diffs, source, front);
    lemma_select_file_paths(before, patterns, diffs, source, files.last());
    if i < files.len() - 1 {
        assert(front[i] == files[i]);
        lemma_file_is_selected(state, patterns, diffs, source, front, i);
    }
}

/// No patch is applied twice: a run applies no more patches than the source
/// has, so the count of applied patches never passes that of found ones.
pub proof fn lemma_applied_at_most_found(
    state: PickState,
    patterns: Seq<Seq<char>>,
    diffs: Seq<PatchTarget>,
    source: Seq<char>,
    files: Seq<RunFile>,
)
    requires
        sorted(state.manifest),
        injective(diffs),
        state.stats.patch_applied + files.len() <= usize::MAX,
        state.stats.patch_found >= state.stats.patch_applied + diffs.len(),
    ensures
        select_all(state, patterns, diffs, source, files).stats.patch_applied
            <= state.stats.patch_applied + diffs.len(),
        select_all(state, patterns, diffs, source, files).stats.patch_applied <= select_all(
            state,
            patterns,
            diffs,
            source,
            files,
        ).stats.patch_found,
{
    lemma_select_all_applied(state, patterns, diffs, source, files);
    lemma_count_bound(
        diffs,
        state.manifest,
        select_all(state, patterns, diffs, source, files).manifest,
    );
}

/// Whether `file` takes the patch for the logical path `target`: that is its
/// logical path, no rule ignores it, and its place in the manifest is free.
pub open spec fn takes_patch(
    file: RunFile,
    target: Seq<char>,
    manifest: Seq<ManifestLine>,
    patterns: Seq<Seq<char>>,
    source: Seq<char>,
) -> bool {
    &&& logical_path(source, file.path) == target
    &&& !ignored(patterns, target)
    &&& !has_path(manifest, manifest_key(source, file.path))
}

/// Whether one of the files takes the patch for `target`.
pub open spec fn patch_has_file(
    target: Seq<char>,
    files: Seq<RunFile>,
    manifest: Seq<ManifestLine>,
    patterns: Seq<Seq<char>>,
    source: Seq<char>,
) -> bool {
    exists|i: int|
        0 <= i < files.len() && takes_patch(#[trigger] files[i], target, manifest, patterns, source)
}

/// Whether the source holds the target of every patch: for each patch, one of
/// the files takes it.
pub open spec fn every_patch_has_file(
    diffs: Seq<PatchTarget>,
    files: Seq<RunFile>,
    manifest: Seq<ManifestLine>,
    patterns: Seq<Seq<char>>,
    source: Seq<char>,
) -> bool {
    forall|k: int|
        0 <= k < diffs.len() ==> patch_has_file(
            (#[trigger] diffs[k]).path,
            files,
            manifest,
            patterns,
            source,
        )
}

/// Patch accounting. Take a source whose patches were found and counted, the
/// counts of found and of applied patches having been equal before. If the
/// source holds the target of every patch, then after the run as many patches
/// were applied as were found. The count of applied patches must be far
/// enough from the largest that a counter holds.
pub proof fn lemma_patch_accounting(
    state: PickState,
    patterns: Seq<Seq<char>>,
    diffs: Seq<PatchTarget>,
    source: Seq<char>,
    files: Seq<RunFile>,
)
    requires
        sorted(state.manifest),
        injective(diffs),
        state.stats.patch_applied + files.len() <= usize::MAX,
        state.stats.patch_found == state.stats.patch_applied + diffs.len(),
        every_patch_has_file(diffs, files, state.manifest, patterns, source),
    ensures
        select_all(state, patterns, diffs, source, files).stats.patch_applied
            == state.stats.patch_applied + diffs.len(),
        select_all(state, patterns, diffs, source, files).stats.patch_found == select_all(
            state,
            patterns,
            diffs,
            source,
            files,
        ).stats.patch_applied,
{
    let end = select_all(state, patterns, diffs, source, files);
    lemma_select_all_applied(state, patterns, diffs, source, files);
    assert forall|k: int| 0 <= k < diffs.len() implies was_applied(
        (#[trigger] diffs[k]).path,
        state.manifest,
        end.manifest,
    ) by {
        let target = diffs[k].path;
        assert(patch_has_file(target, files, state.manifest, patterns, source));
        let i = choose|i: int|
            0 <= i < files.len() && takes_patch(
                #[trigger] files[i],
                target,
                state.manifest,
                patterns,
                source,
            );
        lemma_logical_key(source, files[i].path);
        lemma_file_is_selected(state, patterns, diffs, source, files, i);
    }
    lemma_count_bound(diffs, state.manifest, end.manifest);
}

} // verus!

//! Selection: which files of the inputs go into the content tree, and what
//! the tree's manifest, search file and bundle digest are.

use crate::config::BundleSpec;
use crate::digest::{hex, sha256, FileDigest};
use crate::error::BuildError;
use crate::ignore::{ignored, logical_path, source_patterns, IgnoreFilter};
use crate::manifest::{
    emit_digest, filelist_text, has_path, inserted, lemma_inserted, new_line, sorted, Manifest,
    ManifestLine,
};
use crate::patch::{file_for, has_target, DiffLoad, PatchRegistry, PatchTarget};
use crate::search::{resolve_search, search_file, search_paths, search_text};
use crate::stats::{bump, zero_stats, PickStatistics, Stats};
use crate::text::{trim, trim_str, views};
use vstd::prelude::*;
use vstd::string::*;

verus! {

/// What a picker holds, as plain values: the manifest so far and the counts.
pub struct PickState {
    pub manifest: Seq<ManifestLine>,
    pub stats: Stats,
}

/// What is to be done with a file of a source.
pub enum Action {
    /// An ignore rule matches its logical path.
    Ignore,
    /// Its place in the content tree is taken.
    Conflict,
    /// It is copied to `target`, a path below the content root, and then
    /// changed by the patch file `patch` if there is one.
    Copy { target: Seq<char>, patch: Option<Seq<char>> },
}

/// What is to be done with a file of a source.
pub enum FileAction {
    /// An ignore rule matches its logical path: it is left out.
    Ignore,
    /// Its place in the content tree is taken: it is left out.
    Conflict,
    /// It is copied to `target`, a path below the content root, and then
    /// changed by the patch file `patch` if there is one.
    Copy { target: String, patch: Option<String> },
}

impl View for FileAction {
    type V = Action;

    open spec fn view(&self) -> Action {
        match self {
            FileAction::Ignore => Action::Ignore,
            FileAction::Conflict => Action::Conflict,
            FileAction::Copy { target, patch } => Action::Copy {
                target: target@,
                patch: match patch {
                    Some(p) => Some(p@),
                    None => None,
                },
            },
        }
    }
}

impl FileAction {
    /// What is to be warned of: a collision, where the file's place is taken.
    pub fn warning(&self) -> (r: Option<BuildError>)
        ensures
            r == (if self@ is Conflict {
                Some(BuildError::ManifestCollision)
            } else {
                None
            }),
    {
        match self {
            FileAction::Conflict => Some(BuildError::ManifestCollision),
            _ => None,
        }
    }
}

/// A file's path below the content root: the source's name, a slash, and the
/// file's path within the source.
pub open spec fn manifest_key(source: Seq<char>, relative: Seq<char>) -> Seq<char> {
    source + seq!['/'] + relative
}

/// What is decided of a file, and the counts after the decision. A file whose
/// logical path an ignore rule matches is ignored; one whose place is taken is
/// a conflict; any other is copied, and patched where the registry has a
/// patch for its logical path.
pub open spec fn decide(
    state: PickState,
    patterns: Seq<Seq<char>>,
    diffs: Seq<PatchTarget>,
    source: Seq<char>,
    relative: Seq<char>,
) -> (PickState, Action) {
    let logical = logical_path(source, relative);
    let key = manifest_key(source, relative);
    if ignored(patterns, logical) {
        (
            PickState {
                stats: Stats { ignored: bump(state.stats.ignored, 1), ..state.stats },
                ..state
            },
            Action::Ignore,
        )
    } else if has_path(state.manifest, key) {
        (
            PickState {
                stats: Stats {
                    extra_conflict: bump(state.stats.extra_conflict, 1),
                    ..state.stats
                },
                ..state
            },
            Action::Conflict,
        )
    } else {
        (state, Action::Copy { target: key, patch: file_for(diffs, logical) })
    }
}

/// The state after a file was copied, and patched where it has a patch: the
/// manifest has a line for it with the digest of `content`, what the file
/// holds in the content tree, and a patch that was applied is counted.
/// Nothing changes where the file's place is taken.
pub open spec fn stored(
    state: PickState,
    diffs: Seq<PatchTarget>,
    source: Seq<char>,
    relative: Seq<char>,
    content: Seq<u8>,
) -> PickState {
    let key = manifest_key(source, relative);
    if has_path(state.manifest, key) {
        state
    } else {
        PickState {
            manifest: inserted(state.manifest, new_line(key, Some(content))),
            stats: if has_target(diffs, logical_path(source, relative)) {
                Stats { patch_applied: bump(state.stats.patch_applied, 1), ..state.stats }
            } else {
                state.stats
            },
        }
    }
}

/// Every file of the manifest lies below a source and has a digest.
pub open spec fn from_sources(lines: Seq<ManifestLine>) -> bool {
    forall|i: int|
        0 <= i < lines.len() ==> (#[trigger] lines[i]).path.contains('/') && lines[i].hash is Some
}

/// The manifest with the three files that every content tree has: the search
/// file with its digest, and the bundle digest and the manifest itself
/// without one.
pub open spec fn with_meta_files(lines: Seq<ManifestLine>, search: Seq<u8>) -> Seq<ManifestLine> {
    inserted(
        inserted(
            inserted(lines, new_line("SEARCH"@, Some(search))),
            new_line("SHA256SUM"@, None),
        ),
        new_line("FILELIST"@, None),
    )
}

/// The manifest of a finished selection is sorted and holds the files of the
/// sources and the three files that every content tree has. Of all of them
/// only the bundle digest and the manifest itself have no digest.
pub proof fn lemma_meta_files(lines: Seq<ManifestLine>, search: Seq<u8>)
    requires
        sorted(lines),
        from_sources(lines),
    ensures
        sorted(with_meta_files(lines, search)),
        with_meta_files(lines, search).len() == lines.len() + 3,
        !has_path(lines, "SEARCH"@),
        !has_path(inserted(lines, new_line("SEARCH"@, Some(search))), "SHA256SUM"@),
        !has_path(
            inserted(
                inserted(lines, new_line("SEARCH"@, Some(search))),
                new_line("SHA256SUM"@, None),
            ),
            "FILELIST"@,
        ),
        forall|x: ManifestLine|
            with_meta_files(lines, search).contains(x) <==> lines.contains(x) || x == new_line(
                "SEARCH"@,
                Some(search),
            ) || x == new_line("SHA256SUM"@, None) || x == new_line("FILELIST"@, None),
        forall|i: int|
            0 <= i < with_meta_files(lines, search).len() ==> ((#[trigger] with_meta_files(
                lines,
                search,
            )[i]).hash is None <==> with_meta_files(lines, search)[i].path == "SHA256SUM"@
                || with_meta_files(lines, search)[i].path == "FILELIST"@),
{
    reveal_strlit("SEARCH");
    reveal_strlit("SHA256SUM");
    reveal_strlit("FILELIST");
    let a = new_line("SEARCH"@, Some(search));
    let b = new_line("SHA256SUM"@, None);
    let c = new_line("FILELIST"@, None);
    assert forall|name: Seq<char>| !name.contains('/') implies !has_path(lines, name) by {
        if has_path(lines, name) {
            let i = choose|i: int| 0 <= i < lines.len() && lines[i].path == name;
            assert(lines[i].path.contains('/'));
        }
    }
    assert forall|name: Seq<char>|
        name == "SEARCH"@ || name == "SHA256SUM"@ || name == "FILELIST"@ implies !name.contains(
        '/',
    ) by {
        if name.contains('/') {
            let k = choose|k: int| 0 <= k < name.len() && name[k] == '/';
        }
    }
    assert("SHA256SUM"@[1] != "SEARCH"@[1]);
    assert("FILELIST"@[0] != "SEARCH"@[0]);
    assert("FILELIST"@[0] != "SHA256SUM"@[0]);
    assert(!"SEARCH"@.contains('/') && !"SHA256SUM"@.contains('/') && !"FILELIST"@.contains('/'));
    assert(!has_path(lines, "SEARCH"@));
    assert(!has_path(lines, "SHA256SUM"@));
    assert(!has_path(lines, "FILELIST"@));
    let m1 = inserted(lines, a);
    lemma_inserted(lines, a);
    assert(!has_path(m1, b.path));
    let m2 = inserted(m1, b);
    lemma_inserted(m1, b);
    assert(!has_path(m1, c.path));
    assert(!has_path(m2, c.path));
    let m3 = inserted(m2, c);
    lemma_inserted(m2, c);
    assert forall|x: ManifestLine|
        m3.contains(x) <==> lines.contains(x) || x == a || x == b || x == c by {
        assert(m3.contains(x) <==> m2.contains(x) || x == c);
        assert(m2.contains(x) <==> m1.contains(x) || x == b);
        assert(m1.contains(x) <==> lines.contains(x) || x == a);
    }
    assert forall|i: int| 0 <= i < m3.len() implies ((#[trigger] m3[i]).hash is None <==> m3[i].path
        == "SHA256SUM"@ || m3[i].path == "FILELIST"@) by {
        let x = m3[i];
        assert(m3.contains(x));
        if lines.contains(x) {
            let k = choose|k: int| 0 <= k < lines.len() && lines[k] == x;
            assert(lines[k].path.contains('/'));
        }
    }
}

/// The lines of an ignore list that may be missing.
pub open spec fn ignore_lines(list: Option<Vec<String>>) -> Seq<Seq<char>> {
    match list {
        Some(v) => views(v@),
        None => Seq::empty(),
    }
}

/// The patterns of the ignore rules for a source: those of the bundle's
/// ignore list, anchored as they are, and then those of the ignore list of
/// the first input of this name, below the input's name. A line that is
/// blank, or a comment, makes no pattern.
pub open spec fn source_rules(spec: BundleSpec, source: Seq<char>) -> Seq<Seq<char>> {
    source_patterns(
        ignore_lines(spec.bundle.ignore),
        source,
        ignore_lines(spec.inputs@[spec.input_index(source)].input.ignore),
    )
}

/// The work on one source: its name, its ignore filter, its patches, and the
/// number of its files that were added.
pub struct SourceRun {
    source: String,
    filter: IgnoreFilter,
    diffs: PatchRegistry,
    added: usize,
}

impl SourceRun {
    /// The source's name.
    pub closed spec fn name(&self) -> Seq<char> {
        self.source@
    }

    /// The patterns of the source's ignore rules.
    pub closed spec fn patterns(&self) -> Seq<Seq<char>> {
        self.filter@
    }

    /// The patches of the source.
    pub closed spec fn patches(&self) -> Seq<PatchTarget> {
        self.diffs@
    }

    /// The number of the source's files that were added.
    pub closed spec fn count(&self) -> nat {
        self.added as nat
    }

    /// The filter holds the expressions of its patterns, and no logical path
    /// has two patches.
    pub closed spec fn wf(&self) -> bool {
        self.filter.wf() && self.diffs.wf()
    }

    /// In a well-formed run no logical path has two patches.
    pub proof fn lemma_wf(&self)
        requires
            self.wf(),
        ensures
            crate::patch::injective(self.patches()),
    {
    }

    /// The source's name.
    pub fn source(&self) -> (r: &str)
        ensures
            r@ == self.name(),
    {
        self.source.as_str()
    }

    /// The number of the source's files that were added.
    pub fn added(&self) -> (r: usize)
        ensures
            r == self.count(),
    {
        self.added
    }
}

/// What a finished selection gives: the content tree's search file, manifest
/// and bundle digest, and the counts of the run.
pub struct Selection {
    /// The search paths, in order.
    pub search: Vec<String>,
    /// The text of the search file.
    pub search_text: String,
    /// The text of the manifest.
    pub filelist: String,
    /// The text of the bundle digest.
    pub sha256sum: String,
    /// The counts of the run.
    pub stats: PickStatistics,
}

/// Checks the bundle digest of a content tree, as its digest file spells it,
/// against the expected one: `DigestMismatch` where they differ. A mismatch
/// is to be warned of; it fails nothing.
pub fn check_digest(sha256sum: &str, expected: &str) -> (r: Result<(), BuildError>)
    ensures
        r == (if trim(sha256sum@) == expected@ {
            Ok::<(), BuildError>(())
        } else {
            Err::<(), BuildError>(BuildError::DigestMismatch)
        }),
{
    if crate::config::same_text(trim_str(sha256sum), expected) {
        Ok(())
    } else {
        Err(BuildError::DigestMismatch)
    }
}

/// The selector: it decides of each file of each input whether it goes into
/// the content tree, and keeps the manifest and the counts.
pub struct FilePicker {
    /// This file picker's statistics
    pub stats: PickStatistics,
    /// All files we've picked so far.
    filelist: Manifest,
    bundle_spec: BundleSpec,
}

impl View for FilePicker {
    type V = PickState;

    closed spec fn view(&self) -> PickState {
        PickState { manifest: self.filelist@, stats: self.stats@ }
    }
}

impl FilePicker {
    /// The bundle specification that the picker works for.
    pub closed spec fn spec(&self) -> BundleSpec {
        self.bundle_spec
    }

    /// The manifest is in path order, and every file of it lies below a source
    /// and has a digest.
    pub closed spec fn wf(&self) -> bool {
        self.filelist.wf() && from_sources(self.filelist@)
    }

    /// A well-formed picker has a sorted manifest of files from sources.
    pub proof fn lemma_wf(&self)
        requires
            self.wf(),
        ensures
            sorted(self@.manifest),
            from_sources(self@.manifest),
    {
        self.filelist.lemma_sorted();
    }

    /// Every count of the picker is one that a counter holds.
    pub proof fn lemma_counts_fit(&self)
        ensures
            self@.stats.extra_conflict <= usize::MAX,
            self@.stats.ignored <= usize::MAX,
            self@.stats.patch_applied <= usize::MAX,
            self@.stats.patch_found <= usize::MAX,
    {
        self.stats.lemma_counts_fit();
    }

    /// A picker for a bundle specification, with an empty manifest.
    pub fn new(bundle_spec: BundleSpec) -> (r: FilePicker)
        ensures
            r.wf(),
            r.spec() == bundle_spec,
            r@.manifest == Seq::<ManifestLine>::empty(),
            r@.stats == zero_stats(),
    {
        let stats = PickStatistics::default();
        FilePicker { stats, filelist: Manifest::new(), bundle_spec }
    }

    /// The number of files picked so far.
    pub fn len(&self) -> (r: usize)
        ensures
            r == self@.manifest.len(),
    {
        self.filelist.len()
    }

    /// Starts the work on a source: compiles its ignore rules, the bundle's
    /// and the input's own. Fails with `SpecInvalid` where the specification
    /// defines no input of this name, with `IgnorePatternInvalid` where a rule
    /// is not a regular expression.
    pub fn add_source(&self, source: &str) -> (r: Result<SourceRun, BuildError>)
        ensures
            match r {
                Ok(run) => {
                    &&& run.wf()
                    &&& run.name() == source@
                    &&& run.patterns() == source_rules(self.spec(), source@)
                    &&& run.patches() == Seq::<PatchTarget>::empty()
                    &&& run.count() == 0
                },
                Err(e) => e == (if self.spec().defines(source@) {
                    BuildError::IgnorePatternInvalid
                } else {
                    BuildError::SpecInvalid
                }),
            },
            r is Ok <==> self.spec().defines(source@) && crate::ignore::all_compile(
                source_rules(self.spec(), source@),
            ),
    {
        let at = match self.bundle_spec.find_input(source) {
            Some(k) => k,
            None => {
                return Err(BuildError::SpecInvalid);
            },
        };
        let none: Vec<String> = Vec::new();
        assert(views(none@) =~= Seq::<Seq<char>>::empty());
        let global = match &self.bundle_spec.bundle.ignore {
            Some(v) => v,
            None => &none,
        };
        let local = match &self.bundle_spec.inputs[at].input.ignore {
            Some(v) => v,
            None => &none,
        };
        match IgnoreFilter::compile(global, source, local) {
            Ok(filter) => Ok(
                SourceRun { source: source.to_owned(), filter, diffs: PatchRegistry::new(), added: 0 },
            ),
            Err(e) => Err(e),
        }
    }

    /// Registers a patch file of the source, given its path and its text, and
    /// counts the targets that it was registered for.
    pub fn load_diff(&mut self, run: &mut SourceRun, file: &str, text: &str) -> (r: Result<
        DiffLoad,
        BuildError,
    >)
        requires
            old(run).wf(),
        ensures
            final(run).wf(),
            final(run).name() == old(run).name(),
            final(run).patterns() == old(run).patterns(),
            final(run).count() == old(run).count(),
            final(self).wf() == old(self).wf(),
            final(self).spec() == old(self).spec(),
            final(self)@.manifest == old(self)@.manifest,
            match crate::expand::expand_spec(crate::patch::split_header(text@).0) {
                Ok(targets) => {
                    &&& r is Ok
                    &&& final(run).patches() == crate::patch::register(
                        old(run).patches(),
                        targets,
                        file@,
                    )
                    &&& r->Ok_0.found == final(run).patches().len() - old(run).patches().len()
                    &&& r->Ok_0.found + r->Ok_0.conflicts == targets.len()
                    &&& final(self)@.stats == (Stats {
                        patch_found: bump(old(self)@.stats.patch_found, r->Ok_0.found as nat),
                        ..old(self)@.stats
                    })
                },
                Err(_) => {
                    &&& r == Err::<DiffLoad, BuildError>(BuildError::PatternInvalid)
                    &&& final(run).patches() == old(run).patches()
                    &&& final(self)@.stats == old(self)@.stats
                },
            },
    {
        match run.diffs.load_diff(file, text) {
            Ok(load) => {
                self.stats.count_patches_found(load.found);
                Ok(load)
            },
            Err(e) => Err(e),
        }
    }

    /// Decides what is done with a file of the source, given its path within
    /// the source, and counts it where it is left out.
    pub fn add_file(&mut self, run: &SourceRun, file_rel_path: &str) -> (r: FileAction)
        requires
            old(self).wf(),
            run.wf(),
        ensures
            final(self).wf(),
            final(self).spec() == old(self).spec(),
            (final(self)@, r@) == decide(
                old(self)@,
                run.patterns(),
                run.patches(),
                run.name(),
                file_rel_path@,
            ),
    {
        let source = run.source.as_str();
        if run.filter.ignore_file(source, file_rel_path) {
            self.stats.count_ignored();
            return FileAction::Ignore;
        }
        let mut target = String::new();
        let mut logical = String::new();
        proof {
            reveal_strlit("/");
        }
        target.append(source);
        target.append("/");
        target.append(file_rel_path);
        logical.append("/");
        logical.append(target.as_str());
        proof {
            assert(target@ =~= manifest_key(run.name(), file_rel_path@));
            assert(logical@ =~= logical_path(run.name(), file_rel_path@));
        }
        if self.filelist.contains(target.as_str()) {
            self.stats.count_conflict();
            return FileAction::Conflict;
        }
        let patch = run.diffs.lookup(logical.as_str());
        FileAction::Copy { target, patch }
    }

    /// Adds a file to the manifest after it was copied into the content tree,
    /// and patched where the source has a patch for it. `digest` is the digest
    /// of what the file holds there. The result is whether the file was added:
    /// it is not where its place is taken.
    pub fn add_to_filelist(&mut self, run: &mut SourceRun, file_rel_path: &str, digest: &FileDigest) -> (r:
        bool)
        requires
            old(self).wf(),
            old(run).wf(),
        ensures
            final(self).wf(),
            final(self).spec() == old(self).spec(),
            final(run).wf(),
            final(run).name() == old(run).name(),
            final(run).patterns() == old(run).patterns(),
            final(run).patches() == old(run).patches(),
            r == !has_path(old(self)@.manifest, manifest_key(old(run).name(), file_rel_path@)),
            final(run).count() == (if r {
                bump(old(run).count(), 1)
            } else {
                old(run).count()
            }),
            final(self)@ == stored(
                old(self)@,
                old(run).patches(),
                old(run).name(),
                file_rel_path@,
                digest.content(),
            ),
    {
        let mut target = String::new();
        let mut logical = String::new();
        proof {
            reveal_strlit("/");
        }
        target.append(run.source.as_str());
        target.append("/");
        target.append(file_rel_path);
        logical.append("/");
        logical.append(target.as_str());
        proof {
            assert(target@ =~= manifest_key(run.name(), file_rel_path@));
            assert(logical@ =~= logical_path(run.name(), file_rel_path@));
            assert(target@[run.name().len() as int] == '/');
            self.filelist.lemma_sorted();
        }
        let ghost before = self.filelist@;
        if !self.filelist.add(target.as_str(), Some(digest)) {
            return false;
        }
        proof {
            let line = new_line(target@, Some(digest.content()));
            lemma_inserted(before, line);
            let after = self.filelist@;
            assert forall|i: int| 0 <= i < after.len() implies (#[trigger] after[i]).path.contains(
                '/',
            ) && after[i].hash is Some by {
                let x = after[i];
                assert(after == inserted(before, line));
                assert(after.contains(x));
                if x != line {
                    assert(before.contains(x));
                    let k = choose|k: int| 0 <= k < before.len() && before[k] == x;
                    assert(before[k].path.contains('/'));
                } else {
                    assert(x.path.contains('/'));
                }
            }
        }
        if run.diffs.lookup(logical.as_str()).is_some() {
            self.stats.count_patch_applied();
        }
        run.added = if run.added < usize::MAX {
            run.added + 1
        } else {
            run.added
        };
        true
    }

    /// Ends the work on a source: records the number of its files that were
    /// added.
    pub fn finish_source(&mut self, run: SourceRun)
        ensures
            final(self).wf() == old(self).wf(),
            final(self).spec() == old(self).spec(),
            final(self)@ == (PickState {
                stats: Stats {
                    added: crate::stats::with_source(
                        old(self)@.stats.added,
                        run.name(),
                        run.count(),
                    ),
                    ..old(self)@.stats
                },
                ..old(self)@
            }),
    {
        self.stats.set_added(run.source.as_str(), run.added);
    }

    /// Finishes the selection: resolves the search order, adds the search
    /// file, the bundle digest and the manifest itself to the manifest, and
    /// gives the text of all three. Fails as the search order does.
    pub fn finish(self) -> (r: Result<Selection, BuildError>)
        requires
            self.wf(),
        ensures
            match search_paths(self.spec()) {
                Ok(paths) => {
                    &&& r is Ok
                    &&& views(r->Ok_0.search@) == paths
                    &&& r->Ok_0.search_text@ == search_text(paths)
                    &&& r->Ok_0.filelist@ == filelist_text(
                        with_meta_files(
                            self@.manifest,
                            vstd::utf8::encode_utf8(search_text(paths)),
                        ),
                    )
                    &&& r->Ok_0.sha256sum@ == hex(
                        sha256(vstd::utf8::encode_utf8(r->Ok_0.filelist@)),
                    ) + seq!['\n']
                    &&& sha256(vstd::utf8::encode_utf8(r->Ok_0.filelist@)).len() == 32
                    &&& r->Ok_0.stats@ == self@.stats
                },
                Err(e) => r == Err::<Selection, BuildError>(e),
            },
    {
        let search = match resolve_search(&self.bundle_spec) {
            Ok(s) => s,
            Err(e) => {
                return Err(e);
            },
        };
        let search_text = search_file(&search);
        let mut filelist = self.filelist;
        proof {
            filelist.lemma_sorted();
        }
        let ghost m0 = filelist@;
        let ghost bytes = vstd::utf8::encode_utf8(search_text@);
        proof {
            lemma_meta_files(m0, bytes);
        }
        let search_digest = FileDigest::of(search_text.as_str().as_bytes());
        filelist.add("SEARCH", Some(&search_digest));
        filelist.add("SHA256SUM", None);
        filelist.add("FILELIST", None);
        let text = filelist.emit_filelist();
        let sha256sum = emit_digest(text.as_str());
        Ok(Selection { search, search_text, filelist: text, sha256sum, stats: self.stats })
    }
}

} // verus!

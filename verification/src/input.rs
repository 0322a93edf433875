//! Input sources: which entries of a directory walk or of a tar archive are
//! files of the source, and under what path.

use crate::digest::{hex, sha256, FileDigest};
use crate::paths::{relative_to, strip_prefix};
use crate::text::to_chars;
use vstd::prelude::*;
use vstd::string::*;

verus! {

/// An entry as a directory walk or an archive gives it.
pub struct RawEntry {
    /// The entry's path: for a walk, as the walk gives it; for an archive, as
    /// the archive names it.
    pub path: String,
    /// Whether the entry is a regular file.
    pub is_file: bool,
}

/// A file of a source.
pub struct SourceFile {
    /// The place of the file's entry in the listing.
    pub index: usize,
    /// The file's path within the source: with forward slashes, not empty and
    /// without a leading slash.
    pub path: String,
}

/// The path within the source of an entry, if the entry is a file of the
/// source: a regular file at or below `base`, the walk's root or the
/// archive's root directory, whose path from there is not empty.
pub open spec fn entry_path(base: Seq<char>, path: Seq<char>, is_file: bool) -> Option<Seq<char>> {
    match relative_to(path, base) {
        Some(p) => if is_file && p.len() > 0 && p[0] != '/' {
            Some(p)
        } else {
            None
        },
        None => None,
    }
}

/// The files of a source among the entries of a listing, in order, each with
/// the place of its entry.
pub open spec fn source_files(base: Seq<char>, listing: Seq<RawEntry>) -> Seq<(int, Seq<char>)>
    decreases listing.len(),
{
    if listing.len() == 0 {
        Seq::empty()
    } else {
        let front = source_files(base, listing.drop_last());
        match entry_path(base, listing.last().path@, listing.last().is_file) {
            Some(p) => front.push((listing.len() - 1, p)),
            None => front,
        }
    }
}

/// The files of a list as plain values.
pub open spec fn files_view(v: Seq<SourceFile>) -> Seq<(int, Seq<char>)> {
    Seq::new(v.len(), |i: int| (v[i].index as int, v[i].path@))
}

/// A directory tree as an input.
pub struct DirBundleInput {
    dir: String,
}

/// A tar archive as an input.
pub struct TarBundleInput {
    path: String,
    root: String,
    hash: String,
}

impl DirBundleInput {
    /// The input of the tree at `path`.
    pub fn new(path: String) -> (r: DirBundleInput)
        ensures
            r.location() == path@,
    {
        DirBundleInput { dir: path }
    }

    /// Where the tree is.
    pub closed spec fn location(&self) -> Seq<char> {
        self.dir@
    }
}

impl TarBundleInput {
    /// The input of the archive at `path` whose files lie below `root`, or
    /// anywhere where there is no root. `archive` is the digest of the
    /// archive's bytes.
    pub fn new(path: String, root: Option<String>, archive: &FileDigest) -> (r: TarBundleInput)
        ensures
            r.location() == path@,
            r.root_dir() == (match root {
                Some(d) => d@,
                None => Seq::<char>::empty(),
            }),
            r.digest() == hex(sha256(archive.content())),
    {
        let root = match root {
            Some(d) => d,
            None => String::new(),
        };
        TarBundleInput { path, root, hash: archive.as_hex().to_owned() }
    }

    /// Where the archive is.
    pub closed spec fn location(&self) -> Seq<char> {
        self.path@
    }

    /// The directory within the archive that holds the files.
    pub closed spec fn root_dir(&self) -> Seq<char> {
        self.root@
    }

    /// The SHA-256 digest of the archive in hexadecimal.
    pub closed spec fn digest(&self) -> Seq<char> {
        self.hash@
    }

    /// The SHA-256 digest of the archive in hexadecimal.
    pub fn hash(&self) -> (r: &str)
        ensures
            r@ == self.digest(),
    {
        self.hash.as_str()
    }
}

/// An input of a bundle.
pub enum Input {
    Directory(DirBundleInput),
    Tarball(TarBundleInput),
}

impl Input {
    /// The directory from which the paths of the source's files are taken:
    /// the walk's root, or the archive's root directory.
    pub open spec fn base(&self) -> Seq<char> {
        match self {
            Input::Directory(d) => d.location(),
            Input::Tarball(t) => t.root_dir(),
        }
    }

    /// The input of a directory tree.
    pub fn new_dir(path: String) -> (r: Input)
        ensures
            r is Directory,
            r->Directory_0.location() == path@,
            r.base() == path@,
    {
        Input::Directory(DirBundleInput::new(path))
    }

    /// The input of a tar archive.
    pub fn new_tarball(path: String, root: Option<String>, archive: &FileDigest) -> (r: Input)
        ensures
            r is Tarball,
            r->Tarball_0.location() == path@,
            r->Tarball_0.digest() == hex(sha256(archive.content())),
            r.base() == (match root {
                Some(d) => d@,
                None => Seq::<char>::empty(),
            }),
    {
        Input::Tarball(TarBundleInput::new(path, root, archive))
    }

    /// The path within the source of one entry, if the entry is a file of the
    /// source.
    pub fn select_entry(&self, path: &str, is_file: bool) -> (r: Option<String>)
        ensures
            match entry_path(self.base(), path@, is_file) {
                Some(p) => r is Some && r->Some_0@ == p,
                None => r is None,
            },
    {
        if !is_file {
            return None;
        }
        let base = match self {
            Input::Directory(d) => d.dir.as_str(),
            Input::Tarball(t) => t.root.as_str(),
        };
        match strip_prefix(path, base) {
            Some(p) => {
                let chars = to_chars(p.as_str());
                if chars.len() > 0 && chars[0] != '/' {
                    Some(p)
                } else {
                    None
                }
            },
            None => None,
        }
    }

    /// The files of the source among the entries of a listing, in the
    /// listing's order.
    pub fn iter_files(&self, listing: &Vec<RawEntry>) -> (r: Vec<SourceFile>)
        ensures
            files_view(r@) == source_files(self.base(), listing@),
    {
        let mut out: Vec<SourceFile> = Vec::new();
        let mut i: usize = 0;
        assert(listing@.take(0) =~= Seq::<RawEntry>::empty());
        assert(files_view(out@) =~= Seq::<(int, Seq<char>)>::empty());
        while i < listing.len()
            invariant
                i <= listing.len(),
                files_view(out@) == source_files(self.base(), listing@.take(i as int)),
            decreases listing.len() - i,
        {
            let ghost upto = listing@.take(i + 1);
            proof {
                assert(upto.drop_last() == listing@.take(i as int));
                assert(upto.last() == listing@[i as int]);
            }
            match self.select_entry(listing[i].path.as_str(), listing[i].is_file) {
                Some(path) => {
                    let file = SourceFile { index: i, path };
                    assert(files_view(out@.push(file)) =~= files_view(out@).push(
                        (i as int, file.path@),
                    ));
                    out.push(file);
                },
                None => {},
            }
            i += 1;
        }
        assert(listing@.take(listing.len() as int) == listing@);
        out
    }
}

} // verus!

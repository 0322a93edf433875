//! The search order of a bundle, and the report of the directories that it
//! leaves out.

use crate::config::{same_text, BundleSearchOrder, BundleSpec};
use crate::error::BuildError;
use crate::expand::{expand, expand_spec};
use crate::paths::{path_starts_with, starts_with};
use crate::text::{push_repeated, repeated, to_chars, views};
use vstd::prelude::*;
use vstd::string::*;

verus! {

/// A line of an input's search order, below the input's name.
pub open spec fn input_line(name: Seq<char>, line: Seq<char>) -> Seq<char> {
    seq!['/'] + name + seq!['/'] + line
}

/// The pattern for an input without a search order of its own: everything
/// below the input's name. The two slashes at the end say so.
pub open spec fn input_default(name: Seq<char>) -> Seq<char> {
    seq!['/'] + name + seq!['/', '/']
}

/// The patterns that entry `i` of the bundle's search order stands for: a
/// plain entry for itself, a reference for the lines of the input's search
/// order or, where the input has none, for everything below the input.
/// `None` where the entry refers to an input that is not defined.
pub open spec fn entry_patterns(spec: BundleSpec, i: int) -> Option<Seq<Seq<char>>> {
    match spec.bundle.search_order@[i] {
        BundleSearchOrder::Plain(s) => Some(seq![s@]),
        BundleSearchOrder::Input { input } => {
            if spec.defines(input@) {
                match spec.inputs@[spec.input_index(input@)].input.search_order {
                    Some(lines) => Some(
                        Seq::new(lines@.len(), |k: int| input_line(input@, lines@[k]@)),
                    ),
                    None => Some(seq![input_default(input@)]),
                }
            } else {
                None
            }
        },
    }
}

/// The expansions of patterns, one after the other; `None` where one of them
/// cannot be expanded.
pub open spec fn expand_all(patterns: Seq<Seq<char>>) -> Option<Seq<Seq<char>>>
    decreases patterns.len(),
{
    if patterns.len() == 0 {
        Some(Seq::empty())
    } else {
        match (expand_all(patterns.drop_last()), expand_spec(patterns.last())) {
            (Some(v), Ok(w)) => Some(v + w),
            _ => None,
        }
    }
}

/// The search paths that the first `n` entries of the search order give.
pub open spec fn resolve(spec: BundleSpec, n: int) -> Result<Seq<Seq<char>>, BuildError>
    decreases n,
{
    if n <= 0 {
        Ok(Seq::empty())
    } else {
        match resolve(spec, n - 1) {
            Err(e) => Err(e),
            Ok(v) => match entry_patterns(spec, n - 1) {
                None => Err(BuildError::SpecInvalid),
                Some(p) => match expand_all(p) {
                    None => Err(BuildError::PatternInvalid),
                    Some(w) => Ok(v + w),
                },
            },
        }
    }
}

/// The search paths of a bundle, in order.
pub open spec fn search_paths(spec: BundleSpec) -> Result<Seq<Seq<char>>, BuildError> {
    resolve(spec, spec.bundle.search_order@.len() as int)
}

/// The text of the search file: each path with a line feed.
pub open spec fn search_text(paths: Seq<Seq<char>>) -> Seq<char>
    decreases paths.len(),
{
    if paths.len() == 0 {
        Seq::empty()
    } else {
        search_text(paths.drop_last()) + paths.last() + seq!['\n']
    }
}

/// Expands a pattern and appends what it stands for.
fn expand_into(out: &mut Vec<String>, pattern: &str) -> (ok: bool)
    ensures
        match expand_spec(pattern@) {
            Ok(w) => ok && views(final(out)@) == views(old(out)@) + w,
            Err(_) => !ok && final(out)@ == old(out)@,
        },
{
    match expand(pattern) {
        Ok(mut w) => {
            proof {
                assert(views(out@ + w@) =~= views(out@) + views(w@));
            }
            out.append(&mut w);
            true
        },
        Err(_) => false,
    }
}

/// The search paths of a bundle: what the entries of its search order stand
/// for, expanded, in order.
pub fn resolve_search(spec: &BundleSpec) -> (r: Result<Vec<String>, BuildError>)
    ensures
        match search_paths(*spec) {
            Ok(v) => r is Ok && views(r->Ok_0@) == v,
            Err(e) => r == Err::<Vec<String>, BuildError>(e),
        },
{
    let order = &spec.bundle.search_order;
    let mut out: Vec<String> = Vec::new();
    let mut i: usize = 0;
    proof {
        reveal_strlit("/");
        reveal_strlit("//");
        assert(views(out@) =~= Seq::<Seq<char>>::empty());
    }
    while i < order.len()
        invariant
            i <= order.len(),
            order == &spec.bundle.search_order,
            resolve(*spec, i as int) == Ok::<Seq<Seq<char>>, BuildError>(views(out@)),
            "/"@ == seq!['/'],
            "//"@ == seq!['/', '/'],
        decreases order.len() - i,
    {
        let ghost before = views(out@);
        match &order[i] {
            BundleSearchOrder::Plain(s) => {
                proof {
                    let p = seq![s@];
                    assert(p.drop_last() =~= Seq::<Seq<char>>::empty());
                    assert(expand_all(p.drop_last()) == Some(Seq::<Seq<char>>::empty()));
                    match expand_spec(s@) {
                        Ok(w) => {
                            assert(Seq::<Seq<char>>::empty() + w =~= w);
                        },
                        Err(_) => {},
                    }
                }
                if !expand_into(&mut out, s.as_str()) {
                    proof {
                        lemma_resolve_stops(*spec, i + 1, order.len() as int);
                    }
                    return Err(BuildError::PatternInvalid);
                }
            },
            BundleSearchOrder::Input { input } => {
                let at = match spec.find_input(input.as_str()) {
                    Some(k) => k,
                    None => {
                        proof {
                            lemma_resolve_stops(*spec, i + 1, order.len() as int);
                        }
                        return Err(BuildError::SpecInvalid);
                    },
                };
                match &spec.inputs[at].input.search_order {
                    Some(lines) => {
                        let ghost pats = Seq::new(
                            lines@.len(),
                            |k: int| input_line(input@, lines@[k]@),
                        );
                        let mut k: usize = 0;
                        assert(pats.take(0) =~= Seq::<Seq<char>>::empty());
                        assert(before + Seq::<Seq<char>>::empty() =~= before);
                        while k < lines.len()
                            invariant
                                k <= lines.len(),
                                i < order.len(),
                                order == &spec.bundle.search_order,
                                pats == Seq::new(
                                    lines@.len(),
                                    |k: int| input_line(input@, lines@[k]@),
                                ),
                                entry_patterns(*spec, i as int) == Some(pats),
                                resolve(*spec, i as int) == Ok::<Seq<Seq<char>>, BuildError>(
                                    before,
                                ),
                                expand_all(pats.take(k as int)) is Some,
                                views(out@) == before + expand_all(pats.take(k as int))->Some_0,
                                "/"@ == seq!['/'],
                            decreases lines.len() - k,
                        {
                            let mut pattern = String::new();
                            pattern.append("/");
                            pattern.append(input.as_str());
                            pattern.append("/");
                            pattern.append(lines[k].as_str());
                            let ghost upto = pats.take(k + 1);
                            proof {
                                assert(upto.drop_last() == pats.take(k as int));
                                assert(pattern@ =~= input_line(input@, lines@[k as int]@));
                                assert(upto.last() == pattern@);
                                match expand_spec(pattern@) {
                                    Ok(w) => {
                                        let v = expand_all(pats.take(k as int))->Some_0;
                                        assert(before + (v + w) =~= (before + v) + w);
                                    },
                                    Err(_) => {},
                                }
                            }
                            if !expand_into(&mut out, pattern.as_str()) {
                                proof {
                                    lemma_expand_all_stops(pats, k + 1);
                                    lemma_resolve_stops(*spec, i + 1, order.len() as int);
                                }
                                return Err(BuildError::PatternInvalid);
                            }
                            k += 1;
                        }
                        assert(pats.take(lines.len() as int) == pats);
                    },
                    None => {
                        let mut pattern = String::new();
                        pattern.append("/");
                        pattern.append(input.as_str());
                        pattern.append("//");
                        proof {
                            assert(pattern@ =~= input_default(input@));
                            let p = seq![pattern@];
                            assert(p.drop_last() =~= Seq::<Seq<char>>::empty());
                            assert(expand_all(p.drop_last()) == Some(Seq::<Seq<char>>::empty()));
                            match expand_spec(pattern@) {
                                Ok(w) => {
                                    assert(Seq::<Seq<char>>::empty() + w =~= w);
                                },
                                Err(_) => {},
                            }
                        }
                        if !expand_into(&mut out, pattern.as_str()) {
                            proof {
                                lemma_resolve_stops(*spec, i + 1, order.len() as int);
                            }
                            return Err(BuildError::PatternInvalid);
                        }
                    },
                }
            },
        }
        i += 1;
    }
    Ok(out)
}

/// Once an entry fails, the search order fails in the same way.
proof fn lemma_resolve_stops(spec: BundleSpec, k: int, n: int)
    requires
        0 <= k <= n,
        resolve(spec, k) is Err,
    ensures
        resolve(spec, n) == resolve(spec, k),
    decreases n - k,
{
    if k < n {
        lemma_resolve_stops(spec, k, n - 1);
    }
}

/// Once a pattern fails, all of them fail.
proof fn lemma_expand_all_stops(patterns: Seq<Seq<char>>, k: int)
    requires
        0 <= k <= patterns.len(),
        expand_all(patterns.take(k)) is None,
    ensures
        expand_all(patterns) is None,
    decreases patterns.len() - k,
{
    if k < patterns.len() {
        assert(patterns.take(k + 1).drop_last() == patterns.take(k));
        lemma_expand_all_stops(patterns, k + 1);
    } else {
        assert(patterns.take(k) == patterns);
    }
}

/// The text of the search file.
pub fn search_file(paths: &Vec<String>) -> (r: String)
    ensures
        r@ == search_text(views(paths@)),
{
    let mut out = String::new();
    let mut i: usize = 0;
    proof {
        reveal_strlit("\n");
        assert(views(paths@).take(0) =~= Seq::<Seq<char>>::empty());
    }
    while i < paths.len()
        invariant
            i <= paths.len(),
            out@ == search_text(views(paths@).take(i as int)),
            "\n"@ == seq!['\n'],
        decreases paths.len() - i,
    {
        let ghost upto = views(paths@).take(i + 1);
        proof {
            assert(upto.drop_last() == views(paths@).take(i as int));
            assert(upto.last() == paths@[i as int]@);
        }
        out.append(paths[i].as_str());
        out.append("\n");
        i += 1;
    }
    assert(views(paths@).take(paths.len() as int) == views(paths@));
    out
}

/// Whether a rule ends with two slashes: it stands for a directory and all
/// that lies below it.
pub open spec fn is_recursive(rule: Seq<char>) -> bool {
    rule.len() >= 2 && rule[rule.len() - 1] == '/' && rule[rule.len() - 2] == '/'
}

/// Whether a search rule covers a directory. A rule that ends with two
/// slashes covers what lies at or below the rule without its last slash; any
/// other rule covers the directory of that very path.
pub open spec fn covers(rule: Seq<char>, dir: Seq<char>) -> bool {
    if is_recursive(rule) {
        starts_with(dir, rule.drop_last())
    } else {
        dir == rule
    }
}

/// Whether one of the rules covers the directory.
pub open spec fn is_searched(rules: Seq<Seq<char>>, dir: Seq<char>) -> bool {
    exists|i: int| 0 <= i < rules.len() && covers(#[trigger] rules[i], dir)
}

/// The number of slashes in a path.
pub open spec fn depth(path: Seq<char>) -> nat
    decreases path.len(),
{
    if path.len() == 0 {
        0
    } else if path.last() == '/' {
        depth(path.drop_last()) + 1
    } else {
        depth(path.drop_last())
    }
}

/// The report: a line for each directory that no rule covers, in the order
/// given, with one tab for each slash of its path after the first.
pub open spec fn report_text(dirs: Seq<Seq<char>>, rules: Seq<Seq<char>>) -> Seq<char>
    decreases dirs.len(),
{
    if dirs.len() == 0 {
        Seq::empty()
    } else if is_searched(rules, dirs.last()) {
        report_text(dirs.drop_last(), rules)
    } else {
        report_text(dirs.drop_last(), rules) + repeated(seq!['\t'], depth(dirs.last()) - 1)
            + dirs.last()
            + seq!['\n']
    }
}

/// Whether a search rule covers a directory.
pub fn rule_covers(rule: &str, dir: &str) -> (r: bool)
    ensures
        r == covers(rule@, dir@),
{
    let chars = to_chars(rule);
    let n = chars.len();
    if n >= 2 && chars[n - 1] == '/' && chars[n - 2] == '/' {
        let base = rule.substring_char(0, n - 1);
        assert(base@ =~= rule@.drop_last());
        path_starts_with(dir, base)
    } else {
        same_text(dir, rule)
    }
}

/// Whether one of the search rules covers a directory.
pub fn directory_is_searched(search: &Vec<String>, dir: &str) -> (r: bool)
    ensures
        r == is_searched(views(search@), dir@),
{
    let mut k: usize = 0;
    while k < search.len()
        invariant
            k <= search.len(),
            forall|j: int| 0 <= j < k ==> !covers(#[trigger] views(search@)[j], dir@),
        decreases search.len() - k,
    {
        if rule_covers(search[k].as_str(), dir) {
            assert(covers(views(search@)[k as int], dir@));
            return true;
        }
        k += 1;
    }
    false
}

/// The number of slashes in a path.
pub fn path_depth(path: &str) -> (r: usize)
    ensures
        r == depth(path@),
{
    let chars = to_chars(path);
    let mut slashes: usize = 0;
    let mut j: usize = 0;
    assert(path@.take(0) =~= Seq::<char>::empty());
    while j < chars.len()
        invariant
            j <= chars.len(),
            chars@ == path@,
            slashes == depth(path@.take(j as int)),
            slashes <= j,
        decreases chars.len() - j,
    {
        proof {
            assert(path@.take(j + 1).drop_last() == path@.take(j as int));
            assert(path@.take(j + 1).last() == path@[j as int]);
        }
        if chars[j] == '/' {
            slashes += 1;
        }
        j += 1;
    }
    assert(path@.take(chars.len() as int) == path@);
    slashes
}

/// The report of the directories that the search order leaves out. `dirs`
/// holds the directories of the content tree, each as an absolute path below
/// the content root, which is `/`.
pub fn search_report(dirs: &Vec<String>, search: &Vec<String>) -> (r: String)
    ensures
        r@ == report_text(views(dirs@), views(search@)),
{
    let mut out = String::new();
    let mut i: usize = 0;
    proof {
        reveal_strlit("\n");
        reveal_strlit("\t");
        assert(views(dirs@).take(0) =~= Seq::<Seq<char>>::empty());
    }
    while i < dirs.len()
        invariant
            i <= dirs.len(),
            out@ == report_text(views(dirs@).take(i as int), views(search@)),
            "\n"@ == seq!['\n'],
            "\t"@ == seq!['\t'],
        decreases dirs.len() - i,
    {
        let dir = dirs[i].as_str();
        proof {
            let upto = views(dirs@).take(i + 1);
            assert(upto.drop_last() == views(dirs@).take(i as int));
            assert(upto.last() == dir@);
        }
        if !directory_is_searched(search, dir) {
            let slashes = path_depth(dir);
            let count: usize = if slashes > 0 {
                slashes - 1
            } else {
                0
            };
            assert(repeated(seq!['\t'], count as int) == repeated(seq!['\t'], depth(dir@) - 1));
            push_repeated(&mut out, "\t", count);
            out.append(dir);
            out.append("\n");
        }
        i += 1;
    }
    assert(views(dirs@).take(dirs.len() as int) == views(dirs@));
    out
}

} // verus!

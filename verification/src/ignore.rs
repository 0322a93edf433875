//! The ignore filter: anchored regular expressions over logical paths.

use crate::error::BuildError;
use crate::text::{trim, trim_str};
use vstd::prelude::*;
use vstd::string::*;

verus! {

/// `regex::Regex`, a compiled regular expression: carried through, never
/// looked into.
#[verifier::external_type_specification]
#[verifier::external_body]
pub struct ExRegex(regex::Regex);

/// `regex::Error`, why a pattern did not compile: carried through, never
/// looked into.
#[verifier::external_type_specification]
#[verifier::external_body]
pub struct ExRegexError(regex::Error);

/// The haystacks in which `regex::Regex::is_match` finds a match of `re`.
pub uninterp spec fn regex_language(re: regex::Regex) -> Set<Seq<char>>;

/// What `regex::Regex::new` makes of a pattern: `None` where it refuses the
/// pattern, else the haystacks that the compiled expression matches.
pub uninterp spec fn pattern_language(pattern: Seq<char>) -> Option<Set<Seq<char>>>;

/// Calls `regex::Regex::new`. The contract names what comes back: whether the
/// pattern compiles, and what the compiled expression matches, depend on the
/// pattern alone.
#[verifier::external_body]
fn compile_pattern(pattern: &str) -> (r: Result<regex::Regex, regex::Error>)
    ensures
        match r {
            Ok(re) => pattern_language(pattern@) == Some(regex_language(re)),
            Err(_) => pattern_language(pattern@) is None,
        },
{
    regex::Regex::new(pattern)
}

/// Calls `regex::Regex::is_match`: whether the expression matches somewhere in
/// the haystack.
#[verifier::external_body]
fn regex_is_match(re: &regex::Regex, haystack: &str) -> (b: bool)
    ensures
        b == regex_language(*re).contains(haystack@),
{
    re.is_match(haystack)
}

/// Whether a line of an ignore list is a rule: after trimming it is neither
/// empty nor a comment, which starts with `#`.
pub open spec fn is_rule(line: Seq<char>) -> bool {
    trim(line).len() > 0 && trim(line)[0] != '#'
}

/// The patterns of the rules among `lines`, in the order of the lines.
pub open spec fn patterns_of(lines: Seq<Seq<char>>, prefix: Seq<char>) -> Seq<Seq<char>>
    decreases lines.len(),
{
    if lines.len() == 0 {
        Seq::empty()
    } else if is_rule(lines.last()) {
        patterns_of(lines.drop_last(), prefix).push(pattern_of(lines.last(), prefix))
    } else {
        patterns_of(lines.drop_last(), prefix)
    }
}

/// What goes before a rule of one input: the rule speaks of paths below the
/// input's name.
pub open spec fn source_prefix(source: Seq<char>) -> Seq<char> {
    seq!['^', '/'] + source + seq!['/']
}

/// The patterns of a source: the global rules anchored as they are, then the
/// input's own rules below the input's name.
pub open spec fn source_patterns(
    global: Seq<Seq<char>>,
    source: Seq<char>,
    local: Seq<Seq<char>>,
) -> Seq<Seq<char>> {
    patterns_of(global, seq!['^']) + patterns_of(local, source_prefix(source))
}

/// Whether every pattern is a regular expression.
pub open spec fn all_compile(patterns: Seq<Seq<char>>) -> bool {
    forall|i: int| 0 <= i < patterns.len() ==> pattern_language(#[trigger] patterns[i]) is Some
}

/// Whether one of the patterns matches the path.
pub open spec fn ignored(patterns: Seq<Seq<char>>, path: Seq<char>) -> bool {
    exists|i: int|
        0 <= i < patterns.len() && pattern_language(#[trigger] patterns[i]) is Some
            && pattern_language(patterns[i])->Some_0.contains(path)
}

/// The logical path of a file: a slash, the source's name, a slash, and the
/// file's path within the source.
pub open spec fn logical_path(source: Seq<char>, relative: Seq<char>) -> Seq<char> {
    seq!['/'] + source + seq!['/'] + relative
}

/// Whether the rules `more` ignore every path that the rules `fewer` ignore.
pub open spec fn no_weaker(fewer: Seq<Seq<char>>, more: Seq<Seq<char>>) -> bool {
    forall|path: Seq<char>| #[trigger] ignored(fewer, path) ==> ignored(more, path)
}

/// Rules that hold every pattern of other rules ignore no less than those.
pub proof fn lemma_more_patterns(fewer: Seq<Seq<char>>, more: Seq<Seq<char>>)
    requires
        forall|i: int| 0 <= i < fewer.len() ==> more.contains(#[trigger] fewer[i]),
    ensures
        no_weaker(fewer, more),
{
    assert forall|path: Seq<char>| #[trigger] ignored(fewer, path) implies ignored(more, path) by {
        let i = choose|i: int|
            0 <= i < fewer.len() && pattern_language(#[trigger] fewer[i]) is Some
                && pattern_language(fewer[i])->Some_0.contains(path);
        assert(more.contains(fewer[i]));
        let j = choose|j: int| 0 <= j < more.len() && more[j] == fewer[i];
        assert(pattern_language(more[j]) is Some);
    }
}

/// One more pattern, wherever it stands among the others, ignores what was
/// ignored, and maybe more.
pub proof fn lemma_pattern_added(patterns: Seq<Seq<char>>, k: int, extra: Seq<char>)
    requires
        0 <= k <= patterns.len(),
    ensures
        no_weaker(patterns, patterns.insert(k, extra)),
{
    let more = patterns.insert(k, extra);
    assert forall|i: int| 0 <= i < patterns.len() implies more.contains(
        #[trigger] patterns[i],
    ) by {
        if i < k {
            assert(more[i] == patterns[i]);
        } else {
            assert(more[i + 1] == patterns[i]);
        }
    }
    lemma_more_patterns(patterns, more);
}

/// The pattern of a rule: the line trimmed, with `prefix` before it and `$`
/// after it.
pub open spec fn pattern_of(line: Seq<char>, prefix: Seq<char>) -> Seq<char> {
    prefix + trim(line) + seq!['$']
}

/// Every rule among the lines gives its pattern, and every pattern is that of
/// a rule among the lines.
pub proof fn lemma_patterns_of_lines(lines: Seq<Seq<char>>, prefix: Seq<char>)
    ensures
        forall|i: int|
            0 <= i < lines.len() && is_rule(#[trigger] lines[i]) ==> patterns_of(
                lines,
                prefix,
            ).contains(pattern_of(lines[i], prefix)),
        forall|j: int|
            0 <= j < patterns_of(lines, prefix).len() ==> exists|i: int|
                0 <= i < lines.len() && is_rule(#[trigger] lines[i]) && (#[trigger] patterns_of(
                    lines,
                    prefix,
                )[j]) == pattern_of(lines[i], prefix),
    decreases lines.len(),
{
    let all = patterns_of(lines, prefix);
    if lines.len() > 0 {
        let front = lines.drop_last();
        let part = patterns_of(front, prefix);
        lemma_patterns_of_lines(front, prefix);
        assert forall|i: int| 0 <= i < lines.len() && is_rule(#[trigger] lines[i]) implies all.contains(
            pattern_of(lines[i], prefix),
        ) by {
            if i < front.len() {
                assert(front[i] == lines[i]);
                let x = pattern_of(lines[i], prefix);
                assert(part.contains(x));
                let j = choose|j: int| 0 <= j < part.len() && part[j] == x;
                assert(all[j] == x);
            } else {
                assert(all[all.len() - 1] == pattern_of(lines[i], prefix));
            }
        }
        assert forall|j: int| 0 <= j < all.len() implies exists|i: int|
            0 <= i < lines.len() && is_rule(#[trigger] lines[i]) && (#[trigger] all[j])
                == pattern_of(lines[i], prefix) by {
            if j < part.len() {
                assert(all[j] == part[j]);
                let i = choose|i: int|
                    0 <= i < front.len() && is_rule(#[trigger] front[i]) && part[j] == pattern_of(
                        front[i],
                        prefix,
                    );
                assert(lines[i] == front[i]);
            } else {
                assert(is_rule(lines[lines.len() - 1]));
            }
        }
    }
}

/// One more line in an ignore list, wherever it stands, takes no pattern
/// away: the rules with the line ignore no less than those without it.
pub proof fn lemma_line_added(lines: Seq<Seq<char>>, k: int, line: Seq<char>, prefix: Seq<char>)
    requires
        0 <= k <= lines.len(),
    ensures
        forall|j: int|
            0 <= j < patterns_of(lines, prefix).len() ==> patterns_of(
                lines.insert(k, line),
                prefix,
            ).contains(#[trigger] patterns_of(lines, prefix)[j]),
{
    let more = lines.insert(k, line);
    lemma_patterns_of_lines(lines, prefix);
    lemma_patterns_of_lines(more, prefix);
    assert forall|j: int| 0 <= j < patterns_of(lines, prefix).len() implies patterns_of(
        more,
        prefix,
    ).contains(#[trigger] patterns_of(lines, prefix)[j]) by {
        let i = choose|i: int|
            0 <= i < lines.len() && is_rule(#[trigger] lines[i]) && patterns_of(lines, prefix)[j]
                == pattern_of(lines[i], prefix);
        let at = if i < k {
            i
        } else {
            i + 1
        };
        assert(more[at] == lines[i]);
    }
}

/// One more line in the global ignore list, wherever it stands, never lets
/// through what the rules of a source ignored.
pub proof fn lemma_global_line_added(
    global: Seq<Seq<char>>,
    k: int,
    line: Seq<char>,
    source: Seq<char>,
    local: Seq<Seq<char>>,
)
    requires
        0 <= k <= global.len(),
    ensures
        no_weaker(
            source_patterns(global, source, local),
            source_patterns(global.insert(k, line), source, local),
        ),
{
    let fewer = source_patterns(global, source, local);
    let more = source_patterns(global.insert(k, line), source, local);
    let g = patterns_of(global, seq!['^']);
    let g2 = patterns_of(global.insert(k, line), seq!['^']);
    let l = patterns_of(local, source_prefix(source));
    lemma_line_added(global, k, line, seq!['^']);
    assert forall|i: int| 0 <= i < fewer.len() implies more.contains(#[trigger] fewer[i]) by {
        if i < g.len() {
            assert(fewer[i] == g[i]);
            assert(g2.contains(g[i]));
            let j = choose|j: int| 0 <= j < g2.len() && g2[j] == g[i];
            assert(more[j] == g[i]);
        } else {
            assert(more[g2.len() + (i - g.len())] == l[i - g.len()]);
        }
    }
    lemma_more_patterns(fewer, more);
}

/// One more line in the ignore list of an input, wherever it stands, never
/// lets through what the rules of the source ignored.
pub proof fn lemma_local_line_added(
    global: Seq<Seq<char>>,
    source: Seq<char>,
    local: Seq<Seq<char>>,
    k: int,
    line: Seq<char>,
)
    requires
        0 <= k <= local.len(),
    ensures
        no_weaker(
            source_patterns(global, source, local),
            source_patterns(global, source, local.insert(k, line)),
        ),
{
    let fewer = source_patterns(global, source, local);
    let more = source_patterns(global, source, local.insert(k, line));
    let g = patterns_of(global, seq!['^']);
    let l = patterns_of(local, source_prefix(source));
    let l2 = patterns_of(local.insert(k, line), source_prefix(source));
    lemma_line_added(local, k, line, source_prefix(source));
    assert forall|i: int| 0 <= i < fewer.len() implies more.contains(#[trigger] fewer[i]) by {
        if i < g.len() {
            assert(more[i] == g[i]);
        } else {
            let x = l[i - g.len()];
            assert(l2.contains(x));
            let j = choose|j: int| 0 <= j < l2.len() && l2[j] == x;
            assert(more[g.len() + j] == x);
        }
    }
    lemma_more_patterns(fewer, more);
}

/// A compiled rule.
struct Rule {
    pattern: String,
    regex: regex::Regex,
}

/// The compiled ignore rules of one source.
pub struct IgnoreFilter {
    rules: Vec<Rule>,
}

impl View for IgnoreFilter {
    type V = Seq<Seq<char>>;

    /// The patterns of the rules.
    closed spec fn view(&self) -> Seq<Seq<char>> {
        Seq::new(self.rules@.len(), |i: int| self.rules@[i].pattern@)
    }
}

impl IgnoreFilter {
    /// Each rule holds the expression that its pattern compiles to.
    pub closed spec fn wf(&self) -> bool {
        forall|i: int|
            0 <= i < self.rules@.len() ==> pattern_language((#[trigger] self.rules@[i]).pattern@)
                == Some(regex_language(self.rules@[i].regex))
    }

    /// Compiles the rules among `lines`, each with `prefix` before it, and adds
    /// them to `rules`.
    fn compile_lines(rules: &mut Vec<Rule>, lines: &Vec<String>, prefix: &str) -> (ok: bool)
        requires
            forall|i: int|
                0 <= i < old(rules)@.len() ==> pattern_language(
                    (#[trigger] old(rules)@[i]).pattern@,
                ) == Some(regex_language(old(rules)@[i].regex)),
        ensures
            ok == all_compile(patterns_of(crate::text::views(lines@), prefix@)),
            ok ==> Seq::new(final(rules)@.len(), |i: int| final(rules)@[i].pattern@) == Seq::new(
                old(rules)@.len(),
                |i: int| old(rules)@[i].pattern@,
            ) + patterns_of(crate::text::views(lines@), prefix@),
            forall|i: int|
                0 <= i < final(rules)@.len() ==> pattern_language(
                    (#[trigger] final(rules)@[i]).pattern@,
                ) == Some(regex_language(final(rules)@[i].regex)),
    {
        let ghost all = crate::text::views(lines@);
        let ghost start = Seq::new(rules@.len(), |i: int| rules@[i].pattern@);
        let mut k: usize = 0;
        proof {
            reveal_strlit("$");
            assert(all.take(0) == Seq::<Seq<char>>::empty());
            assert(start + patterns_of(all.take(0), prefix@) == start);
        }
        while k < lines.len()
            invariant
                k <= lines.len(),
                all == crate::text::views(lines@),
                "$"@ == seq!['$'],
                all_compile(patterns_of(all.take(k as int), prefix@)),
                Seq::new(rules@.len(), |i: int| rules@[i].pattern@) == start + patterns_of(
                    all.take(k as int),
                    prefix@,
                ),
                forall|i: int|
                    0 <= i < rules@.len() ==> pattern_language((#[trigger] rules@[i]).pattern@)
                        == Some(regex_language(rules@[i].regex)),
            decreases lines.len() - k,
        {
            let ghost upto = all.take(k + 1);
            proof {
                assert(upto.drop_last() == all.take(k as int));
                assert(upto.last() == lines@[k as int]@);
            }
            let line = trim_str(lines[k].as_str());
            let chars = crate::text::to_chars(line);
            if chars.len() > 0 && chars[0] != '#' {
                let mut pattern = String::new();
                pattern.append(prefix);
                pattern.append(line);
                pattern.append("$");
                match compile_pattern(pattern.as_str()) {
                    Ok(regex) => {
                        let ghost before = Seq::new(rules@.len(), |i: int| rules@[i].pattern@);
                        rules.push(Rule { pattern, regex });
                        proof {
                            let now = Seq::new(rules@.len(), |i: int| rules@[i].pattern@);
                            assert(now =~= before.push(pattern@));
                            assert(now == start + patterns_of(upto, prefix@));
                            let p = patterns_of(upto, prefix@);
                            assert forall|i: int| 0 <= i < p.len() implies pattern_language(
                                #[trigger] p[i],
                            ) is Some by {
                                if i < p.len() - 1 {
                                    assert(p[i] == patterns_of(all.take(k as int), prefix@)[i]);
                                }
                            }
                        }
                    },
                    Err(_) => {
                        proof {
                            let p = patterns_of(upto, prefix@);
                            assert(p.last() == pattern@);
                            lemma_patterns_prefix(all, k + 1, prefix@);
                            let whole = patterns_of(all, prefix@);
                            assert(whole[p.len() - 1] == pattern@);
                        }
                        return false;
                    },
                }
            }
            k += 1;
        }
        assert(all.take(lines.len() as int) == all);
        true
    }

    /// Compiles the ignore rules of a source: the global ones and the input's
    /// own. Fails where one of them is not a regular expression.
    pub fn compile(global: &Vec<String>, source: &str, local: &Vec<String>) -> (r: Result<
        IgnoreFilter,
        BuildError,
    >)
        ensures
            match r {
                Ok(f) => f.wf() && f@ == source_patterns(
                    crate::text::views(global@),
                    source@,
                    crate::text::views(local@),
                ),
                Err(e) => e == BuildError::IgnorePatternInvalid,
            },
            r is Ok <==> all_compile(
                source_patterns(crate::text::views(global@), source@, crate::text::views(local@)),
            ),
    {
        let ghost g = patterns_of(crate::text::views(global@), seq!['^']);
        let ghost l = patterns_of(crate::text::views(local@), source_prefix(source@));
        let mut rules: Vec<Rule> = Vec::new();
        proof {
            reveal_strlit("^");
            reveal_strlit("^/");
            reveal_strlit("/");
            assert("^"@ =~= seq!['^']);
        }
        if !Self::compile_lines(&mut rules, global, "^") {
            proof {
                let i = choose|i: int| 0 <= i < g.len() && !(pattern_language(g[i]) is Some);
                assert((g + l)[i] == g[i]);
            }
            return Err(BuildError::IgnorePatternInvalid);
        }
        let mut prefix = String::new();
        prefix.append("^/");
        prefix.append(source);
        prefix.append("/");
        assert(prefix@ =~= source_prefix(source@));
        if !Self::compile_lines(&mut rules, local, prefix.as_str()) {
            proof {
                let i = choose|i: int| 0 <= i < l.len() && !(pattern_language(l[i]) is Some);
                assert((g + l)[g.len() + i] == l[i]);
            }
            return Err(BuildError::IgnorePatternInvalid);
        }
        let f = IgnoreFilter { rules };
        proof {
            assert(f@ =~= g + l);
            assert forall|i: int| 0 <= i < (g + l).len() implies pattern_language(
                #[trigger] (g + l)[i],
            ) is Some by {
                if i < g.len() {
                    assert((g + l)[i] == g[i]);
                } else {
                    assert((g + l)[i] == l[i - g.len()]);
                }
            }
        }
        Ok(f)
    }

    /// Whether a rule matches the logical path of a file of `source`.
    pub fn ignore_file(&self, source: &str, file_rel_path: &str) -> (r: bool)
        requires
            self.wf(),
        ensures
            r == ignored(self@, logical_path(source@, file_rel_path@)),
    {
        let mut path = String::new();
        proof {
            reveal_strlit("/");
        }
        path.append("/");
        path.append(source);
        path.append("/");
        path.append(file_rel_path);
        assert(path@ =~= logical_path(source@, file_rel_path@));
        self.matches(path.as_str())
    }

    /// Whether a rule matches a logical path.
    pub fn matches(&self, path: &str) -> (r: bool)
        requires
            self.wf(),
        ensures
            r == ignored(self@, path@),
    {
        let mut i: usize = 0;
        while i < self.rules.len()
            invariant
                i <= self.rules.len(),
                self.wf(),
                forall|j: int|
                    0 <= j < i ==> !(pattern_language(#[trigger] self@[j])->Some_0.contains(
                        path@,
                    )),
            decreases self.rules.len() - i,
        {
            assert(self@[i as int] == self.rules@[i as int].pattern@);
            if regex_is_match(&self.rules[i].regex, path) {
                return true;
            }
            i += 1;
        }
        false
    }
}

/// The patterns of the first lines are the first patterns of all lines.
proof fn lemma_patterns_prefix(lines: Seq<Seq<char>>, k: int, prefix: Seq<char>)
    requires
        0 <= k <= lines.len(),
    ensures
        patterns_of(lines.take(k), prefix).len() <= patterns_of(lines, prefix).len(),
        forall|i: int|
            0 <= i < patterns_of(lines.take(k), prefix).len() ==> patterns_of(lines, prefix)[i]
                == patterns_of(lines.take(k), prefix)[i],
    decreases lines.len() - k,
{
    if k < lines.len() {
        lemma_patterns_prefix(lines, k + 1, prefix);
        assert(lines.take(k + 1).drop_last() == lines.take(k));
    } else {
        assert(lines.take(k) == lines);
    }
}

} // verus!

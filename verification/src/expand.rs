//! Brace expansion of path patterns: `/a/{x,y}/b` stands for `/a/x/b` and `/a/y/b`.

use crate::text::{
    find_char, first_index, lemma_first_index_bounds, lemma_split_pieces, lemma_views_push, split,
    split_range, to_chars, views,
};
use vstd::prelude::*;
use vstd::string::*;

verus! {

/// Why a pattern cannot be expanded.
#[derive(Clone, Copy, Debug, PartialEq, Eq, Structural)]
pub enum ExpandError {
    /// A brace without its partner, or a closing brace before the first opening one.
    UnmatchedBrace,
    /// An opening brace inside a group.
    NestedBrace,
    /// A group with nothing between its braces.
    EmptyGroup,
    /// A group with an empty alternative, as in `{a,,b}`.
    EmptyAlternative,
}

/// Whether `s` holds a brace of either kind.
pub open spec fn has_brace(s: Seq<char>) -> bool {
    s.contains('{') || s.contains('}')
}

/// `head`, one alternative and each tail in turn.
pub open spec fn with_alternative(head: Seq<char>, alt: Seq<char>, tails: Seq<Seq<char>>) -> Seq<
    Seq<char>,
> {
    Seq::new(tails.len(), |j: int| head + alt + tails[j])
}

/// Every alternative with every tail, the alternatives in order and, for each,
/// the tails in order.
pub open spec fn cross(head: Seq<char>, alts: Seq<Seq<char>>, tails: Seq<Seq<char>>) -> Seq<
    Seq<char>,
>
    decreases alts.len(),
{
    if alts.len() == 0 {
        Seq::empty()
    } else {
        cross(head, alts.drop_last(), tails) + with_alternative(head, alts.last(), tails)
    }
}

/// Whether one of the alternatives is empty.
pub open spec fn has_empty(alts: Seq<Seq<char>>) -> bool {
    exists|i: int| 0 <= i < alts.len() && alts[i].len() == 0
}

/// The expansion of a pattern. A pattern without braces stands for itself.
/// Otherwise the first group is replaced by each of its alternatives in turn,
/// and what follows its closing brace is expanded in the same way.
pub open spec fn expand_spec(s: Seq<char>) -> Result<Seq<Seq<char>>, ExpandError>
    decreases s.len(),
{
    let open = first_index(s, '{');
    let close = first_index(s, '}');
    if !has_brace(s) {
        Ok(seq![s])
    } else if !(0 <= open < close < s.len()) {
        Err(ExpandError::UnmatchedBrace)
    } else if s.subrange(open + 1, close).contains('{') {
        Err(ExpandError::NestedBrace)
    } else {
        match expand_spec(s.skip(close + 1)) {
            Err(e) => Err(e),
            Ok(tails) => {
                let alts = split(s.subrange(open + 1, close), ',');
                if close == open + 1 {
                    Err(ExpandError::EmptyGroup)
                } else if has_empty(alts) {
                    Err(ExpandError::EmptyAlternative)
                } else {
                    Ok(cross(s.take(open), alts, tails))
                }
            },
        }
    }
}

/// The expansion has one string for each pair of an alternative and a tail.
pub proof fn lemma_cross_len(head: Seq<char>, alts: Seq<Seq<char>>, tails: Seq<Seq<char>>)
    ensures
        cross(head, alts, tails).len() == alts.len() * tails.len(),
    decreases alts.len(),
{
    if alts.len() == 0 {
        assert(alts.len() * tails.len() == 0) by (nonlinear_arith)
            requires
                alts.len() == 0,
        ;
    } else {
        let front = alts.drop_last();
        lemma_cross_len(head, front, tails);
        assert(front.len() * tails.len() + tails.len() == alts.len() * tails.len())
            by (nonlinear_arith)
            requires
                front.len() + 1 == alts.len(),
        ;
    }
}

/// The expansion holds the pair of alternative `i` and tail `j` at the place
/// that the order of the alternatives and, within one, of the tails gives it.
pub proof fn lemma_cross_index(
    head: Seq<char>,
    alts: Seq<Seq<char>>,
    tails: Seq<Seq<char>>,
    i: int,
    j: int,
)
    requires
        0 <= i < alts.len(),
        0 <= j < tails.len(),
    ensures
        0 <= i * tails.len() + j < cross(head, alts, tails).len(),
        cross(head, alts, tails)[i * tails.len() + j] == head + alts[i] + tails[j],
    decreases alts.len(),
{
    let n = tails.len() as int;
    let front = alts.drop_last();
    lemma_cross_len(head, alts, tails);
    lemma_cross_len(head, front, tails);
    assert(0 <= i * n && i * n + n <= alts.len() * n) by (nonlinear_arith)
        requires
            0 <= i < alts.len(),
            0 <= n,
    ;
    if i < front.len() {
        lemma_cross_index(head, front, tails, i, j);
    } else {
        assert(i * n == front.len() * n);
        assert(with_alternative(head, alts.last(), tails)[j] == head + alts[i] + tails[j]);
    }
}

/// A pattern without braces expands to itself and nothing else.
pub proof fn lemma_expand_plain(s: Seq<char>)
    requires
        !has_brace(s),
    ensures
        expand_spec(s) == Ok::<Seq<Seq<char>>, ExpandError>(seq![s]),
{
}

/// No string of an expansion holds a brace, so expanding it once more gives
/// the string itself.
pub proof fn lemma_expand_idempotent(s: Seq<char>)
    requires
        expand_spec(s) is Ok,
    ensures
        forall|i: int|
            0 <= i < expand_spec(s)->Ok_0.len() ==> {
                &&& !has_brace(#[trigger] expand_spec(s)->Ok_0[i])
                &&& expand_spec(expand_spec(s)->Ok_0[i]) == Ok::<Seq<Seq<char>>, ExpandError>(
                    seq![expand_spec(s)->Ok_0[i]],
                )
            },
    decreases s.len(),
{
    if has_brace(s) {
        let open = first_index(s, '{');
        let close = first_index(s, '}');
        let rest = s.skip(close + 1);
        let mid = s.subrange(open + 1, close);
        let head = s.take(open);
        let tails = expand_spec(rest)->Ok_0;
        let alts = split(mid, ',');
        let out = cross(head, alts, tails);
        lemma_expand_idempotent(rest);
        lemma_first_index_bounds(s, '{');
        lemma_first_index_bounds(s, '}');
        lemma_split_pieces(mid, ',');
        assert forall|k: int| 0 <= k < out.len() implies !has_brace(#[trigger] out[k]) by {
            lemma_cross_at(head, alts, tails, k);
            let (i, j) = choose|i: int, j: int|
                0 <= i < alts.len() && 0 <= j < tails.len() && out[k] == head + alts[i] + tails[j];
            let x = head + alts[i] + tails[j];
            assert forall|c: char| c == '{' || c == '}' implies !x.contains(c) by {
                if x.contains(c) {
                    let p = choose|p: int| 0 <= p < x.len() && x[p] == c;
                    if p < head.len() {
                        assert(s[p] == c);
                    } else if p < head.len() + alts[i].len() {
                        assert(alts[i][p - head.len()] == c);
                        assert(alts[i].contains(c));
                        assert(mid.contains(c));
                        let q = choose|q: int| 0 <= q < mid.len() && mid[q] == c;
                        assert(s[open + 1 + q] == c);
                    } else {
                        assert(tails[j][p - head.len() - alts[i].len()] == c);
                        assert(tails[j].contains(c));
                    }
                }
            }
        }
    }
}

/// Each place of the expansion holds some alternative with some tail.
pub proof fn lemma_cross_at(head: Seq<char>, alts: Seq<Seq<char>>, tails: Seq<Seq<char>>, k: int)
    requires
        0 <= k < cross(head, alts, tails).len(),
    ensures
        exists|i: int, j: int|
            0 <= i < alts.len() && 0 <= j < tails.len() && cross(head, alts, tails)[k] == head
                + alts[i] + tails[j],
    decreases alts.len(),
{
    if alts.len() > 0 {
        let front = alts.drop_last();
        if k < cross(head, front, tails).len() {
            lemma_cross_at(head, front, tails, k);
            let (i, j) = choose|i: int, j: int|
                0 <= i < front.len() && 0 <= j < tails.len() && cross(head, front, tails)[k]
                    == head + front[i] + tails[j];
            assert(alts[i] == front[i]);
        } else {
            let j = k - cross(head, front, tails).len();
            let i = alts.len() - 1;
            assert(cross(head, alts, tails)[k] == head + alts[i] + tails[j]);
        }
    }
}

/// Expands the brace groups of a pattern, from left to right.
#[verifier::loop_isolation(false)]
pub fn expand(s: &str) -> (r: Result<Vec<String>, ExpandError>)
    ensures
        match expand_spec(s@) {
            Ok(v) => r is Ok && views(r->Ok_0@) == v,
            Err(e) => r == Err::<Vec<String>, ExpandError>(e),
        },
    decreases s@.len(),
{
    let chars = to_chars(s);
    let n = chars.len();
    let open = find_char(&chars, '{', 0, n);
    let close = find_char(&chars, '}', 0, n);
    proof {
        assert(chars@.subrange(0, n as int) == s@);
        lemma_first_index_bounds(s@, '{');
        lemma_first_index_bounds(s@, '}');
    }
    if open == n && close == n {
        let mut out: Vec<String> = Vec::new();
        out.push(s.to_owned());
        proof {
            assert(views(out@) == seq![s@]);
        }
        return Ok(out);
    }
    if open == n || close == n || close < open {
        return Err(ExpandError::UnmatchedBrace);
    }
    let nested = find_char(&chars, '{', open + 1, close);
    proof {
        lemma_first_index_bounds(s@.subrange(open + 1, close as int), '{');
    }
    if nested < close {
        return Err(ExpandError::NestedBrace);
    }
    let rest = s.substring_char(close + 1, n);
    assert(rest@ == s@.skip(close + 1));
    let tails = match expand(rest) {
        Ok(t) => t,
        Err(e) => {
            return Err(e);
        },
    };
    if close == open + 1 {
        return Err(ExpandError::EmptyGroup);
    }
    let alts = split_range(&chars, open + 1, close, ',');
    let mut k: usize = 0;
    while k < alts.len()
        invariant
            k <= alts.len(),
            forall|i: int| 0 <= i < k ==> views(alts@)[i].len() != 0,
        decreases alts.len() - k,
    {
        if alts[k].as_str().is_empty() {
            assert(views(alts@)[k as int].len() == 0);
            assert(has_empty(views(alts@)));
            return Err(ExpandError::EmptyAlternative);
        }
        k += 1;
    }
    assert(!has_empty(views(alts@)));
    let head = s.substring_char(0, open);
    assert(head@ == s@.take(open as int));
    let mut out: Vec<String> = Vec::new();
    let mut i: usize = 0;
    while i < alts.len()
        invariant
            i <= alts.len(),
            views(out@) == cross(head@, views(alts@).take(i as int), views(tails@)),
        decreases alts.len() - i,
    {
        let ghost before = views(out@);
        let mut j: usize = 0;
        while j < tails.len()
            invariant
                i < alts.len(),
                j <= tails.len(),
                views(out@) == before + with_alternative(
                    head@,
                    alts@[i as int]@,
                    views(tails@),
                ).take(j as int),
            decreases tails.len() - j,
        {
            let mut x = String::new();
            x.append(head);
            x.append(alts[i].as_str());
            x.append(tails[j].as_str());
            proof {
                lemma_views_push(out@, x);
                let w = with_alternative(head@, alts@[i as int]@, views(tails@));
                assert(x@ == w[j as int]);
                assert(w.take(j + 1) == w.take(j as int).push(x@));
            }
            out.push(x);
            j += 1;
        }
        proof {
            let a = views(alts@);
            assert(a.take(i + 1).drop_last() == a.take(i as int));
            assert(a.take(i + 1).last() == alts@[i as int]@);
            let w = with_alternative(head@, alts@[i as int]@, views(tails@));
            assert(w.take(tails.len() as int) == w);
        }
        i += 1;
    }
    assert(views(alts@).take(alts.len() as int) == views(alts@));
    Ok(out)
}

} // verus!

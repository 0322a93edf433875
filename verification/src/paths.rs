//! Slash-separated paths, taken component by component.

use crate::config::same_text;
use crate::text::{split, split_range, to_chars, views};
use vstd::prelude::*;
use vstd::string::*;

verus! {

/// Whether a piece between two slashes is a component: empty pieces, which
/// come of doubled or trailing slashes, and `.` are not.
pub open spec fn is_part(piece: Seq<char>) -> bool {
    piece.len() > 0 && piece != seq!['.']
}

/// The pieces that are components, in order.
pub open spec fn parts(pieces: Seq<Seq<char>>) -> Seq<Seq<char>>
    decreases pieces.len(),
{
    if pieces.len() == 0 {
        Seq::empty()
    } else if is_part(pieces.last()) {
        parts(pieces.drop_last()).push(pieces.last())
    } else {
        parts(pieces.drop_last())
    }
}

/// The components of a path. A path that starts with a slash has the root,
/// written `/`, as its first component; one that starts with `./` or is `.`
/// has `.` as its first. After that come the names between the slashes.
pub open spec fn components(path: Seq<char>) -> Seq<Seq<char>> {
    let pieces = split(path, '/');
    if path.len() == 0 {
        Seq::empty()
    } else if path[0] == '/' {
        seq![seq!['/']] + parts(pieces)
    } else if pieces[0] == seq!['.'] {
        seq![seq!['.']] + parts(pieces.drop_first())
    } else {
        parts(pieces)
    }
}

/// Whether `a` starts with the components of `b`.
pub open spec fn is_prefix(b: Seq<Seq<char>>, a: Seq<Seq<char>>) -> bool {
    b.len() <= a.len() && a.take(b.len() as int) == b
}

/// Whether the path lies at or below `base`.
pub open spec fn starts_with(path: Seq<char>, base: Seq<char>) -> bool {
    is_prefix(components(base), components(path))
}

/// Components with a slash between each two.
pub open spec fn join(comps: Seq<Seq<char>>) -> Seq<char>
    decreases comps.len(),
{
    if comps.len() == 0 {
        Seq::empty()
    } else if comps.len() == 1 {
        comps[0]
    } else {
        join(comps.drop_last()) + seq!['/'] + comps.last()
    }
}

/// The path from `base` to a path that lies at or below it.
pub open spec fn relative_to(path: Seq<char>, base: Seq<char>) -> Option<Seq<char>> {
    if starts_with(path, base) {
        Some(join(components(path).skip(components(base).len() as int)))
    } else {
        None
    }
}

/// The components of a path.
pub fn path_components(path: &str) -> (r: Vec<String>)
    ensures
        views(r@) == components(path@),
{
    let chars = to_chars(path);
    let n = chars.len();
    let mut out: Vec<String> = Vec::new();
    if n == 0 {
        assert(views(out@) =~= Seq::<Seq<char>>::empty());
        return out;
    }
    assert(path@.subrange(0, n as int) == path@);
    let pieces = split_range(&chars, 0, n, '/');
    proof {
        crate::text::lemma_split_pieces(path@, '/');
        reveal_strlit("/");
        reveal_strlit(".");
        assert("/"@ =~= seq!['/']);
        assert("."@ =~= seq!['.']);
    }
    let ghost all = views(pieces@);
    let mut i: usize = 0;
    if chars[0] == '/' {
        out.push("/".to_owned());
        assert(views(out@) =~= seq![seq!['/']]);
    } else if same_text(pieces[0].as_str(), ".") {
        out.push(".".to_owned());
        assert(views(out@) =~= seq![seq!['.']]);
        i = 1;
    } else {
        assert(views(out@) =~= Seq::<Seq<char>>::empty());
    }
    let ghost head = views(out@);
    let ghost from = i as int;
    let ghost rest = all.skip(from);
    proof {
        assert(rest.take(0) =~= Seq::<Seq<char>>::empty());
        assert(head + parts(rest.take(0)) =~= head);
        if from == 1 {
            assert(rest == all.drop_first());
        } else {
            assert(rest == all);
        }
    }
    while i < pieces.len()
        invariant
            0 <= from <= i <= pieces.len(),
            all == views(pieces@),
            rest == all.skip(from),
            views(out@) == head + parts(rest.take(i - from)),
            "."@ == seq!['.'],
        decreases pieces.len() - i,
    {
        let piece = &pieces[i];
        let ghost upto = rest.take(i - from + 1);
        proof {
            assert(upto.drop_last() == rest.take(i - from));
            assert(upto.last() == piece@);
        }
        if !piece.as_str().is_empty() && !same_text(piece.as_str(), ".") {
            proof {
                crate::text::lemma_views_push(out@, *piece);
                assert(head + parts(rest.take(i - from)).push(piece@) == (head + parts(
                    rest.take(i - from),
                )).push(piece@));
            }
            out.push(piece.clone());
        }
        i += 1;
    }
    assert(rest.take(pieces.len() - from) == rest);
    out
}

/// The path from `base` to `path`, where `path` lies at or below `base`.
pub fn strip_prefix(path: &str, base: &str) -> (r: Option<String>)
    ensures
        match relative_to(path@, base@) {
            Some(p) => r is Some && r->Some_0@ == p,
            None => r is None,
        },
{
    let a = path_components(path);
    let b = path_components(base);
    if b.len() > a.len() {
        return None;
    }
    let mut i: usize = 0;
    while i < b.len()
        invariant
            i <= b.len() <= a.len(),
            views(a@) == components(path@),
            views(b@) == components(base@),
            views(a@).take(i as int) == views(b@).take(i as int),
        decreases b.len() - i,
    {
        if !same_text(a[i].as_str(), b[i].as_str()) {
            proof {
                let k = b.len() as int;
                if views(a@).take(k) == views(b@) {
                    assert(views(a@).take(k)[i as int] == views(b@)[i as int]);
                }
            }
            return None;
        }
        proof {
            assert(views(a@).take(i + 1) =~= views(a@).take(i as int).push(a@[i as int]@));
            assert(views(b@).take(i + 1) =~= views(b@).take(i as int).push(b@[i as int]@));
        }
        i += 1;
    }
    assert(views(b@).take(b.len() as int) == views(b@));
    let mut out = String::new();
    let ghost rest = views(a@).skip(b.len() as int);
    let mut k: usize = b.len();
    proof {
        reveal_strlit("/");
        assert(rest.take(0) =~= Seq::<Seq<char>>::empty());
    }
    while k < a.len()
        invariant
            b.len() <= k <= a.len(),
            rest == views(a@).skip(b.len() as int),
            out@ == join(rest.take(k - b.len())),
            "/"@.len() == 1,
            "/"@[0] == '/',
        decreases a.len() - k,
    {
        let ghost upto = rest.take(k - b.len() + 1);
        proof {
            assert(upto.drop_last() == rest.take(k - b.len()));
            assert(upto.last() == a@[k as int]@);
        }
        if k > b.len() {
            out.append("/");
            assert("/"@ =~= seq!['/']);
        } else {
            assert(out@ =~= Seq::<char>::empty());
            assert(upto[0] == a@[k as int]@);
        }
        out.append(a[k].as_str());
        assert(out@ =~= join(upto));
        k += 1;
    }
    assert(rest.take(a.len() - b.len()) == rest);
    Some(out)
}

/// Whether the path lies at or below `base`.
pub fn path_starts_with(path: &str, base: &str) -> (r: bool)
    ensures
        r == starts_with(path@, base@),
{
    strip_prefix(path, base).is_some()
}

} // verus!

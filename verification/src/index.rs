//! Reading the index of a container back, and the proof that it gives what
//! the packer recorded.

use crate::bundlev1::{
    index_text, joined, laid_out, slice_line, slice_lines, slices_of, FileSlice, PackState, Slice,
};
use crate::text::{
    decimal, decimal_value, digit_value, first_index, is_decimal, is_space, is_word, last_index,
    lemma_decimal_value, lemma_first_index_bounds, lemma_first_index_is, lemma_last_index_is,
    lemma_tokens_skip_spaces, lemma_tokens_word, lines, parse_decimal, split_lines, strip_cr,
    tokenize, tokens, views,
};
use vstd::prelude::*;
use vstd::string::*;

verus! {

/// What a line of the index says of a file: five words, the first three of
/// them numbers that fit their fields.
pub open spec fn parse_slice(line: Seq<char>) -> Option<Slice> {
    let t = tokens(line);
    if t.len() == 5 && is_decimal(t[0]) && is_decimal(t[1]) && is_decimal(t[2]) && decimal_value(
        t[0],
    ) <= u64::MAX && decimal_value(t[1]) <= u32::MAX && decimal_value(t[2]) <= u32::MAX {
        Some(
            Slice {
                start: decimal_value(t[0]) as int,
                gzip_len: decimal_value(t[1]) as int,
                real_len: decimal_value(t[2]) as int,
                path: t[3],
                hash: t[4],
            },
        )
    } else {
        None
    }
}

/// What rows of the index say, if every one of them names a file.
pub open spec fn parse_rows(rows: Seq<Seq<char>>) -> Option<Seq<Slice>>
    decreases rows.len(),
{
    if rows.len() == 0 {
        Some(Seq::empty())
    } else {
        match (parse_rows(rows.drop_last()), parse_slice(rows.last())) {
            (Some(v), Some(s)) => Some(v.push(s)),
            _ => None,
        }
    }
}

/// The files that the text of an index lists: what the rows after the last
/// `[FILELIST]` row say. The list of files is the last section of an index,
/// and no row of it reads `[FILELIST]`.
pub open spec fn parse_index(text: Seq<char>) -> Option<Seq<Slice>> {
    let rows = lines(text);
    let k = last_index(rows, "[FILELIST]"@);
    if 0 <= k < rows.len() {
        parse_rows(rows.skip(k + 1))
    } else {
        None
    }
}

/// Reads a file's line of the index.
pub fn parse_index_line(line: &str) -> (r: Option<FileSlice>)
    ensures
        match parse_slice(line@) {
            Some(s) => r is Some && r->Some_0@ == s,
            None => r is None,
        },
{
    let t = tokenize(line);
    if t.len() != 5 {
        return None;
    }
    proof {
        assert(views(t@)[0] == t@[0]@);
        assert(views(t@)[1] == t@[1]@);
        assert(views(t@)[2] == t@[2]@);
        assert(views(t@)[3] == t@[3]@);
        assert(views(t@)[4] == t@[4]@);
    }
    let start = match parse_decimal(t[0].as_str()) {
        Some(v) => v,
        None => {
            return None;
        },
    };
    let gzip_len = match parse_decimal(t[1].as_str()) {
        Some(v) => v,
        None => {
            return None;
        },
    };
    let real_len = match parse_decimal(t[2].as_str()) {
        Some(v) => v,
        None => {
            return None;
        },
    };
    if gzip_len > u32::MAX as u64 || real_len > u32::MAX as u64 {
        return None;
    }
    Some(
        FileSlice {
            start,
            gzip_len: gzip_len as u32,
            real_len: real_len as u32,
            path: t[3].clone(),
            hash: t[4].clone(),
        },
    )
}

/// Reads the files that the text of an index lists; `None` where the text has
/// no `[FILELIST]` row or a row after it names no file.
pub fn read_index(text: &str) -> (r: Option<Vec<FileSlice>>)
    ensures
        match parse_index(text@) {
            Some(v) => r is Some && slices_of(r->Some_0@) == v,
            None => r is None,
        },
{
    let rows = split_lines(text);
    let marker = "[FILELIST]".to_owned();
    let mut after: usize = rows.len();
    while after > 0 && rows[after - 1] != marker
        invariant
            after <= rows.len(),
            marker@ == "[FILELIST]"@,
            forall|j: int| after <= j < rows.len() ==> views(rows@)[j] != "[FILELIST]"@,
        decreases after,
    {
        assert(views(rows@)[after - 1] == rows@[after - 1]@);
        after -= 1;
    }
    proof {
        if after > 0 {
            assert(views(rows@)[after - 1] == rows@[after - 1]@);
        }
        lemma_last_index_is(views(rows@), "[FILELIST]"@, after - 1);
    }
    if after == 0 {
        return None;
    }
    let k = after - 1;
    let mut out: Vec<FileSlice> = Vec::new();
    let mut i: usize = k + 1;
    let ghost rest = views(rows@).skip(k + 1);
    assert(rest.take(0) == Seq::<Seq<char>>::empty());
    assert(slices_of(out@) == Seq::<Slice>::empty());
    while i < rows.len()
        invariant
            k < i <= rows.len(),
            views(rows@) == lines(text@),
            last_index(views(rows@), "[FILELIST]"@) == k,
            rest == views(rows@).skip(k + 1),
            parse_rows(rest.take(i - k - 1)) == Some(slices_of(out@)),
        decreases rows.len() - i,
    {
        let ghost upto = rest.take(i - k);
        proof {
            assert(upto.drop_last() == rest.take(i - k - 1));
            assert(upto.last() == rows@[i as int]@);
        }
        match parse_index_line(rows[i].as_str()) {
            Some(s) => {
                assert(slices_of(out@.push(s)) == slices_of(out@).push(s@));
                out.push(s);
            },
            None => {
                proof {
                    lemma_parse_rows_prefix(rest, i - k);
                }
                return None;
            },
        }
        i += 1;
    }
    assert(rest.take(rows.len() - k - 1) == rest);
    Some(out)
}

/// Rows that name files start with rows that name files.
proof fn lemma_parse_rows_prefix(rows: Seq<Seq<char>>, k: int)
    requires
        0 <= k <= rows.len(),
        parse_rows(rows.take(k)) is None,
    ensures
        parse_rows(rows) is None,
    decreases rows.len() - k,
{
    if k < rows.len() {
        assert(rows.take(k + 1).drop_last() == rows.take(k));
        lemma_parse_rows_prefix(rows, k + 1);
    } else {
        assert(rows.take(k) == rows);
    }
}

/// A word is the one token of itself.
proof fn lemma_tokens_one_word(w: Seq<char>)
    requires
        is_word(w),
    ensures
        tokens(w) == seq![w],
{
    lemma_tokens_word(w, Seq::empty());
    assert(w + Seq::<char>::empty() == w);
    assert(tokens(Seq::<char>::empty()) == Seq::<Seq<char>>::empty());
}

/// A space, a word and more text that starts with a space or is empty.
proof fn lemma_tokens_space_word(w: Seq<char>, rest: Seq<char>)
    requires
        is_word(w),
        rest.len() > 0 ==> is_space(rest[0]),
    ensures
        tokens(seq![' '] + (w + rest)) == seq![w] + tokens(rest),
{
    let s = seq![' '] + (w + rest);
    assert(s[0] == ' ');
    lemma_tokens_skip_spaces(s, 1);
    assert(s.skip(1) == w + rest);
    lemma_tokens_word(w, rest);
}

/// A file's line reads back as the file.
pub proof fn lemma_slice_line_round_trip(s: Slice)
    requires
        0 <= s.start <= u64::MAX,
        0 <= s.gzip_len <= u32::MAX,
        0 <= s.real_len <= u32::MAX,
        is_word(s.path),
        is_word(s.hash),
    ensures
        parse_slice(slice_line(s)) == Some(s),
{
    let d0 = decimal(s.start as nat);
    let d1 = decimal(s.gzip_len as nat);
    let d2 = decimal(s.real_len as nat);
    lemma_decimal_value(s.start as nat);
    lemma_decimal_value(s.gzip_len as nat);
    lemma_decimal_value(s.real_len as nat);
    let sp = seq![' '];
    let r4 = sp + (s.hash + Seq::<char>::empty());
    let r3 = sp + (s.path + r4);
    let r2 = sp + (d2 + r3);
    let r1 = sp + (d1 + r2);
    assert(slice_line(s) =~= d0 + r1);
    assert(r1[0] == ' ' && r2[0] == ' ' && r3[0] == ' ' && r4[0] == ' ');
    lemma_tokens_word(d0, r1);
    lemma_tokens_space_word(d1, r2);
    lemma_tokens_space_word(d2, r3);
    lemma_tokens_space_word(s.path, r4);
    lemma_tokens_space_word(s.hash, Seq::empty());
    assert(tokens(Seq::<char>::empty()) == Seq::<Seq<char>>::empty());
    assert(tokens(slice_line(s)) =~= seq![d0, d1, d2, s.path, s.hash]);
}

/// The first of joined rows can be taken off the front.
proof fn lemma_joined_front(rows: Seq<Seq<char>>)
    requires
        rows.len() > 0,
    ensures
        joined(rows) == rows[0] + seq!['\n'] + joined(rows.drop_first()),
    decreases rows.len(),
{
    if rows.len() == 1 {
        assert(rows.drop_last() == Seq::<Seq<char>>::empty());
        assert(rows.drop_first() == Seq::<Seq<char>>::empty());
        assert(joined(rows) =~= rows[0] + seq!['\n'] + joined(rows.drop_first()));
    } else {
        let front = rows.drop_last();
        lemma_joined_front(front);
        assert(front.drop_first() == rows.drop_first().drop_last());
        assert(rows.drop_first().last() == rows.last());
        assert(joined(rows) =~= rows[0] + seq!['\n'] + joined(rows.drop_first()));
    }
}

/// Joining two lists of rows joins their texts.
proof fn lemma_joined_concat(a: Seq<Seq<char>>, b: Seq<Seq<char>>)
    ensures
        joined(a + b) == joined(a) + joined(b),
    decreases b.len(),
{
    if b.len() == 0 {
        assert(a + b == a);
        assert(joined(a) + joined(b) =~= joined(a));
    } else {
        lemma_joined_concat(a, b.drop_last());
        assert((a + b).drop_last() == a + b.drop_last());
        assert((a + b).last() == b.last());
        assert(joined(a + b) =~= joined(a) + joined(b));
    }
}

/// The lines of a text that starts with a row and a line feed.
proof fn lemma_lines_front(x: Seq<char>, rest: Seq<char>)
    requires
        !x.contains('\n'),
    ensures
        lines(x + seq!['\n'] + rest) == seq![strip_cr(x)] + lines(rest),
{
    let s = x + seq!['\n'] + rest;
    assert forall|j: int| 0 <= j < x.len() implies s[j] != '\n' by {
        assert(s[j] == x[j]);
        assert(x.contains(x[j]));
    }
    assert(s[x.len() as int] == '\n');
    lemma_first_index_is(s, '\n', x.len() as int);
    assert(s.take(x.len() as int) == x);
    assert(s.skip(x.len() as int + 1) == rest);
}

/// Rows without line feeds, joined, read back as the rows, each without a
/// carriage return at its end.
proof fn lemma_lines_joined(rows: Seq<Seq<char>>)
    requires
        forall|i: int| 0 <= i < rows.len() ==> !(#[trigger] rows[i]).contains('\n'),
    ensures
        lines(joined(rows)) == Seq::new(rows.len(), |i: int| strip_cr(rows[i])),
    decreases rows.len(),
{
    let want = Seq::new(rows.len(), |i: int| strip_cr(rows[i]));
    if rows.len() == 0 {
        assert(lines(joined(rows)) =~= want);
    } else {
        let rest = rows.drop_first();
        lemma_joined_front(rows);
        assert forall|i: int| 0 <= i < rest.len() implies !(#[trigger] rest[i]).contains('\n') by {
            assert(rest[i] == rows[i + 1]);
        }
        lemma_lines_joined(rest);
        lemma_lines_front(rows[0], joined(rest));
        assert(lines(joined(rows)) =~= want);
    }
}

/// No line of a text holds a line feed.
proof fn lemma_lines_hold_no_feed(s: Seq<char>)
    ensures
        forall|i: int| 0 <= i < lines(s).len() ==> !(#[trigger] lines(s)[i]).contains('\n'),
    decreases s.len(),
{
    let k = first_index(s, '\n');
    lemma_first_index_bounds(s, '\n');
    if s.len() == 0 {
    } else if k < s.len() {
        let rest = s.skip(k + 1);
        lemma_lines_hold_no_feed(rest);
        assert forall|i: int| 0 <= i < lines(s).len() implies !(#[trigger] lines(s)[i]).contains(
            '\n',
        ) by {
            if i == 0 {
                let x = strip_cr(s.take(k));
                if x.contains('\n') {
                    let p = choose|p: int| 0 <= p < x.len() && x[p] == '\n';
                    assert(s[p] == '\n');
                }
            } else {
                assert(lines(s)[i] == lines(rest)[i - 1]);
            }
        }
    } else {
        assert(lines(s)[0] == s);
    }
}

/// A file's line holds no line feed and does not end with a carriage return.
proof fn lemma_slice_line_plain(s: Slice)
    requires
        0 <= s.start,
        0 <= s.gzip_len,
        0 <= s.real_len,
        is_word(s.path),
        is_word(s.hash),
    ensures
        !slice_line(s).contains('\n'),
        strip_cr(slice_line(s)) == slice_line(s),
{
    let d0 = decimal(s.start as nat);
    let d1 = decimal(s.gzip_len as nat);
    let d2 = decimal(s.real_len as nat);
    lemma_decimal_value(s.start as nat);
    lemma_decimal_value(s.gzip_len as nat);
    lemma_decimal_value(s.real_len as nat);
    let l = slice_line(s);
    assert(is_space('\n') && is_space('\r'));
    assert(l.last() == s.hash.last());
    if l.contains('\n') {
        let p = choose|p: int| 0 <= p < l.len() && l[p] == '\n';
        let a = d0.len() as int;
        let b = a + 1 + d1.len();
        let c = b + 1 + d2.len();
        let d = c + 1 + s.path.len();
        if p < a {
            assert(l[p] == d0[p]);
        } else if p == a {
        } else if p < b {
            assert(l[p] == d1[p - a - 1]);
        } else if p == b {
        } else if p < c {
            assert(l[p] == d2[p - b - 1]);
        } else if p == c {
        } else if p < d {
            assert(l[p] == s.path[p - c - 1]);
        } else if p == d {
        } else {
            assert(l[p] == s.hash[p - d - 1]);
        }
    }
}

/// The lines of the files are their lines joined.
proof fn lemma_slice_lines_joined(slices: Seq<Slice>)
    ensures
        slice_lines(slices) == joined(Seq::new(slices.len(), |i: int| slice_line(slices[i]))),
    decreases slices.len(),
{
    let rows = Seq::new(slices.len(), |i: int| slice_line(slices[i]));
    if slices.len() == 0 {
    } else {
        let front = slices.drop_last();
        lemma_slice_lines_joined(front);
        assert(rows.drop_last() =~= Seq::new(front.len(), |i: int| slice_line(front[i])));
    }
}

/// Rows that are the lines of files read back as the files.
proof fn lemma_parse_rows_round_trip(slices: Seq<Slice>)
    requires
        forall|i: int|
            0 <= i < slices.len() ==> {
                let s = #[trigger] slices[i];
                &&& 0 <= s.start <= u64::MAX
                &&& 0 <= s.gzip_len <= u32::MAX
                &&& 0 <= s.real_len <= u32::MAX
                &&& is_word(s.path)
                &&& is_word(s.hash)
            },
    ensures
        parse_rows(Seq::new(slices.len(), |i: int| slice_line(slices[i]))) == Some(slices),
    decreases slices.len(),
{
    let rows = Seq::new(slices.len(), |i: int| slice_line(slices[i]));
    if slices.len() == 0 {
        assert(slices =~= Seq::<Slice>::empty());
    } else {
        let front = slices.drop_last();
        assert forall|i: int| 0 <= i < front.len() implies {
            let s = #[trigger] front[i];
            &&& 0 <= s.start <= u64::MAX
            &&& 0 <= s.gzip_len <= u32::MAX
            &&& 0 <= s.real_len <= u32::MAX
            &&& is_word(s.path)
            &&& is_word(s.hash)
        } by {
            assert(front[i] == slices[i]);
        }
        lemma_parse_rows_round_trip(front);
        assert(rows.drop_last() =~= Seq::new(front.len(), |i: int| slice_line(front[i])));
        let last = slices.last();
        assert(last == slices[slices.len() - 1]);
        lemma_slice_line_round_trip(last);
        assert(front.push(last) =~= slices);
    }
}

/// The start of every laid-out file fits in 64 bits.
proof fn lemma_laid_out_starts(state: PackState, i: int)
    requires
        laid_out(state),
        0 <= i < state.slices.len(),
    ensures
        0 <= state.slices[i].start <= u64::MAX,
{
    lemma_end_of_monotone(state.slices, i);
}

proof fn lemma_end_of_monotone(slices: Seq<Slice>, i: int)
    requires
        0 <= i <= slices.len(),
        forall|k: int| 0 <= k < slices.len() ==> 0 <= (#[trigger] slices[k]).gzip_len,
    ensures
        crate::bundlev1::HEADER_SIZE <= crate::bundlev1::end_of(slices.take(i))
            <= crate::bundlev1::end_of(slices),
    decreases slices.len() - i,
{
    if i < slices.len() {
        lemma_end_of_monotone(slices, i + 1);
        assert(slices.take(i + 1).drop_last() == slices.take(i));
        lemma_end_of_low(slices.take(i));
    } else {
        assert(slices.take(i) == slices);
        lemma_end_of_low(slices);
    }
}

proof fn lemma_end_of_low(slices: Seq<Slice>)
    requires
        forall|k: int| 0 <= k < slices.len() ==> 0 <= (#[trigger] slices[k]).gzip_len,
    ensures
        crate::bundlev1::HEADER_SIZE <= crate::bundlev1::end_of(slices),
    decreases slices.len(),
{
    if slices.len() > 0 {
        let front = slices.drop_last();
        assert forall|k: int| 0 <= k < front.len() implies 0 <= (#[trigger] front[k]).gzip_len by {
            assert(front[k] == slices[k]);
        }
        lemma_end_of_low(front);
    }
}

/// Reading the index gives the files back that the packer recorded, each with
/// its place, its two lengths, its path and its digest, in the order of
/// writing, whatever the search order holds.
pub proof fn lemma_index_round_trip(search: Seq<char>, state: PackState)
    requires
        laid_out(state),
    ensures
        parse_index(index_text(search, state.slices)) == Some(state.slices),
{
    reveal_strlit("[DEFAULTSEARCH]\nMAIN\n[SEARCH:MAIN]\n");
    reveal_strlit("[FILELIST]\n");
    reveal_strlit("[FILELIST]");
    reveal_strlit("[DEFAULTSEARCH]");
    reveal_strlit("MAIN");
    reveal_strlit("[SEARCH:MAIN]");
    let marker = "[FILELIST]"@;
    let slices = state.slices;
    let a = seq!["[DEFAULTSEARCH]"@, "MAIN"@, "[SEARCH:MAIN]"@];
    let b = lines(search);
    let c = seq![marker];
    let d = Seq::new(slices.len(), |i: int| slice_line(slices[i]));
    assert(joined(a) =~= "[DEFAULTSEARCH]\nMAIN\n[SEARCH:MAIN]\n"@) by {
        reveal_with_fuel(joined, 4);
        assert(a.drop_last() =~= seq!["[DEFAULTSEARCH]"@, "MAIN"@]);
        assert(a.drop_last().drop_last() =~= seq!["[DEFAULTSEARCH]"@]);
        assert(a.drop_last().drop_last().drop_last() =~= Seq::<Seq<char>>::empty());
    }
    assert(joined(c) =~= "[FILELIST]\n"@) by {
        reveal_with_fuel(joined, 2);
        assert(c.drop_last() =~= Seq::<Seq<char>>::empty());
    }
    lemma_slice_lines_joined(slices);
    let all = a + b + c + d;
    lemma_joined_concat(a, b);
    lemma_joined_concat(a + b, c);
    lemma_joined_concat(a + b + c, d);
    assert(index_text(search, slices) == joined(all));
    lemma_lines_hold_no_feed(search);
    assert forall|i: int| 0 <= i < all.len() implies !(#[trigger] all[i]).contains('\n') by {
        if i < 3 {
            let x = all[i];
            if x.contains('\n') {
                let p = choose|p: int| 0 <= p < x.len() && x[p] == '\n';
            }
        } else if i < 3 + b.len() {
            assert(all[i] == b[i - 3]);
        } else if i == 3 + b.len() {
            let x = all[i];
            assert(x == marker);
            if x.contains('\n') {
                let p = choose|p: int| 0 <= p < x.len() && x[p] == '\n';
            }
        } else {
            let k = i - 4 - b.len();
            assert(all[i] == slice_line(slices[k]));
            lemma_laid_out_starts(state, k);
            lemma_slice_line_plain(slices[k]);
        }
    }
    lemma_lines_joined(all);
    let rows = lines(joined(all));
    let at = 3 + b.len() as int;
    assert(rows[at] == strip_cr(marker));
    assert(strip_cr(marker) == marker);
    assert forall|j: int| at < j < rows.len() implies rows[j] != marker by {
        let k = j - at - 1;
        assert(rows[j] == strip_cr(all[j]));
        assert(all[j] == slice_line(slices[k]));
        lemma_laid_out_starts(state, k);
        lemma_slice_line_plain(slices[k]);
        lemma_decimal_value(slices[k].start as nat);
        let number = decimal(slices[k].start as nat);
        assert(slice_line(slices[k])[0] == number[0]);
        assert(digit_value(number[0]) is Some);
        assert(marker[0] == '[');
    }
    lemma_last_index_is(rows, marker, at);
    assert(rows.skip(at + 1) =~= d) by {
        assert forall|k: int| 0 <= k < d.len() implies rows.skip(at + 1)[k] == d[k] by {
            assert(rows[at + 1 + k] == strip_cr(all[at + 1 + k]));
            assert(all[at + 1 + k] == slice_line(slices[k]));
            lemma_laid_out_starts(state, k);
            lemma_slice_line_plain(slices[k]);
        }
    }
    assert forall|i: int| 0 <= i < slices.len() implies {
        let s = #[trigger] slices[i];
        &&& 0 <= s.start <= u64::MAX
        &&& 0 <= s.gzip_len <= u32::MAX
        &&& 0 <= s.real_len <= u32::MAX
        &&& is_word(s.path)
        &&& is_word(s.hash)
    } by {
        lemma_laid_out_starts(state, i);
    }
    lemma_parse_rows_round_trip(slices);
}

} // verus!

//! The version 1 container: a fixed header, the files as gzip streams one
//! after the other, and a compressed index that says where each one lies.

use crate::compress::{gzip, gzip_stream};
use crate::digest::{hex, hex_decode, is_hex, lemma_unhex_hex, unhex};
use crate::error::BuildError;
use crate::text::{
    char_is_space, decimal, is_space, is_word, lines, push_decimal, split_lines, substring,
    to_chars, tokenize, tokens, trim, trim_str, views,
};
use vstd::prelude::*;
use vstd::string::*;

verus! {

/// The length of the header: the files start here.
pub const HEADER_SIZE: u64 = 66;

/// Where a file lies in the container, and what the manifest says of it.
pub struct FileSlice {
    /// The offset of the file's gzip stream.
    pub start: u64,
    /// The length of the gzip stream.
    pub gzip_len: u32,
    /// The length of the file.
    pub real_len: u32,
    /// The file's path, as the manifest writes it.
    pub path: String,
    /// The file's digest in hexadecimal, or `nohash`.
    pub hash: String,
}

/// A `FileSlice` as plain values.
pub struct Slice {
    pub start: int,
    pub gzip_len: int,
    pub real_len: int,
    pub path: Seq<char>,
    pub hash: Seq<char>,
}

impl View for FileSlice {
    type V = Slice;

    open spec fn view(&self) -> Slice {
        Slice {
            start: self.start as int,
            gzip_len: self.gzip_len as int,
            real_len: self.real_len as int,
            path: self.path@,
            hash: self.hash@,
        }
    }
}

/// The slices of a list of files.
pub open spec fn slices_of(v: Seq<FileSlice>) -> Seq<Slice> {
    Seq::new(v.len(), |i: int| v[i]@)
}

/// What a packer knows: the files written so far, where the next one goes,
/// and where the index was written.
pub struct PackState {
    pub slices: Seq<Slice>,
    pub position: int,
    pub index_start: int,
    pub index_gzip_len: int,
    pub index_real_len: int,
}

/// The state before any file: the first one goes right after the header.
pub open spec fn initial_state() -> PackState {
    PackState {
        slices: Seq::empty(),
        position: HEADER_SIZE as int,
        index_start: 0,
        index_gzip_len: 0,
        index_real_len: 0,
    }
}

/// The offset after the last of `slices`, where they lie one after the other
/// from the end of the header.
pub open spec fn end_of(slices: Seq<Slice>) -> int
    decreases slices.len(),
{
    if slices.len() == 0 {
        HEADER_SIZE as int
    } else {
        end_of(slices.drop_last()) + slices.last().gzip_len
    }
}

/// The files lie one after the other from the end of the header, each length
/// fits in 32 bits, and each path and digest is a word.
pub open spec fn laid_out(state: PackState) -> bool {
    &&& state.position == end_of(state.slices)
    &&& state.position <= u64::MAX
    &&& forall|i: int|
        0 <= i < state.slices.len() ==> {
            let s = #[trigger] state.slices[i];
            &&& s.start == end_of(state.slices.take(i))
            &&& 0 <= s.gzip_len <= u32::MAX
            &&& 0 <= s.real_len <= u32::MAX
            &&& is_word(s.path)
            &&& is_word(s.hash)
        }
}

/// Recording a file of `real_len` bytes whose gzip stream has `gzip_len`:
/// it is placed at the current position.
pub open spec fn add_slice_spec(
    state: PackState,
    path: Seq<char>,
    hash: Seq<char>,
    real_len: int,
    gzip_len: int,
) -> Result<PackState, BuildError> {
    if real_len > u32::MAX || gzip_len > u32::MAX || state.position + gzip_len > u64::MAX {
        Err(BuildError::SizeOverflow)
    } else if !is_word(path) || !is_word(hash) {
        Err(BuildError::MalformedFilelist)
    } else {
        Ok(
            PackState {
                slices: state.slices.push(
                    Slice { start: state.position, gzip_len, real_len, path, hash },
                ),
                position: state.position + gzip_len,
                ..state
            },
        )
    }
}

/// Compressing and recording a file: the new state and the file's gzip stream.
pub open spec fn add_file_spec(
    state: PackState,
    path: Seq<char>,
    hash: Seq<char>,
    content: Seq<u8>,
) -> Result<(PackState, Seq<u8>), BuildError> {
    if content.len() > u32::MAX {
        Err(BuildError::SizeOverflow)
    } else {
        match gzip_stream(content) {
            None => Err(BuildError::ContainerWriteFailed),
            Some(blob) => match add_slice_spec(
                state,
                path,
                hash,
                content.len() as int,
                blob.len() as int,
            ) {
                Ok(next) => Ok((next, blob)),
                Err(e) => Err(e),
            },
        }
    }
}

/// A file's line in the index.
pub open spec fn slice_line(s: Slice) -> Seq<char> {
    decimal(s.start as nat) + seq![' '] + decimal(s.gzip_len as nat) + seq![' '] + decimal(
        s.real_len as nat,
    ) + seq![' '] + s.path + seq![' '] + s.hash
}

/// The lines of the files, each with a line feed.
pub open spec fn slice_lines(slices: Seq<Slice>) -> Seq<char>
    decreases slices.len(),
{
    if slices.len() == 0 {
        Seq::empty()
    } else {
        slice_lines(slices.drop_last()) + slice_line(slices.last()) + seq!['\n']
    }
}

/// Lines of text, each with a line feed.
pub open spec fn joined(rows: Seq<Seq<char>>) -> Seq<char>
    decreases rows.len(),
{
    if rows.len() == 0 {
        Seq::empty()
    } else {
        joined(rows.drop_last()) + rows.last() + seq!['\n']
    }
}

/// The text of the index: the name of the default search order, the lines of
/// that search order, and a line for each file in the order of writing.
pub open spec fn index_text(search: Seq<char>, slices: Seq<Slice>) -> Seq<char> {
    "[DEFAULTSEARCH]\nMAIN\n[SEARCH:MAIN]\n"@ + joined(lines(search)) + "[FILELIST]\n"@
        + slice_lines(slices)
}

/// Compressing and recording the index for the files written so far.
pub open spec fn write_index_spec(state: PackState, search: Seq<char>) -> Result<
    (PackState, Seq<u8>),
    BuildError,
> {
    let bytes = vstd::utf8::encode_utf8(index_text(search, state.slices));
    if bytes.len() > u32::MAX {
        Err(BuildError::SizeOverflow)
    } else {
        match gzip_stream(bytes) {
            None => Err(BuildError::ContainerWriteFailed),
            Some(blob) => if blob.len() > u32::MAX {
                Err(BuildError::SizeOverflow)
            } else {
                Ok(
                    (
                        PackState {
                            index_start: state.position,
                            index_gzip_len: blob.len() as int,
                            index_real_len: bytes.len() as int,
                            ..state
                        },
                        blob,
                    ),
                )
            },
        }
    }
}

/// The `n` low bytes of `v`, the lowest first.
pub open spec fn le_bytes(v: nat, n: nat) -> Seq<u8>
    decreases n,
{
    if n == 0 {
        Seq::empty()
    } else {
        seq![(v % 256) as u8] + le_bytes(v / 256, (n - 1) as nat)
    }
}

/// The 14 bytes that every container starts with: `tectonicbundle`.
pub open spec fn magic() -> Seq<u8> {
    seq![116u8, 101u8, 99u8, 116u8, 111u8, 110u8, 105u8, 99u8, 98u8, 117u8, 110u8, 100u8, 108u8, 101u8]
}

/// The header: the magic bytes, the version 1, where the index lies and how
/// long it is, compressed and not, and the bundle digest.
pub open spec fn header_bytes(state: PackState, digest: Seq<u8>) -> Seq<u8> {
    magic() + le_bytes(1, 4) + le_bytes(state.index_start as nat, 8) + le_bytes(
        state.index_gzip_len as nat,
        4,
    ) + le_bytes(state.index_real_len as nat, 4) + digest
}

/// The header for a bundle digest given as text: 64 hexadecimal digits, with
/// white space around them or none.
pub open spec fn write_header_spec(state: PackState, sha256sum: Seq<char>) -> Result<
    Seq<u8>,
    BuildError,
> {
    let digits = trim(sha256sum);
    if is_hex(digits) && digits.len() == 64 {
        Ok(header_bytes(state, unhex(digits)))
    } else {
        Err(BuildError::MalformedDigest)
    }
}

/// `n` bytes are `n` bytes long.
pub proof fn lemma_le_bytes_len(v: nat, n: nat)
    ensures
        le_bytes(v, n).len() == n,
    decreases n,
{
    if n > 0 {
        lemma_le_bytes_len(v / 256, (n - 1) as nat);
    }
}

/// The header is 66 bytes long and its last 32 bytes are the digest.
pub proof fn lemma_header_layout(state: PackState, digest: Seq<u8>)
    requires
        digest.len() == 32,
    ensures
        header_bytes(state, digest).len() == HEADER_SIZE,
        header_bytes(state, digest).subrange(0, 14) == magic(),
        header_bytes(state, digest).subrange(14, 18) == seq![1u8, 0u8, 0u8, 0u8],
        header_bytes(state, digest).subrange(18, 26) == le_bytes(state.index_start as nat, 8),
        header_bytes(state, digest).subrange(26, 30) == le_bytes(state.index_gzip_len as nat, 4),
        header_bytes(state, digest).subrange(30, 34) == le_bytes(state.index_real_len as nat, 4),
        header_bytes(state, digest).subrange(34, 66) == digest,
{
    lemma_le_bytes_len(1, 4);
    lemma_le_bytes_len(state.index_start as nat, 8);
    lemma_le_bytes_len(state.index_gzip_len as nat, 4);
    lemma_le_bytes_len(state.index_real_len as nat, 4);
    let h = header_bytes(state, digest);
    assert(h.subrange(0, 14) =~= magic());
    assert(h.subrange(14, 18) =~= le_bytes(1, 4));
    assert(le_bytes(1, 4) =~= seq![1u8, 0u8, 0u8, 0u8]) by {
        reveal_with_fuel(le_bytes, 5);
    }
    assert(h.subrange(18, 26) =~= le_bytes(state.index_start as nat, 8));
    assert(h.subrange(26, 30) =~= le_bytes(state.index_gzip_len as nat, 4));
    assert(h.subrange(30, 34) =~= le_bytes(state.index_real_len as nat, 4));
    assert(h.subrange(34, 66) =~= digest);
}

/// The header holds the bundle digest that the content tree spells out: for
/// a digest written as 64 hexadecimal digits and a line feed, the last 32
/// bytes of the header are the digest.
pub proof fn lemma_header_holds_digest(state: PackState, digest: Seq<u8>)
    requires
        digest.len() == 32,
    ensures
        write_header_spec(state, hex(digest) + seq!['\n']) == Ok::<Seq<u8>, BuildError>(
            header_bytes(state, digest),
        ),
        header_bytes(state, digest).subrange(34, 66) == digest,
{
    let digits = hex(digest);
    let text = digits + seq!['\n'];
    lemma_unhex_hex(digest);
    assert forall|i: int| 0 <= i < digits.len() implies !is_space(#[trigger] digits[i]) by {
        let b = digest[i / 2] as int;
        assert(0 <= b / 16 < 16 && 0 <= b % 16 < 16);
    }
    assert(text[0] == digits[0]);
    crate::text::lemma_leading_spaces(text, 0);
    assert(text.skip(0) == text);
    assert(text[text.len() - 1] == '\n');
    assert(text[text.len() - 2] == digits[63]);
    crate::text::lemma_trailing_spaces(text, 1);
    assert(text.take(text.len() - 1) == digits);
    lemma_header_layout(state, digest);
}

/// The size cap: a file that is longer than 32 bits can say, or whose gzip
/// stream is, is refused with `SizeOverflow`, whatever else holds of it.
pub proof fn lemma_size_cap(state: PackState, path: Seq<char>, hash: Seq<char>, content: Seq<u8>)
    ensures
        content.len() > u32::MAX ==> add_file_spec(state, path, hash, content) == Err::<
            (PackState, Seq<u8>),
            BuildError,
        >(BuildError::SizeOverflow),
        gzip_stream(content) is Some && gzip_stream(content)->Some_0.len() > u32::MAX
            ==> add_file_spec(state, path, hash, content) == Err::<
            (PackState, Seq<u8>),
            BuildError,
        >(BuildError::SizeOverflow),
        forall|real_len: int, gzip_len: int|
            real_len > u32::MAX || gzip_len > u32::MAX ==> #[trigger] add_slice_spec(
                state,
                path,
                hash,
                real_len,
                gzip_len,
            ) == Err::<PackState, BuildError>(BuildError::SizeOverflow),
{
}

/// Appends the `n` low bytes of `v`, the lowest first.
fn push_le(out: &mut Vec<u8>, v: u64, n: usize)
    ensures
        final(out)@ == old(out)@ + le_bytes(v as nat, n as nat),
{
    let mut rest = v;
    let mut i: usize = 0;
    let ghost start = out@;
    assert(le_bytes(rest as nat, 0) == Seq::<u8>::empty());
    while i < n
        invariant
            i <= n,
            start + le_bytes(v as nat, n as nat) == out@ + le_bytes(rest as nat, (n - i) as nat),
        decreases n - i,
    {
        let ghost before = out@;
        out.push((rest % 256) as u8);
        proof {
            assert(before + (seq![(rest % 256) as u8] + le_bytes(
                (rest / 256) as nat,
                (n - i - 1) as nat,
            )) == out@ + le_bytes((rest / 256) as nat, (n - i - 1) as nat));
        }
        rest = rest / 256;
        i += 1;
    }
    assert(le_bytes(rest as nat, 0) == Seq::<u8>::empty());
}

/// Whether a string is a word: not empty, and without white space.
fn str_is_word(s: &str) -> (r: bool)
    ensures
        r == is_word(s@),
{
    let chars = to_chars(s);
    if chars.len() == 0 {
        return false;
    }
    let mut i: usize = 0;
    while i < chars.len()
        invariant
            i <= chars.len(),
            chars@ == s@,
            forall|j: int| 0 <= j < i ==> !is_space(#[trigger] s@[j]),
        decreases chars.len() - i,
    {
        if char_is_space(chars[i]) {
            return false;
        }
        i += 1;
    }
    true
}

/// A packer of version 1 containers.
pub struct BundleV1 {
    filelist: Vec<FileSlice>,
    position: u64,
    index_start: u64,
    index_real_len: u32,
    index_gzip_len: u32,
}

impl View for BundleV1 {
    type V = PackState;

    closed spec fn view(&self) -> PackState {
        PackState {
            slices: slices_of(self.filelist@),
            position: self.position as int,
            index_start: self.index_start as int,
            index_gzip_len: self.index_gzip_len as int,
            index_real_len: self.index_real_len as int,
        }
    }
}

/// Recording a file keeps the layout.
pub proof fn lemma_add_slice_laid_out(
    state: PackState,
    path: Seq<char>,
    hash: Seq<char>,
    real_len: int,
    gzip_len: int,
)
    requires
        laid_out(state),
        0 <= real_len,
        0 <= gzip_len,
        add_slice_spec(state, path, hash, real_len, gzip_len) is Ok,
    ensures
        laid_out(add_slice_spec(state, path, hash, real_len, gzip_len)->Ok_0),
{
    let next = add_slice_spec(state, path, hash, real_len, gzip_len)->Ok_0;
    let n = state.slices.len() as int;
    assert(next.slices.drop_last() == state.slices);
    assert forall|i: int| 0 <= i < next.slices.len() implies {
        let s = #[trigger] next.slices[i];
        &&& s.start == end_of(next.slices.take(i))
        &&& 0 <= s.gzip_len <= u32::MAX
        &&& 0 <= s.real_len <= u32::MAX
        &&& is_word(s.path)
        &&& is_word(s.hash)
    } by {
        if i < n {
            assert(next.slices[i] == state.slices[i]);
            assert(next.slices.take(i) == state.slices.take(i));
        } else {
            assert(next.slices.take(i) == state.slices);
        }
    }
}

impl BundleV1 {
    /// The files lie one after the other from the end of the header.
    pub open spec fn wf(&self) -> bool {
        laid_out(self@)
    }

    /// A packer that has written nothing yet.
    pub fn new() -> (r: BundleV1)
        ensures
            r@ == initial_state(),
            r.wf(),
    {
        let r = BundleV1 {
            filelist: Vec::new(),
            position: HEADER_SIZE,
            index_start: 0,
            index_real_len: 0,
            index_gzip_len: 0,
        };
        assert(r@.slices =~= Seq::<Slice>::empty());
        r
    }

    /// The files recorded so far.
    pub fn filelist(&self) -> (r: &Vec<FileSlice>)
        ensures
            slices_of(r@) == self@.slices,
    {
        &self.filelist
    }

    /// Where the next stream goes.
    pub fn position(&self) -> (r: u64)
        ensures
            r == self@.position,
    {
        self.position
    }

    /// Where the index was written.
    pub fn index_start(&self) -> (r: u64)
        ensures
            r == self@.index_start,
    {
        self.index_start
    }

    /// The length of the compressed index.
    pub fn index_gzip_len(&self) -> (r: u32)
        ensures
            r == self@.index_gzip_len,
    {
        self.index_gzip_len
    }

    /// The length of the index before compression.
    pub fn index_real_len(&self) -> (r: u32)
        ensures
            r == self@.index_real_len,
    {
        self.index_real_len
    }

    /// Records a file whose gzip stream, `gzip_len` bytes long, is written at
    /// the current position. Fails, and changes nothing, where a length or the
    /// next position does not fit, or the path or the digest is no word.
    pub fn add_slice(&mut self, path: &str, hash: &str, real_len: u64, gzip_len: u64) -> (r: Result<
        (),
        BuildError,
    >)
        requires
            old(self).wf(),
        ensures
            final(self).wf(),
            match add_slice_spec(old(self)@, path@, hash@, real_len as int, gzip_len as int) {
                Ok(next) => r is Ok && final(self)@ == next,
                Err(e) => r == Err::<(), BuildError>(e) && final(self)@ == old(self)@,
            },
    {
        if real_len > u32::MAX as u64 || gzip_len > u32::MAX as u64 || gzip_len > u64::MAX
            - self.position {
            return Err(BuildError::SizeOverflow);
        }
        if !str_is_word(path) || !str_is_word(hash) {
            return Err(BuildError::MalformedFilelist);
        }
        let slice = FileSlice {
            start: self.position,
            gzip_len: gzip_len as u32,
            real_len: real_len as u32,
            path: path.to_owned(),
            hash: hash.to_owned(),
        };
        proof {
            lemma_add_slice_laid_out(old(self)@, path@, hash@, real_len as int, gzip_len as int);
            assert(slices_of(self.filelist@.push(slice)) =~= slices_of(self.filelist@).push(
                slice@,
            ));
        }
        self.filelist.push(slice);
        self.position = self.position + gzip_len;
        Ok(())
    }

    /// Compresses a file and records it. The result is the gzip stream, to be
    /// written at the position that the packer had before the call.
    pub fn add_file(&mut self, path: &str, hash: &str, content: &[u8]) -> (r: Result<
        Vec<u8>,
        BuildError,
    >)
        requires
            old(self).wf(),
        ensures
            final(self).wf(),
            match add_file_spec(old(self)@, path@, hash@, content@) {
                Ok((next, blob)) => r is Ok && r->Ok_0@ == blob && final(self)@ == next,
                Err(e) => r == Err::<Vec<u8>, BuildError>(e) && final(self)@ == old(self)@,
            },
    {
        if content.len() > u32::MAX as usize {
            return Err(BuildError::SizeOverflow);
        }
        let blob = match gzip(content) {
            Some(b) => b,
            None => {
                return Err(BuildError::ContainerWriteFailed);
            },
        };
        match self.add_slice(path, hash, content.len() as u64, blob.len() as u64) {
            Ok(()) => Ok(blob),
            Err(e) => Err(e),
        }
    }

    /// The text of the index for the files recorded so far.
    pub fn index_body(&self, search: &str) -> (r: String)
        ensures
            r@ == index_text(search@, self@.slices),
    {
        let mut out = String::new();
        out.append("[DEFAULTSEARCH]\nMAIN\n[SEARCH:MAIN]\n");
        let rows = split_lines(search);
        let ghost head = out@;
        let mut i: usize = 0;
        proof {
            reveal_strlit("\n");
            reveal_strlit(" ");
        }
        while i < rows.len()
            invariant
                i <= rows.len(),
                out@ == head + joined(views(rows@).take(i as int)),
                "\n"@ == seq!['\n'],
            decreases rows.len() - i,
        {
            let ghost before = out@;
            out.append(rows[i].as_str());
            out.append("\n");
            proof {
                let t = views(rows@).take(i + 1);
                assert(t.drop_last() == views(rows@).take(i as int));
                assert(t.last() == rows@[i as int]@);
                assert(out@ == head + joined(t));
            }
            i += 1;
        }
        assert(views(rows@).take(rows.len() as int) == views(rows@));
        out.append("[FILELIST]\n");
        let ghost head2 = out@;
        let mut k: usize = 0;
        while k < self.filelist.len()
            invariant
                k <= self.filelist.len(),
                out@ == head2 + slice_lines(slices_of(self.filelist@).take(k as int)),
                "\n"@ == seq!['\n'],
                " "@ == seq![' '],
            decreases self.filelist.len() - k,
        {
            let s = &self.filelist[k];
            let ghost before = out@;
            push_decimal(&mut out, s.start as u128);
            out.append(" ");
            push_decimal(&mut out, s.gzip_len as u128);
            out.append(" ");
            push_decimal(&mut out, s.real_len as u128);
            out.append(" ");
            out.append(s.path.as_str());
            out.append(" ");
            out.append(s.hash.as_str());
            out.append("\n");
            proof {
                let t = slices_of(self.filelist@).take(k + 1);
                assert(t.drop_last() == slices_of(self.filelist@).take(k as int));
                assert(t.last() == s@);
                assert(out@ == before + slice_line(s@) + seq!['\n']);
                assert(out@ == head2 + slice_lines(t));
            }
            k += 1;
        }
        assert(slices_of(self.filelist@).take(self.filelist.len() as int) == slices_of(
            self.filelist@,
        ));
        out
    }

    /// Records that the index, `real_len` bytes of text in a gzip stream of
    /// `gzip_len`, is written at the current position.
    pub fn set_index(&mut self, real_len: u32, gzip_len: u32)
        ensures
            final(self)@ == (PackState {
                index_start: old(self)@.position,
                index_gzip_len: gzip_len as int,
                index_real_len: real_len as int,
                ..old(self)@
            }),
    {
        self.index_start = self.position;
        self.index_gzip_len = gzip_len;
        self.index_real_len = real_len;
    }

    /// Writes the index for the files recorded so far: the result is its gzip
    /// stream, to be written at the current position.
    pub fn write_index(&mut self, search: &str) -> (r: Result<Vec<u8>, BuildError>)
        ensures
            match write_index_spec(old(self)@, search@) {
                Ok((next, blob)) => r is Ok && r->Ok_0@ == blob && final(self)@ == next,
                Err(e) => r == Err::<Vec<u8>, BuildError>(e) && final(self)@ == old(self)@,
            },
    {
        let text = self.index_body(search);
        let bytes = text.as_str().as_bytes();
        if bytes.len() > u32::MAX as usize {
            return Err(BuildError::SizeOverflow);
        }
        let blob = match gzip(bytes) {
            Some(b) => b,
            None => {
                return Err(BuildError::ContainerWriteFailed);
            },
        };
        if blob.len() > u32::MAX as usize {
            return Err(BuildError::SizeOverflow);
        }
        self.set_index(bytes.len() as u32, blob.len() as u32);
        Ok(blob)
    }

    /// The header, for the bundle digest as the content tree holds it.
    pub fn write_header(&self, sha256sum: &str) -> (r: Result<Vec<u8>, BuildError>)
        ensures
            match write_header_spec(self@, sha256sum@) {
                Ok(h) => r is Ok && r->Ok_0@ == h && h.len() == HEADER_SIZE && h.subrange(34, 66)
                    == unhex(trim(sha256sum@)),
                Err(e) => r == Err::<Vec<u8>, BuildError>(e),
            },
    {
        let digits = trim_str(sha256sum);
        let digest = match hex_decode(digits) {
            Some(d) => d,
            None => {
                return Err(BuildError::MalformedDigest);
            },
        };
        if digest.len() != 32 {
            return Err(BuildError::MalformedDigest);
        }
        let mut out: Vec<u8> = Vec::new();
        let m: [u8; 14] = [116, 101, 99, 116, 111, 110, 105, 99, 98, 117, 110, 100, 108, 101];
        let mut i: usize = 0;
        while i < 14
            invariant
                i <= 14,
                out@ == magic().take(i as int),
                m@ == magic(),
            decreases 14 - i,
        {
            out.push(m[i]);
            assert(magic().take(i + 1) == magic().take(i as int).push(magic()[i as int]));
            i += 1;
        }
        assert(magic().take(14) == magic());
        push_le(&mut out, 1, 4);
        push_le(&mut out, self.index_start, 8);
        push_le(&mut out, self.index_gzip_len as u64, 4);
        push_le(&mut out, self.index_real_len as u64, 4);
        let mut k: usize = 0;
        let ghost head = out@;
        while k < 32
            invariant
                k <= 32,
                digest.len() == 32,
                out@ == head + digest@.take(k as int),
            decreases 32 - k,
        {
            out.push(digest[k]);
            assert(digest@.take(k + 1) == digest@.take(k as int).push(digest@[k as int]));
            k += 1;
        }
        proof {
            assert(digest@.take(32) == digest@);
            lemma_header_layout(self@, digest@);
        }
        Ok(out)
    }
}

/// A file as the manifest names it.
pub struct FileEntry {
    /// The file's path as the manifest writes it, with the leading slash.
    pub path: String,
    /// The file's digest in hexadecimal, or `nohash`.
    pub hash: String,
}

/// What a line of the manifest says of a file: its first two words are the
/// path and the digest. `None` where the line has fewer words.
pub open spec fn filelist_entry(line: Seq<char>) -> Option<(Seq<char>, Seq<char>)> {
    let words = tokens(line);
    if words.len() >= 2 {
        Some((words[0], words[1]))
    } else {
        None
    }
}

/// Reads a line of the manifest.
pub fn parse_filelist_line(line: &str) -> (r: Result<FileEntry, BuildError>)
    ensures
        match filelist_entry(line@) {
            Some((path, hash)) => r is Ok && r->Ok_0.path@ == path && r->Ok_0.hash@ == hash,
            None => r is Err && r->Err_0 == BuildError::MalformedFilelist,
        },
{
    let words = tokenize(line);
    if words.len() < 2 {
        return Err(BuildError::MalformedFilelist);
    }
    assert(views(words@)[0] == words@[0]@ && views(words@)[1] == words@[1]@);
    Ok(FileEntry { path: words[0].clone(), hash: words[1].clone() })
}

/// Where a file that the manifest names lies below the content root: its
/// path without the leading slash.
pub open spec fn tree_path(path: Seq<char>) -> Seq<char> {
    if path.len() > 0 && path[0] == '/' {
        path.drop_first()
    } else {
        path
    }
}

/// Where a file that the manifest names lies below the content root.
pub fn content_path(path: &str) -> (r: String)
    ensures
        r@ == tree_path(path@),
{
    let chars = to_chars(path);
    if chars.len() > 0 && chars[0] == '/' {
        let r = substring(&chars, 1, chars.len());
        assert(path@.subrange(1, path@.len() as int) == path@.drop_first());
        r
    } else {
        path.to_owned()
    }
}

/// The contents of a list of buffers.
pub open spec fn buffers(v: Seq<Vec<u8>>) -> Seq<Seq<u8>> {
    Seq::new(v.len(), |i: int| v[i]@)
}

/// A result with `body` put before its bytes.
pub open spec fn after(body: Seq<u8>, r: Result<(PackState, Seq<u8>), BuildError>) -> Result<
    (PackState, Seq<u8>),
    BuildError,
> {
    match r {
        Ok((state, more)) => Ok((state, body + more)),
        Err(e) => Err(e),
    }
}

/// Packing the files that the rows of a manifest name, each with its content:
/// the state after the last one, and the gzip streams one after the other.
/// A row names a file by its first two words, the path and the digest.
pub open spec fn pack_files(state: PackState, rows: Seq<Seq<char>>, contents: Seq<Seq<u8>>) -> Result<
    (PackState, Seq<u8>),
    BuildError,
>
    decreases rows.len(),
{
    if rows.len() == 0 {
        Ok((state, Seq::empty()))
    } else {
        match filelist_entry(rows[0]) {
            None => Err(BuildError::MalformedFilelist),
            Some((path, hash)) => match add_file_spec(state, path, hash, contents[0]) {
                Err(e) => Err(e),
                Ok((next, blob)) => after(
                    blob,
                    pack_files(next, rows.drop_first(), contents.drop_first()),
                ),
            },
        }
    }
}

/// Packing the files of a manifest text. There must be one content for each
/// line.
pub open spec fn add_files_spec(state: PackState, filelist: Seq<char>, contents: Seq<Seq<u8>>) -> Result<
    (PackState, Seq<u8>),
    BuildError,
> {
    if contents.len() != lines(filelist).len() {
        Err(BuildError::InputIO)
    } else {
        pack_files(state, lines(filelist), contents)
    }
}

/// The whole container: the header, the files' gzip streams and the index.
pub open spec fn make_spec(
    filelist: Seq<char>,
    search: Seq<char>,
    sha256sum: Seq<char>,
    contents: Seq<Seq<u8>>,
) -> Result<Seq<u8>, BuildError> {
    match add_files_spec(initial_state(), filelist, contents) {
        Err(e) => Err(e),
        Ok((packed, body)) => match write_index_spec(packed, search) {
            Err(e) => Err(e),
            Ok((indexed, index)) => match write_header_spec(indexed, sha256sum) {
                Err(e) => Err(e),
                Ok(header) => Ok(header + body + index),
            },
        },
    }
}

/// Packing keeps the layout.
pub proof fn lemma_pack_files_laid_out(state: PackState, rows: Seq<Seq<char>>, contents: Seq<Seq<u8>>)
    requires
        laid_out(state),
        pack_files(state, rows, contents) is Ok,
    ensures
        laid_out(pack_files(state, rows, contents)->Ok_0.0),
        pack_files(state, rows, contents)->Ok_0.0.position == state.position + pack_files(
            state,
            rows,
            contents,
        )->Ok_0.1.len(),
    decreases rows.len(),
{
    if rows.len() > 0 {
        let (path, hash) = filelist_entry(rows[0])->Some_0;
        let (next, blob) = add_file_spec(state, path, hash, contents[0])->Ok_0;
        lemma_add_slice_laid_out(state, path, hash, contents[0].len() as int, blob.len() as int);
        lemma_pack_files_laid_out(next, rows.drop_first(), contents.drop_first());
    }
}

impl BundleV1 {
    /// Packs the files that a manifest text names, in its order: `contents`
    /// holds the content of each line's file. The result is the gzip streams
    /// one after the other, to be written from the position that the packer
    /// had before the call.
    pub fn add_files(&mut self, filelist: &str, contents: &Vec<Vec<u8>>) -> (r: Result<
        Vec<u8>,
        BuildError,
    >)
        requires
            old(self).wf(),
        ensures
            final(self).wf(),
            match add_files_spec(old(self)@, filelist@, buffers(contents@)) {
                Ok((next, body)) => r is Ok && r->Ok_0@ == body && final(self)@ == next,
                Err(e) => r == Err::<Vec<u8>, BuildError>(e),
            },
    {
        let rows = split_lines(filelist);
        if rows.len() != contents.len() {
            return Err(BuildError::InputIO);
        }
        let mut body: Vec<u8> = Vec::new();
        let mut i: usize = 0;
        let ghost whole = pack_files(old(self)@, lines(filelist@), buffers(contents@));
        proof {
            assert(views(rows@).skip(0) == views(rows@));
            assert(buffers(contents@).skip(0) == buffers(contents@));
            match whole {
                Ok((s, b)) => {
                    assert(Seq::<u8>::empty() + b == b);
                },
                Err(_) => {},
            }
        }
        while i < rows.len()
            invariant
                i <= rows.len(),
                rows.len() == contents.len(),
                self.wf(),
                views(rows@) == lines(filelist@),
                whole == add_files_spec(old(self)@, filelist@, buffers(contents@)),
                whole == after(
                    body@,
                    pack_files(
                        self@,
                        views(rows@).skip(i as int),
                        buffers(contents@).skip(i as int),
                    ),
                ),
            decreases rows.len() - i,
        {
            let ghost rest_rows = views(rows@).skip(i as int);
            let ghost rest_contents = buffers(contents@).skip(i as int);
            let ghost before = self@;
            let ghost body0 = body@;
            proof {
                assert(rest_rows[0] == rows@[i as int]@);
                assert(rest_contents[0] == contents@[i as int]@);
                assert(rest_rows.drop_first() == views(rows@).skip(i + 1));
                assert(rest_contents.drop_first() == buffers(contents@).skip(i + 1));
            }
            let entry = match parse_filelist_line(rows[i].as_str()) {
                Ok(e) => e,
                Err(e) => {
                    return Err(e);
                },
            };
            let mut blob = match self.add_file(
                entry.path.as_str(),
                entry.hash.as_str(),
                contents[i].as_slice(),
            ) {
                Ok(b) => b,
                Err(e) => {
                    return Err(e);
                },
            };
            let ghost blob0 = blob@;
            body.append(&mut blob);
            proof {
                let tail = pack_files(
                    self@,
                    views(rows@).skip(i + 1),
                    buffers(contents@).skip(i + 1),
                );
                match tail {
                    Ok((s, b)) => {
                        assert(body0 + (blob0 + b) == (body0 + blob0) + b);
                    },
                    Err(_) => {},
                }
            }
            i += 1;
        }
        proof {
            assert(views(rows@).skip(rows.len() as int).len() == 0);
            assert(body@ + Seq::<u8>::empty() == body@);
        }
        Ok(body)
    }

    /// Builds a whole container in memory from what a content tree holds: the
    /// text of its manifest, of its search order and of its bundle digest, and
    /// the content of each file that the manifest names, in the manifest's
    /// order.
    pub fn make(filelist: &str, search: &str, sha256sum: &str, contents: &Vec<Vec<u8>>) -> (r:
        Result<Vec<u8>, BuildError>)
        ensures
            match make_spec(filelist@, search@, sha256sum@, buffers(contents@)) {
                Ok(bytes) => r is Ok && r->Ok_0@ == bytes,
                Err(e) => r == Err::<Vec<u8>, BuildError>(e),
            },
    {
        let mut bundle = BundleV1::new();
        let mut body = match bundle.add_files(filelist, contents) {
            Ok(b) => b,
            Err(e) => {
                return Err(e);
            },
        };
        let mut index = match bundle.write_index(search) {
            Ok(b) => b,
            Err(e) => {
                return Err(e);
            },
        };
        let mut out = match bundle.write_header(sha256sum) {
            Ok(h) => h,
            Err(e) => {
                return Err(e);
            },
        };
        out.append(&mut body);
        out.append(&mut index);
        Ok(out)
    }
}

} // verus!

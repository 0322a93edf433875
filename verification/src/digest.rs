//! SHA-256 digests and their hexadecimal form.

use sha2::{Digest, Sha256};
use vstd::prelude::*;
use vstd::string::*;

verus! {

/// The SHA-256 digest of a sequence of bytes, as `sha2` computes it.
pub uninterp spec fn sha256(data: Seq<u8>) -> Seq<u8>;

/// A SHA-256 digest in the making: a `sha2::Sha256` that is fed the data
/// piece by piece. The hasher's type is built of type-level numbers, which
/// Verus does not take, so it is held here out of Verus's sight; what can be
/// done with it is said by the three functions that follow.
#[verifier::external_body]
pub struct StreamDigest {
    hasher: Sha256,
}

/// The bytes that a digest in the making has been fed, in order.
pub uninterp spec fn fed(stream: StreamDigest) -> Seq<u8>;

/// Calls `sha2::Sha256::new`: a hasher that has been fed nothing.
#[verifier::external_body]
fn stream_new() -> (r: StreamDigest)
    ensures
        fed(r) == Seq::<u8>::empty(),
{
    StreamDigest { hasher: Sha256::new() }
}

/// Calls `update` of `sha2::Sha256`: the hasher has been fed `data` after
/// what it was fed before.
#[verifier::external_body]
fn stream_update(stream: &mut StreamDigest, data: &[u8])
    ensures
        fed(*final(stream)) == fed(*old(stream)) + data@,
{
    stream.hasher.update(data)
}

/// Calls `finalize` of `sha2::Sha256`: the 32 bytes of the digest of all that
/// the hasher was fed. It is the digest that `sha2::Sha256::digest` gives of
/// the same bytes in one piece, which feeds a new hasher once and finalizes.
#[verifier::external_body]
fn stream_finalize(stream: StreamDigest) -> (r: [u8; 32])
    ensures
        r@ == sha256(fed(stream)),
{
    stream.hasher.finalize().into()
}

impl View for StreamDigest {
    type V = Seq<u8>;

    /// The bytes fed so far.
    open spec fn view(&self) -> Seq<u8> {
        fed(*self)
    }
}

impl StreamDigest {
    /// A digest of nothing yet.
    pub fn new() -> (r: StreamDigest)
        ensures
            r@ == Seq::<u8>::empty(),
    {
        stream_new()
    }

    /// Feeds the next piece of the data.
    pub fn update(&mut self, chunk: &[u8])
        ensures
            final(self)@ == old(self)@ + chunk@,
    {
        stream_update(self, chunk)
    }

    /// The digest of all that was fed.
    pub fn finish(self) -> (r: FileDigest)
        ensures
            r.content() == self@,
    {
        let bytes = stream_finalize(self);
        FileDigest { hex: hex_encode(bytes.as_slice()), content: Ghost(self@) }
    }
}

/// The SHA-256 digest of some content, in hexadecimal.
pub struct FileDigest {
    hex: String,
    content: Ghost<Seq<u8>>,
}

impl FileDigest {
    #[verifier::type_invariant]
    spec fn holds_digest(self) -> bool {
        self.hex@ == hex(sha256(self.content@)) && sha256(self.content@).len() == 32
    }

    /// The content that this is the digest of.
    pub closed spec fn content(&self) -> Seq<u8> {
        self.content@
    }

    /// The digest of a buffer.
    pub fn of(data: &[u8]) -> (r: FileDigest)
        ensures
            r.content() == data@,
    {
        let mut stream = StreamDigest::new();
        stream.update(data);
        assert(stream@ =~= data@);
        stream.finish()
    }

    /// The digest in lower-case hexadecimal: 64 digits.
    pub fn as_hex(&self) -> (r: &str)
        ensures
            r@ == hex(sha256(self.content())),
            sha256(self.content()).len() == 32,
            r@.len() == 64,
    {
        proof {
            use_type_invariant(self);
        }
        self.hex.as_str()
    }
}

/// The lower-case hexadecimal digit for a value below 16.
pub open spec fn hex_digit(n: int) -> char {
    if n == 0 {
        '0'
    } else if n == 1 {
        '1'
    } else if n == 2 {
        '2'
    } else if n == 3 {
        '3'
    } else if n == 4 {
        '4'
    } else if n == 5 {
        '5'
    } else if n == 6 {
        '6'
    } else if n == 7 {
        '7'
    } else if n == 8 {
        '8'
    } else if n == 9 {
        '9'
    } else if n == 10 {
        'a'
    } else if n == 11 {
        'b'
    } else if n == 12 {
        'c'
    } else if n == 13 {
        'd'
    } else if n == 14 {
        'e'
    } else {
        'f'
    }
}

/// Two lower-case hexadecimal digits for each byte, the high half first.
pub open spec fn hex(bytes: Seq<u8>) -> Seq<char> {
    Seq::new(
        2 * bytes.len(),
        |i: int|
            if i % 2 == 0 {
                hex_digit(bytes[i / 2] as int / 16)
            } else {
                hex_digit(bytes[i / 2] as int % 16)
            },
    )
}

/// The value of a hexadecimal digit of either case.
pub open spec fn hex_value(c: char) -> Option<int> {
    if '0' <= c <= '9' {
        Some(c as int - '0' as int)
    } else if 'a' <= c <= 'f' {
        Some(c as int - 'a' as int + 10)
    } else if 'A' <= c <= 'F' {
        Some(c as int - 'A' as int + 10)
    } else {
        None
    }
}

/// Whether `s` is an even number of hexadecimal digits.
pub open spec fn is_hex(s: Seq<char>) -> bool {
    s.len() % 2 == 0 && forall|i: int| 0 <= i < s.len() ==> hex_value(#[trigger] s[i]) is Some
}

/// The bytes that a run of hexadecimal digits stands for.
pub open spec fn unhex(s: Seq<char>) -> Seq<u8> {
    Seq::new(
        s.len() / 2,
        |i: int| (hex_value(s[2 * i])->Some_0 * 16 + hex_value(s[2 * i + 1])->Some_0) as u8,
    )
}

/// Decoding the hexadecimal form of some bytes gives the bytes back.
pub proof fn lemma_unhex_hex(bytes: Seq<u8>)
    ensures
        is_hex(hex(bytes)),
        unhex(hex(bytes)) == bytes,
{
    let h = hex(bytes);
    assert forall|i: int| 0 <= i < h.len() implies hex_value(#[trigger] h[i]) is Some by {
        lemma_hex_digit_value(bytes[i / 2] as int / 16);
        lemma_hex_digit_value(bytes[i / 2] as int % 16);
    }
    assert forall|i: int| 0 <= i < bytes.len() implies unhex(h)[i] == bytes[i] by {
        let b = bytes[i] as int;
        lemma_hex_digit_value(b / 16);
        lemma_hex_digit_value(b % 16);
        assert(h[2 * i] == hex_digit(b / 16));
        assert(h[2 * i + 1] == hex_digit(b % 16));
    }
    assert(unhex(h) =~= bytes);
}

proof fn lemma_hex_digit_value(n: int)
    requires
        0 <= n < 16,
    ensures
        hex_value(hex_digit(n)) == Some(n),
{
}

/// The one-character string of a hexadecimal digit.
fn hex_digit_str(n: u8) -> (r: &'static str)
    requires
        n < 16,
    ensures
        r@ == seq![hex_digit(n as int)],
{
    proof {
        reveal_strlit("0");
        reveal_strlit("1");
        reveal_strlit("2");
        reveal_strlit("3");
        reveal_strlit("4");
        reveal_strlit("5");
        reveal_strlit("6");
        reveal_strlit("7");
        reveal_strlit("8");
        reveal_strlit("9");
        reveal_strlit("a");
        reveal_strlit("b");
        reveal_strlit("c");
        reveal_strlit("d");
        reveal_strlit("e");
        reveal_strlit("f");
    }
    let r = if n == 0 {
        "0"
    } else if n == 1 {
        "1"
    } else if n == 2 {
        "2"
    } else if n == 3 {
        "3"
    } else if n == 4 {
        "4"
    } else if n == 5 {
        "5"
    } else if n == 6 {
        "6"
    } else if n == 7 {
        "7"
    } else if n == 8 {
        "8"
    } else if n == 9 {
        "9"
    } else if n == 10 {
        "a"
    } else if n == 11 {
        "b"
    } else if n == 12 {
        "c"
    } else if n == 13 {
        "d"
    } else if n == 14 {
        "e"
    } else {
        "f"
    };
    assert(r@ =~= seq![hex_digit(n as int)]);
    r
}

/// Writes bytes as lower-case hexadecimal digits.
pub fn hex_encode(bytes: &[u8]) -> (r: String)
    ensures
        r@ == hex(bytes@),
{
    let mut out = String::new();
    let mut i: usize = 0;
    while i < bytes.len()
        invariant
            i <= bytes.len(),
            out@ == hex(bytes@.take(i as int)),
        decreases bytes.len() - i,
    {
        let b = bytes[i];
        let ghost before = out@;
        out.append(hex_digit_str(b / 16));
        out.append(hex_digit_str(b % 16));
        proof {
            let a = bytes@.take(i as int);
            let n = bytes@.take(i + 1);
            assert(n == a.push(b));
            assert(out@ =~= hex(n)) by {
                assert(out@.len() == hex(n).len());
                assert forall|k: int| 0 <= k < out@.len() implies out@[k] == hex(n)[k] by {
                    if k < 2 * i {
                        assert(out@[k] == hex(a)[k]);
                        assert(n[k / 2] == a[k / 2]);
                    }
                }
            }
        }
        i += 1;
    }
    assert(bytes@.take(bytes.len() as int) == bytes@);
    out
}

/// The value of a hexadecimal digit of either case, if `c` is one.
fn hex_digit_value(c: char) -> (r: Option<u8>)
    ensures
        match hex_value(c) {
            Some(v) => r == Some(v as u8) && 0 <= v < 16,
            None => r is None,
        },
{
    let v = c as u32;
    if 48 <= v && v <= 57 {
        Some((v - 48) as u8)
    } else if 97 <= v && v <= 102 {
        Some((v - 97 + 10) as u8)
    } else if 65 <= v && v <= 70 {
        Some((v - 65 + 10) as u8)
    } else {
        None
    }
}

/// Reads an even number of hexadecimal digits as bytes; `None` where the text
/// is anything else.
pub fn hex_decode(s: &str) -> (r: Option<Vec<u8>>)
    ensures
        is_hex(s@) ==> r is Some && r->Some_0@ == unhex(s@),
        !is_hex(s@) ==> r is None,
{
    let chars = crate::text::to_chars(s);
    let n = chars.len();
    if n % 2 != 0 {
        return None;
    }
    let mut out: Vec<u8> = Vec::new();
    let mut i: usize = 0;
    while i < n
        invariant
            n == chars.len(),
            chars@ == s@,
            n % 2 == 0,
            i % 2 == 0,
            i <= n,
            out@ == unhex(s@.take(i as int)),
            forall|k: int| 0 <= k < i ==> hex_value(#[trigger] s@[k]) is Some,
        decreases n - i,
    {
        let hi = match hex_digit_value(chars[i]) {
            Some(v) => v,
            None => {
                return None;
            },
        };
        let lo = match hex_digit_value(chars[i + 1]) {
            Some(v) => v,
            None => {
                return None;
            },
        };
        proof {
            let a = s@.take(i as int);
            let b = s@.take(i + 2);
            assert(out@.push((hi * 16 + lo) as u8) =~= unhex(b)) by {
                assert(b.len() / 2 == a.len() / 2 + 1);
                assert forall|k: int| 0 <= k < b.len() / 2 implies out@.push(
                    (hi * 16 + lo) as u8,
                )[k] == unhex(b)[k] by {
                    if k < a.len() / 2 {
                        assert(unhex(a)[k] == unhex(b)[k]);
                    }
                }
            }
        }
        out.push(hi * 16 + lo);
        i += 2;
    }
    assert(s@.take(n as int) == s@);
    Some(out)
}

/// The SHA-256 digest of `data` in lower-case hexadecimal: 64 digits.
pub fn sha256_hex(data: &[u8]) -> (r: String)
    ensures
        r@ == hex(sha256(data@)),
        sha256(data@).len() == 32,
        r@.len() == 64,
{
    FileDigest::of(data).as_hex().to_owned()
}

} // verus!

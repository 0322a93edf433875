//! Gzip compression of a whole buffer.

use flate2::write::GzEncoder;
use flate2::Compression;
use std::io::Write;
use vstd::prelude::*;

verus! {

/// The gzip stream that `flate2` makes of `data` at its default level, with
/// the header that it writes by default; `None` where the encoder fails.
pub uninterp spec fn gzip_stream(data: Seq<u8>) -> Option<Seq<u8>>;

/// Feeds `data` to a `flate2::write::GzEncoder` over an empty vector, in one
/// `write_all`, and takes the vector back with `finish`. The contract names
/// what comes out: the header holds no time and no file name, so the stream
/// depends on the data alone.
#[verifier::external_body]
pub(crate) fn gzip(data: &[u8]) -> (r: Option<Vec<u8>>)
    ensures
        match r {
            Some(v) => gzip_stream(data@) == Some(v@),
            None => gzip_stream(data@) is None,
        },
{
    let mut encoder = GzEncoder::new(Vec::new(), Compression::default());
    encoder.write_all(data).ok()?;
    encoder.finish().ok()
}

} // verus!

//! Gzip streams, as the `flate2` crate writes and reads them.

use vstd::prelude::*;

verus! {

/// The gzip stream that `flate2` writes for `data` at its default
/// compression level and with its default header, or nothing where its
/// encoder reports an error on `data`.
pub uninterp spec fn gzip_encoding(data: Seq<u8>) -> Option<Seq<u8>>;

/// What `flate2` reads out of the gzip stream that `bytes` start with, or
/// nothing where they do not hold a whole stream.
pub uninterp spec fn gzip_decoding(bytes: Seq<u8>) -> Option<Seq<u8>>;

/// `flate2::write::GzEncoder` with `Compression::default()`, fed `data` in
/// one piece and finished. What comes back is what [`gzip_encoding`] names:
/// the stream, or nothing where the encoder reports an error. Reading a
/// stream that came back gives `data` again.
#[verifier::external_body]
pub(crate) fn compress(data: &[u8]) -> (r: Option<Vec<u8>>)
    ensures
        match r {
            Some(v) => gzip_encoding(data@) == Some(v@) && gzip_decoding(v@) == Some(data@),
            None => gzip_encoding(data@) is None,
        },
{
    let mut encoder = flate2::write::GzEncoder::new(Vec::new(), flate2::Compression::default());
    match std::io::Write::write_all(&mut encoder, data) {
        Ok(()) => encoder.finish().ok(),
        Err(_) => None,
    }
}

/// `flate2::bufread::GzDecoder`, read to its end: the contents of the
/// first gzip member of `bytes`, named [`gzip_decoding`], or nothing where
/// the decoder reports an error.
#[verifier::external_body]
pub(crate) fn decompress(bytes: &[u8]) -> (r: Option<Vec<u8>>)
    ensures
        match r {
            Some(v) => gzip_decoding(bytes@) == Some(v@),
            None => gzip_decoding(bytes@) is None,
        },
{
    let mut decoder = flate2::bufread::GzDecoder::new(bytes);
    let mut data = Vec::new();
    match std::io::Read::read_to_end(&mut decoder, &mut data) {
        Ok(_) => Some(data),
        Err(_) => None,
    }
}

} // verus!

//! Compressing a PDF in memory.

use vstd::prelude::*;
use crate::lopdf_bridge::{compress_document, load_document, lopdf_compress, lopdf_load, lopdf_save, save_document};

verus! {

/// Why compressing a PDF failed.
#[derive(Debug)]
pub enum CompressError {
    /// lopdf could not read the input.
    Load(lopdf::Error),
    /// lopdf could not write the compressed document.
    Save(std::io::Error),
}

/// The bytes of the compressed PDF for `input`, if lopdf reads it and
/// writes the compressed document.
pub open spec fn compressed_spec(input: Seq<u8>) -> Option<Seq<u8>> {
    match lopdf_load(input) {
        Some(d) => lopdf_save(lopdf_compress(d)),
        None => None,
    }
}

/// Compresses a PDF in memory: the document is read with lopdf, every
/// stream that allows it is compressed, and the document is written again.
/// `level` is accepted for callers' sake; lopdf uses its own zlib level.
pub fn compress_pdf(input: &[u8], level: u8) -> (r: Result<Vec<u8>, CompressError>)
    ensures
        r matches Err(CompressError::Load(_)) <==> lopdf_load(input@) is None,
        r is Ok <==> compressed_spec(input@) is Some,
        r matches Ok(b) ==> compressed_spec(input@) == Some(b@),
{
    let mut doc = match load_document(input) {
        Ok(d) => d,
        Err(e) => return Err(CompressError::Load(e)),
    };
    compress_document(&mut doc);
    match save_document(&doc) {
        Ok(b) => Ok(b),
        Err(e) => Err(CompressError::Save(e)),
    }
}

/// The sizes in bytes of a PDF before and after compression.
pub fn estimate_compression(input: &[u8], level: u8) -> (r: Result<(usize, usize), CompressError>)
    ensures
        r matches Err(CompressError::Load(_)) <==> lopdf_load(input@) is None,
        r is Ok <==> compressed_spec(input@) is Some,
        r matches Ok((before, after)) ==> before == input@.len() && after == compressed_spec(input@)->0.len(),
{
    let original = input.len();
    match compress_pdf(input, level) {
        Ok(c) => Ok((original, c.len())),
        Err(e) => Err(e),
    }
}

} // verus!

verus! {

/// What compressing a file did: where the result went and the sizes
/// before and after.
pub struct CompressResult {
    pub output_path: String,
    pub original_bytes: u64,
    pub compressed_bytes: u64,
}

/// The path the compressed file is written to: the output path if one is
/// given, else the input path, so that the input is overwritten.
pub open spec fn output_path_spec(input_path: Seq<char>, output_path: Option<String>) -> Seq<char> {
    match output_path {
        Some(p) => p@,
        None => input_path,
    }
}

/// Compresses the PDF `data`, read from `input_path`, for writing to
/// `output_path` (or back to `input_path`); returns what to report and the
/// bytes to write.
pub fn compress_file(input_path: &str, output_path: Option<String>, data: &[u8], level: Option<u8>) -> (r: Result<(CompressResult, Vec<u8>), CompressError>)
    ensures
        r matches Err(CompressError::Load(_)) <==> lopdf_load(data@) is None,
        r is Ok <==> compressed_spec(data@) is Some,
        r matches Ok((res, bytes)) ==> {
            &&& compressed_spec(data@) == Some(bytes@)
            &&& res.output_path@ == output_path_spec(input_path@, output_path)
            &&& res.original_bytes == data@.len()
            &&& res.compressed_bytes == bytes@.len()
        },
{
    let level = match level {
        Some(l) => l,
        None => 6,
    };
    let out = match output_path {
        Some(p) => p,
        None => String::from_str(input_path),
    };
    let original = data.len() as u64;
    match compress_pdf(data, level) {
        Ok(c) => {
            let compressed = c.len() as u64;
            Ok((CompressResult { output_path: out, original_bytes: original, compressed_bytes: compressed }, c))
        },
        Err(e) => Err(e),
    }
}

} // verus!

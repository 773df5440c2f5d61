use vstd::prelude::*;

pub mod entropy_coding;
pub mod frequency_tree;
pub mod huffman_tree;
pub mod jpeg;

verus! {

/// The ways decoding can fail.
#[derive(Debug, Clone, Copy, PartialEq, Eq, Structural)]
pub enum DecodeError {
    /// A marker tag that is not one of the recognised segments.
    UnknownMarker,
    /// A segment whose declared length runs past the end of the buffer.
    TruncatedSegment,
    /// A Huffman table definition without 16 counts, with a symbol count that does not match
    /// them, or whose codes do not fit their lengths or are not prefix-free.
    MalformedHuffmanTable,
    /// The bits ran out in the middle of a codeword, or left every codeword.
    BitstreamExhausted,
    /// A zigzag sequence that does not hold exactly 64 coefficients.
    InvalidZigzagLength,
}

/// What a command line names: a search term and the file to read.
#[derive(Debug)]
pub struct Config {
    pub query: String,
    pub file_path: String,
}

/// Pixel reconstruction (dequantization, inverse transform, colour conversion) lies
/// outside this library, so no pixel bytes are produced.
pub fn jpeg_to_raw_image(jpeg: jpeg::JPEG) -> (r: Vec<u8>)
    ensures
        r@.len() == 0,
{
    Vec::new()
}

} // verus!

use vstd::prelude::*;

verus! {

/// A token of the LZ77 stream in the legacy layout, where every node carries
/// the byte that follows the match.
#[derive(PartialEq, Eq, Structural, Debug, Clone, Copy)]
pub struct Node {
    pub offset: u16,
    pub length: u16,
    pub char: u8,
}

/// A token of the LZ77 stream: either one raw byte, a back-reference that
/// copies `length` bytes starting `offset` bytes before the current output
/// position, or the decoder-only end-of-stream sentinel.
#[derive(PartialEq, Eq, Structural, Debug, Clone, Copy)]
pub enum NodeType {
    ByteLiteral { lit: u8 },
    Reference { offset: u16, length: u16 },
    EndOfStream,
}

/// Failures surfaced by the decoder and the replayer.
#[derive(PartialEq, Eq, Structural, Debug, Clone, Copy)]
pub enum Lz77Error {
    /// The bitstream ended before the end-of-stream marker, or an encoded
    /// length does not fit in `u16`. Carries the bit offset of the failure.
    MalformedStream { bit_offset: usize },
    /// A reference points before the start of the reconstructed history,
    /// has offset zero, or has length zero.
    OutOfRange,
}

} // verus!

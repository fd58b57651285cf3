use vstd::prelude::*;

pub mod nodes;
pub mod window_byte_container;
pub mod compress;
pub mod serialisation;

verus! {

use crate::compress::build_lz77_node_list;
use crate::compress::decompress_nodes;
use crate::compress::lemma_replay_tokens;
use crate::compress::lemma_scan_none;
use crate::compress::lemma_token_stream_wf;
use crate::compress::prefix_seq;
use crate::compress::search_seq;
use crate::compress::spec_best_match;
use crate::compress::spec_replay;
use crate::compress::spec_tokens;
use crate::compress::spec_tokens_from;
use crate::compress::token_wf;
use crate::nodes::Lz77Error;
use crate::nodes::NodeType;
use crate::serialisation::append_end_marker;
use crate::serialisation::bits_to_bytes;
use crate::serialisation::deserialise_nodes;
use crate::serialisation::encodable;
use crate::serialisation::lemma_bits_bytes_len;
use crate::serialisation::lemma_parse_encoded;
use crate::serialisation::lemma_uint_bits_len;
use crate::serialisation::lemma_unpack_pack;
use crate::serialisation::serailise_nodes;
use crate::serialisation::spec_bits_bytes;
use crate::serialisation::spec_bytes_bits;
use crate::serialisation::spec_end_marker;
use crate::serialisation::spec_node_bits;
use crate::serialisation::spec_nodes_bits;
use crate::serialisation::spec_pad_to_byte;
use crate::serialisation::spec_parse_from;
use crate::window_byte_container::window_lo;

/// The packed bytes compression produces for an input: the token stream's
/// bit layout, the end-of-stream marker, and zero padding to a whole byte.
pub open spec fn spec_compress(b: Seq<u8>) -> Seq<u8> {
    spec_bits_bytes(spec_pad_to_byte(spec_nodes_bits(spec_tokens(b)) + spec_end_marker()))
}

/// The bytes decompression reconstructs from a packed stream, when it both
/// parses and replays without failure.
pub open spec fn spec_decompress(bytes: Seq<u8>) -> Option<Seq<u8>> {
    match spec_parse_from(spec_bytes_bits(bytes), Seq::empty()) {
        Result::Err(q) => Option::None,
        Result::Ok(ts) => spec_replay(ts),
    }
}

/// The LZ77 pipeline: `compress_bytes` and `decompress_bytes` compose the
/// tokenizer, the bit codec and the replayer.
pub struct Lz77Compression {}

impl Lz77Compression {
    /// Compresses a byte slice to its packed bitstream.
    pub fn compress_bytes(&self, file_bytes: &[u8]) -> (r: Vec<u8>)
        requires
            file_bytes@.len() + 2049 <= usize::MAX,
        ensures
            r@ == spec_compress(file_bytes@),
    {
        let nodes = build_lz77_node_list(file_bytes);
        proof {
            lemma_token_stream_wf(file_bytes@);
            assert forall|i: int|
                0 <= i < nodes@.len() implies (#[trigger] nodes@[i] matches NodeType::Reference {
                length,
                ..
            } ==> length >= 2) by {
                assert(token_wf(nodes@[i]));
            }
        }
        let mut encoded_nodes = serailise_nodes(&nodes);
        append_end_marker(&mut encoded_nodes);
        proof {
            assert(encoded_nodes@.len() % 8 == 0);
        }
        bits_to_bytes(&encoded_nodes)
    }

    /// Decompresses a packed bitstream back to the bytes it encodes.
    /// Fails with `MalformedStream` at the parse's own failure offset
    /// exactly when the bitstream does not parse, and with `OutOfRange`
    /// exactly when the decoded tokens do not replay.
    pub fn decompress_bytes(&self, compressed_bytes: &Vec<u8>) -> (r: Result<Vec<u8>, Lz77Error>)
        ensures
            spec_decompress(compressed_bytes@) matches Option::Some(out) ==> (r matches Result::Ok(
                v,
            ) && v@ == out),
            spec_parse_from(spec_bytes_bits(compressed_bytes@), Seq::empty()) matches Result::Err(
                q,
            ) ==> (r matches Result::Err(e) && e matches Lz77Error::MalformedStream { bit_offset }
                && bit_offset == q),
            (spec_parse_from(spec_bytes_bits(compressed_bytes@), Seq::empty()) matches Result::Ok(
                ts,
            ) && spec_replay(ts) is None) ==> r == Result::<Vec<u8>, Lz77Error>::Err(
                Lz77Error::OutOfRange,
            ),
    {
        let nodes = match deserialise_nodes(compressed_bytes) {
            Result::Ok(nodes) => nodes,
            Result::Err(e) => {
                return Result::Err(e);
            },
        };
        decompress_nodes(&nodes)
    }
}

/// Round-trip law: decompressing a compressed stream reconstructs the
/// original bytes exactly, for every input.
pub proof fn lemma_round_trip(b: Seq<u8>)
    ensures
        spec_decompress(spec_compress(b)) == Option::Some(b),
{
    let ts = spec_tokens(b);
    lemma_token_stream_wf(b);
    assert forall|i: int| 0 <= i < ts.len() implies encodable(#[trigger] ts[i]) by {
        assert(token_wf(ts[i]));
    }
    let body = spec_nodes_bits(ts) + spec_end_marker();
    let padded = spec_pad_to_byte(body);
    assert(padded.len() % 8 == 0);
    lemma_unpack_pack(padded);
    let pad = padded.skip(body.len() as int);
    assert(padded =~= spec_nodes_bits(ts) + spec_end_marker() + pad);
    lemma_parse_encoded(ts, pad, Seq::empty());
    assert(Seq::<NodeType>::empty() + ts =~= ts);
    lemma_replay_tokens(b);
}

proof fn lemma_literal_tokens_bits(b: Seq<u8>, p: int)
    requires
        0 <= p <= b.len(),
        forall|i: int, j: int| 0 <= i < j < b.len() ==> b[i] != b[j],
    ensures
        spec_nodes_bits(spec_tokens_from(b, p)).len() == 9 * (b.len() - p),
    decreases b.len() - p,
{
    if p == b.len() {
        assert(spec_tokens_from(b, p) =~= Seq::<NodeType>::empty());
    } else {
        let c = b[p];
        let search = search_seq(b, p);
        let prefix = prefix_seq(b, p);
        assert forall|j: int| 0 <= j < search.len() implies search[j] != c by {
            assert(search[j] == b[window_lo(p, 2047) + j]);
        }
        lemma_scan_none(c, search, prefix, search.len() - 1);
        assert(spec_best_match(c, search, prefix) is None);
        let ts = spec_tokens_from(b, p);
        let rest = spec_tokens_from(b, p + 1);
        assert(ts == seq![NodeType::ByteLiteral { lit: c }] + rest);
        lemma_literal_tokens_bits(b, p + 1);
        assert(ts[0] == NodeType::ByteLiteral { lit: c });
        assert(ts.skip(1) =~= rest);
        lemma_uint_bits_len(c as int, 8);
        assert(spec_node_bits(ts[0]).len() == 9);
    }
}

/// Literal-only bound: an input of pairwise distinct bytes compresses to
/// nine bits per input byte plus the nine-bit marker, padded to a whole
/// byte.
pub proof fn lemma_literal_only_bound(b: Seq<u8>)
    requires
        forall|i: int, j: int| 0 <= i < j < b.len() ==> b[i] != b[j],
    ensures
        spec_nodes_bits(spec_tokens(b)).len() == 9 * b.len(),
        8 * spec_compress(b).len() == 9 * b.len() + 9 + (8 - (9 * b.len() + 9) % 8) % 8,
{
    lemma_literal_tokens_bits(b, 0);
    let body = spec_nodes_bits(spec_tokens(b)) + spec_end_marker();
    let padded = spec_pad_to_byte(body);
    assert(padded.len() % 8 == 0);
    assert(padded.len() == body.len() + (8 - body.len() % 8) % 8);
    lemma_bits_bytes_len(padded);
}

} // verus!

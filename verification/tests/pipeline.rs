use sloppycomp::compress::build_lz77_node_list;
use sloppycomp::compress::decompress_nodes;
use sloppycomp::nodes::Lz77Error;
use sloppycomp::nodes::NodeType;
use sloppycomp::serialisation::serialise_length;
use sloppycomp::Lz77Compression;

fn bitvec_of(pattern: &str) -> Vec<bool> {
    pattern
        .chars()
        .filter(|c| *c == '0' || *c == '1')
        .map(|c| c == '1')
        .collect()
}

#[test]
fn single_byte_input() {
    let bytes = [0x5Au8];
    let nodes = build_lz77_node_list(&bytes);
    assert_eq!(nodes, vec![NodeType::ByteLiteral { lit: 0x5A }]);

    let c = Lz77Compression {};
    let compressed = c.compress_bytes(&bytes);
    // 0 01011010, then the nine-bit marker, then six bits of padding.
    assert_eq!(compressed, vec![0x2D, 0x60, 0x00]);

    let decompressed = c.decompress_bytes(&compressed).unwrap();
    assert_eq!(decompressed, vec![0x5A]);
}

#[test]
fn round_trip_small_inputs() {
    let c = Lz77Compression {};
    let samples: Vec<Vec<u8>> = vec![
        b"ababcbababaa".to_vec(),
        b"ababb".to_vec(),
        b"a".to_vec(),
        b"aaaaaaaaaaaaaaaaaaaaaaaa".to_vec(),
        b"the quick brown fox jumps over the lazy dog".to_vec(),
        vec![0; 5000],
        (0..=255u8).cycle().take(4096).collect(),
    ];
    for bytes in samples {
        let compressed = c.compress_bytes(&bytes);
        let decompressed = c.decompress_bytes(&compressed).unwrap();
        assert_eq!(decompressed, bytes);
    }
}

#[test]
fn literal_only_stream_size() {
    // Five distinct bytes: 5 * 9 bits of literals, 9 marker bits, padded
    // up to 56 bits = 7 bytes.
    let c = Lz77Compression {};
    let compressed = c.compress_bytes(&[1, 2, 3, 4, 5]);
    assert_eq!(compressed.len(), 7);
}

#[test]
fn marker_rejection() {
    // A stream that starts with the end-of-stream marker decodes to no
    // tokens at all, so decompression yields no bytes.
    let c = Lz77Compression {};
    let decompressed = c.decompress_bytes(&vec![0b1100_0000, 0b0000_0000]).unwrap();
    assert_eq!(decompressed, Vec::<u8>::new());
}

#[test]
fn malformed_stream_on_truncation() {
    let c = Lz77Compression {};
    // An empty stream has no terminator.
    assert_eq!(
        c.decompress_bytes(&Vec::new()),
        Err(Lz77Error::MalformedStream { bit_offset: 0 })
    );
    // One byte is too short for the literal it starts.
    assert_eq!(
        c.decompress_bytes(&vec![0b0011_0000]),
        Err(Lz77Error::MalformedStream { bit_offset: 0 })
    );
    // A whole literal, then seven bits: the failure sits after the literal.
    assert_eq!(
        c.decompress_bytes(&vec![0x30, 0x80]),
        Err(Lz77Error::MalformedStream { bit_offset: 9 })
    );
}

#[test]
fn out_of_range_on_zero_offset() {
    // 1 0 00000000000 00, then the marker: a reference with offset zero.
    let c = Lz77Compression {};
    assert_eq!(
        c.decompress_bytes(&vec![0x80, 0x01, 0x80]),
        Err(Lz77Error::OutOfRange)
    );
}

#[test]
fn out_of_range_on_offset_past_history() {
    let nodes = vec![
        NodeType::ByteLiteral { lit: b'x' },
        NodeType::Reference {
            offset: 5,
            length: 2,
        },
    ];
    assert_eq!(decompress_nodes(&nodes), Err(Lz77Error::OutOfRange));
}

#[test]
fn replays_self_overlapping_reference() {
    // Reference(1, 4) copies the previous byte four times over.
    let nodes = vec![
        NodeType::ByteLiteral { lit: b'r' },
        NodeType::Reference {
            offset: 1,
            length: 4,
        },
    ];
    assert_eq!(decompress_nodes(&nodes).unwrap(), b"rrrrr".to_vec());
}

#[test]
fn length_code_corners() {
    assert_eq!(serialise_length(2), bitvec_of("00"));
    assert_eq!(serialise_length(7), bitvec_of("1110"));
    assert_eq!(serialise_length(8), bitvec_of("11110000"));
    assert_eq!(serialise_length(23), bitvec_of("111111110000"));
    let code_1024 = serialise_length(1024);
    assert_eq!(code_1024.len(), 276);
    assert!(code_1024[..272].iter().all(|b| *b));
}

#[test]
fn no_single_byte_references_emitted() {
    // A byte recurring at distance one past another match tempts a
    // one-byte reference; a literal must be emitted instead.
    let samples: Vec<Vec<u8>> = vec![
        b"ababb".to_vec(),
        b"xyxzx".to_vec(),
        b"mississippi river".to_vec(),
    ];
    for bytes in samples {
        let nodes = build_lz77_node_list(&bytes);
        assert!(nodes.iter().all(|n| match n {
            NodeType::Reference { length, .. } => *length >= 2,
            _ => true,
        }));
    }
}

#[test]
fn encodes_scenario_tokens_exactly() {
    // Tokenizing "ababb" and serialising the tokens gives exactly
    // 0 01100001  0 01100010  1 1 0000010 00  0 01100010 (38 bits).
    let nodes = build_lz77_node_list(b"ababb");
    let encoded = sloppycomp::serialisation::serailise_nodes(&nodes);
    assert_eq!(
        encoded,
        bitvec_of("0 01100001 0 01100010 1 1 0000010 00 0 01100010")
    );
    assert_eq!(encoded.len(), 38);
}

#[test]
fn long_offset_codec_round_trip() {
    // An offset of 300 takes the 11-bit offset form; the codec must bring
    // it back unchanged.
    let nodes = vec![
        NodeType::Reference {
            offset: 300,
            length: 5,
        },
        NodeType::ByteLiteral { lit: b'q' },
    ];
    let mut encoded = sloppycomp::serialisation::serailise_nodes(&nodes);
    sloppycomp::serialisation::append_end_marker(&mut encoded);
    let bytes = sloppycomp::serialisation::bits_to_bytes(&encoded);
    let decoded = sloppycomp::serialisation::deserialise_nodes(&bytes).unwrap();
    assert_eq!(decoded, nodes);
}

use sloppycomp::nodes::NodeType;
use sloppycomp::serialisation::append_end_marker;
use sloppycomp::serialisation::bits_to_bytes;
use sloppycomp::serialisation::deserialise_length;
use sloppycomp::serialisation::deserialise_nodes;
use sloppycomp::serialisation::serailise_nodes;
use sloppycomp::serialisation::serialise_length;
use sloppycomp::serialisation::slice_to_byte;

fn bits(pattern: &str) -> Vec<bool> {
    pattern
        .chars()
        .filter(|c| *c == '0' || *c == '1')
        .map(|c| c == '1')
        .collect()
}

#[test]
fn serialisation_serailise_nodes_handles_literals_and_refs() {
    let nodes: Vec<NodeType> = vec![
        NodeType::ByteLiteral { lit: b'a' },
        NodeType::ByteLiteral { lit: b'b' },
        NodeType::Reference {
            offset: 2,
            length: 2,
        },
        NodeType::ByteLiteral { lit: b'b' },
    ];
    // 0 01100001 0 01100010 11 0000010 00 01100010
    // 0 = char lit
    // next 8 bits are the 'a' char
    // repeat for 'b' char
    // 11 - a reference node, offset <128
    // 0000010 - 7 bit offset value: 2
    // 00 - length value, in this case '2'
    // last 8 bits are the char literal 'b'
    let expected = bits(
        "0 0 1 1 0 0 0 0 1 0 0 1 1 0 0 0 1 0 1 1 0 0 0 0 0 1 0 0 0 0 0 1 1 0 0 0 1 0",
    );
    assert_eq!(expected, serailise_nodes(&nodes));
}

#[test]
fn serialisation_serailise_nodes_large_lengths() {
    let nodes = vec![
        NodeType::Reference {
            offset: 17,
            length: 8,
        },
        NodeType::ByteLiteral { lit: b'a' },
    ];
    assert_eq!(
        bits("1 1 0 0 1 0 0 0 1 1 1 1 1 0 0 0 0 0 0 1 1 0 0 0 0 1"),
        serailise_nodes(&nodes)
    );

    let nodes = vec![
        NodeType::Reference {
            offset: 17,
            length: 24,
        },
        NodeType::ByteLiteral { lit: b'a' },
    ];
    assert_eq!(
        bits("1 1 0 0 1 0 0 0 1 1 1 1 1 1 1 1 1 0 0 0 1 0 0 1 1 0 0 0 0 1"),
        serailise_nodes(&nodes)
    );
}

#[test]
fn serialisation_serailise_nodes_size_experiment() {
    // Q: What is most efficient: 3 raw bytes or 1 raw byte and a 2 byte-len node ref?

    let three_raw_bytes = vec![
        NodeType::ByteLiteral { lit: b'a' },
        NodeType::ByteLiteral { lit: b'a' },
        NodeType::ByteLiteral { lit: b'a' },
    ];
    assert_eq!(
        bits("0 0 1 1 0 0 0 0 1 0 0 1 1 0 0 0 0 1 0 0 1 1 0 0 0 0 1"),
        serailise_nodes(&three_raw_bytes)
    );

    let two_length_node_ref = vec![
        NodeType::Reference {
            offset: 2,
            length: 2,
        },
        NodeType::ByteLiteral { lit: b'a' },
    ];
    assert_eq!(
        bits("1 1 0 0 0 0 0 1 0 0 0 0 0 1 1 0 0 0 0 1"),
        serailise_nodes(&two_length_node_ref)
    );

    // A: the reference is always smaller, even for larger offset values that require extra bits
}

#[test]
fn serialisation_append_end_marker_adds_byte_padding() {
    let mut vec: Vec<bool> = Vec::new();
    append_end_marker(&mut vec);
    assert_eq!(bits("1 1 0 0 0 0 0 0 0 0 0 0 0 0 0 0"), vec);

    vec = bits("1 1 1");
    append_end_marker(&mut vec);
    assert_eq!(bits("1 1 1 1 1 0 0 0 0 0 0 0 0 0 0 0"), vec);
}

#[test]
fn serialisation_converts_slice_to_byte() {
    let slice = bits("0 1 1 1 0 1 1 1");
    let byte = slice_to_byte(&slice);
    assert_eq!(byte, b'w');
}

#[test]
fn serialisation_deserialises_length() {
    assert_eq!((2, 2), deserialise_length(&bits("0 0 0 0")).unwrap());
    assert_eq!((3, 2), deserialise_length(&bits("0 1 0 0")).unwrap());
    assert_eq!((4, 2), deserialise_length(&bits("1 0 0 0")).unwrap());
    assert_eq!((5, 4), deserialise_length(&bits("1 1 0 0")).unwrap());
    assert_eq!((6, 4), deserialise_length(&bits("1 1 0 1")).unwrap());
    assert_eq!((7, 4), deserialise_length(&bits("1 1 1 0")).unwrap());
    assert_eq!((8, 8), deserialise_length(&bits("1 1 1 1 0 0 0 0")).unwrap());
    assert_eq!((9, 8), deserialise_length(&bits("1 1 1 1 0 0 0 1")).unwrap());
    assert_eq!(
        (23, 12),
        deserialise_length(&bits("1 1 1 1 1 1 1 1 0 0 0 0")).unwrap()
    );
    assert_eq!(
        (37, 12),
        deserialise_length(&bits("1 1 1 1 1 1 1 1 1 1 1 0")).unwrap()
    );
    assert_eq!(
        (38, 16),
        deserialise_length(&bits("1 1 1 1 1 1 1 1 1 1 1 1 0 0 0 0")).unwrap()
    );

    let four_bit_blocks_for_max_size = ((2047 + 7) / 15) + 1; // +1 for final 4 bits;
    assert_eq!(137, four_bit_blocks_for_max_size);

    let mut max_val = vec![true; 137 * 4];
    max_val[547] = false;
    assert_eq!((2047, 548), deserialise_length(&max_val).unwrap());
}

#[test]
fn serialisation_length_encode_decode_in_harmony() {
    assert_eq!((2, 2), deserialise_length(&serialise_length(2)).unwrap());
    assert_eq!((7, 4), deserialise_length(&serialise_length(7)).unwrap());
    assert_eq!((8, 8), deserialise_length(&serialise_length(8)).unwrap());
    assert_eq!((23, 12), deserialise_length(&serialise_length(23)).unwrap());
    assert_eq!((77, 24), deserialise_length(&serialise_length(77)).unwrap());
    assert_eq!(
        (1024, 276),
        deserialise_length(&serialise_length(1024)).unwrap()
    );
}

#[test]
fn serialisation_serialise_and_deserialise_nodes() {
    let nodes: Vec<NodeType> = vec![
        NodeType::ByteLiteral { lit: b'a' },
        NodeType::ByteLiteral { lit: b'b' },
        NodeType::Reference {
            offset: 2,
            length: 2,
        },
    ];
    let mut serialised = serailise_nodes(&nodes);
    append_end_marker(&mut serialised);
    let deserialised = deserialise_nodes(&bits_to_bytes(&serialised)).unwrap();
    assert_eq!(nodes, deserialised);
}

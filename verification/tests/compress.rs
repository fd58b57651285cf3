use sloppycomp::compress::build_lz77_node_list;
use sloppycomp::compress::decompress_nodes;
use sloppycomp::nodes::NodeType;

#[test]
fn builds_a_node_list() {
    let bytes = vec![
        b'a', b'b', b'a', b'b', b'c', b'b', b'a', b'b', b'a', b'b', b'a', b'a',
    ];

    let expected: Vec<NodeType> = vec![
        NodeType::ByteLiteral { lit: b'a' },
        NodeType::ByteLiteral { lit: b'b' },
        NodeType::Reference {
            offset: 2,
            length: 2,
        },
        NodeType::ByteLiteral { lit: b'c' },
        NodeType::Reference {
            offset: 4,
            length: 3,
        },
        NodeType::Reference {
            offset: 8,
            length: 3,
        },
        NodeType::ByteLiteral { lit: b'a' },
    ];
    let nodes = build_lz77_node_list(&bytes);
    assert_eq!(expected, nodes);
}

#[test]
fn node_offset_cannot_exceed_2047() {
    let mut bytes: Vec<u8> = vec![0; 2060];
    bytes[0] = 0;
    bytes[1] = 1;
    bytes[2048] = 1;
    bytes[2049] = 1;
    bytes[2050] = 0;

    let nodes = build_lz77_node_list(&bytes);

    assert!(nodes.iter().all(|e| match e {
        NodeType::Reference { length: _, offset } => *offset < 2048,
        _ => true,
    }));
}

#[test]
fn node_list_test_no_trailing_chars() {
    let bytes = vec![b'a', b'b', b'a', b'b', b'b'];

    // (0,0,a), (0,0,b), (2,2,b)
    let expected: Vec<NodeType> = vec![
        NodeType::ByteLiteral { lit: b'a' },
        NodeType::ByteLiteral { lit: b'b' },
        NodeType::Reference {
            offset: 2,
            length: 2,
        },
        NodeType::ByteLiteral { lit: b'b' },
    ];
    let nodes = build_lz77_node_list(&bytes);
    assert_eq!(expected, nodes);
}

#[test]
fn decompresses_to_original_bytes() {
    let bytes = vec![
        b'a', b'b', b'a', b'b', b'c', b'b', b'a', b'b', b'a', b'b', b'a', b'a',
    ];

    let expected: Vec<NodeType> = vec![
        NodeType::ByteLiteral { lit: b'a' },
        NodeType::ByteLiteral { lit: b'b' },
        NodeType::Reference {
            length: 2,
            offset: 2,
        },
        NodeType::ByteLiteral { lit: b'c' },
        NodeType::Reference {
            length: 3,
            offset: 4,
        },
        NodeType::Reference {
            length: 3,
            offset: 8,
        },
        NodeType::ByteLiteral { lit: b'a' },
    ];
    let nodes = build_lz77_node_list(&bytes);
    assert_eq!(expected, nodes);

    let write_vec = decompress_nodes(&nodes).unwrap();
    assert_eq!(write_vec, bytes);
}

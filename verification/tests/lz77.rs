use sloppycomp::serialisation::append_end_marker;
use sloppycomp::serialisation::deserialise_length;
use sloppycomp::serialisation::serialise_length;
use sloppycomp::serialisation::slice_to_byte;

fn bitseq(pattern: &str) -> Vec<bool> {
    pattern
        .chars()
        .filter(|c| *c == '0' || *c == '1')
        .map(|c| c == '1')
        .collect()
}

#[test]
fn lz77_append_end_marker_adds_byte_padding() {
    let mut vec: Vec<bool> = Vec::new();
    append_end_marker(&mut vec);
    assert_eq!(bitseq("1 1 0 0 0 0 0 0 0 0 0 0 0 0 0 0"), vec);

    vec = bitseq("1 1 1");
    append_end_marker(&mut vec);
    assert_eq!(bitseq("1 1 1 1 1 0 0 0 0 0 0 0 0 0 0 0"), vec);
}

#[test]
fn lz77_converts_slice_to_byte() {
    let slice = bitseq("0 1 1 1 0 1 1 1");
    let byte = slice_to_byte(&slice);
    assert_eq!(byte, b'w');
}

#[test]
fn lz77_deserialises_length() {
    assert_eq!((2, 2), deserialise_length(&bitseq("0 0 0 0")).unwrap());
    assert_eq!((3, 2), deserialise_length(&bitseq("0 1 0 0")).unwrap());
    assert_eq!((4, 2), deserialise_length(&bitseq("1 0 0 0")).unwrap());
    assert_eq!((5, 4), deserialise_length(&bitseq("1 1 0 0")).unwrap());
    assert_eq!((6, 4), deserialise_length(&bitseq("1 1 0 1")).unwrap());
    assert_eq!((7, 4), deserialise_length(&bitseq("1 1 1 0")).unwrap());
    assert_eq!(
        (8, 8),
        deserialise_length(&bitseq("1 1 1 1 0 0 0 0")).unwrap()
    );
    assert_eq!(
        (9, 8),
        deserialise_length(&bitseq("1 1 1 1 0 0 0 1")).unwrap()
    );
    assert_eq!(
        (23, 12),
        deserialise_length(&bitseq("1 1 1 1 1 1 1 1 0 0 0 0")).unwrap()
    );
    assert_eq!(
        (37, 12),
        deserialise_length(&bitseq("1 1 1 1 1 1 1 1 1 1 1 0")).unwrap()
    );
    assert_eq!(
        (38, 16),
        deserialise_length(&bitseq("1 1 1 1 1 1 1 1 1 1 1 1 0 0 0 0")).unwrap()
    );

    let four_bit_blocks_for_max_size = ((2047 + 7) / 15) + 1; // +1 for final 4 bits;
    assert_eq!(137, four_bit_blocks_for_max_size);

    let mut max_val = vec![true; 137 * 4];
    max_val[547] = false;
    assert_eq!((2047, 548), deserialise_length(&max_val).unwrap());
}

#[test]
fn lz77_length_encode_decode_in_harmony() {
    assert_eq!((2, 2), deserialise_length(&serialise_length(2)).unwrap());
    assert_eq!((7, 4), deserialise_length(&serialise_length(7)).unwrap());
    assert_eq!((8, 8), deserialise_length(&serialise_length(8)).unwrap());
    assert_eq!((23, 12), deserialise_length(&serialise_length(23)).unwrap());
    assert_eq!((77, 24), deserialise_length(&serialise_length(77)).unwrap());
    assert_eq!(
        (1024, 276),
        deserialise_length(&serialise_length(1024)).unwrap()
    );
}

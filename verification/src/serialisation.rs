use vstd::prelude::*;

use crate::nodes::Lz77Error;
use crate::nodes::NodeType;

use vstd::arithmetic::power2::lemma2_to64;
use vstd::arithmetic::power2::lemma_pow2_strictly_increases;
use vstd::arithmetic::power2::pow2;

verus! {

/// The unsigned value of a bit sequence read most significant bit first.
pub open spec fn bits_val(bits: Seq<bool>) -> int
    decreases bits.len(),
{
    if bits.len() == 0 {
        0
    } else {
        2 * bits_val(bits.drop_last()) + (if bits.last() {
            1int
        } else {
            0int
        })
    }
}

/// The `width` lowest bits of `v`, most significant bit first.
pub open spec fn uint_bits(v: int, width: nat) -> Seq<bool>
    decreases width,
{
    if width == 0 {
        Seq::empty()
    } else {
        uint_bits(v / 2, (width - 1) as nat).push(v % 2 == 1)
    }
}

pub proof fn lemma_uint_bits_len(v: int, width: nat)
    ensures
        uint_bits(v, width).len() == width,
    decreases width,
{
    if width > 0 {
        lemma_uint_bits_len(v / 2, (width - 1) as nat);
    }
}

pub proof fn lemma_bits_val_bound(bits: Seq<bool>)
    ensures
        0 <= bits_val(bits) < pow2(bits.len()),
    decreases bits.len(),
{
    if bits.len() == 0 {
        assert(pow2(0) == 1) by {
            lemma2_to64();
        }
    } else {
        lemma_bits_val_bound(bits.drop_last());
        assert(pow2(bits.len()) == 2 * pow2((bits.len() - 1) as nat)) by {
            vstd::arithmetic::power2::lemma_pow2_unfold(bits.len());
        }
    }
}

/// Reading back the bits of an in-range value yields that value.
pub proof fn lemma_bits_val_uint_bits(v: int, width: nat)
    requires
        0 <= v < pow2(width),
    ensures
        bits_val(uint_bits(v, width)) == v,
    decreases width,
{
    if width == 0 {
        assert(pow2(0) == 1) by {
            lemma2_to64();
        }
    } else {
        assert(pow2(width) == 2 * pow2((width - 1) as nat)) by {
            vstd::arithmetic::power2::lemma_pow2_unfold(width);
        }
        lemma_bits_val_uint_bits(v / 2, (width - 1) as nat);
        lemma_uint_bits_len(v, width);
        let s = uint_bits(v, width);
        assert(s.drop_last() =~= uint_bits(v / 2, (width - 1) as nat));
    }
}

/// Every bit sequence is the bit expansion of its own value.
pub proof fn lemma_uint_bits_of_val(s: Seq<bool>)
    ensures
        uint_bits(bits_val(s), s.len()) == s,
    decreases s.len(),
{
    if s.len() > 0 {
        lemma_uint_bits_of_val(s.drop_last());
        let v = bits_val(s);
        assert(v / 2 == bits_val(s.drop_last()) && (v % 2 == 1) == s.last());
        assert(uint_bits(v, s.len()) =~= uint_bits(v / 2, (s.len() - 1) as nat).push(
            v % 2 == 1,
        ));
        assert(uint_bits(v, s.len()) =~= s);
    } else {
        assert(uint_bits(bits_val(s), s.len()) =~= s);
    }
}

/// Appends the `width` lowest bits of `v` to `vec`, most significant first.
fn push_uint_bits(vec: &mut Vec<bool>, v: usize, width: usize)
    ensures
        final(vec)@ == old(vec)@ + uint_bits(v as int, width as nat),
    decreases width,
{
    if width == 0 {
        proof {
            assert(old(vec)@ + uint_bits(v as int, 0) =~= old(vec)@);
        }
    } else {
        push_uint_bits(vec, v / 2, width - 1);
        vec.push(v % 2 == 1);
        proof {
            assert(old(vec)@ + uint_bits(v as int, width as nat) =~= (old(vec)@ + uint_bits(
                v as int / 2,
                (width - 1) as nat,
            )).push(v as int % 2 == 1));
        }
    }
}

/// Reads a bit slice of up to eight bits as a byte value, most significant
/// bit first.
pub fn slice_to_byte(slice: &[bool]) -> (r: u8)
    requires
        slice@.len() <= 8,
    ensures
        r as int == bits_val(slice@),
{
    let mut as_byte: u8 = 0;
    let mut i: usize = 0;
    while i < slice.len()
        invariant
            i <= slice@.len() <= 8,
            as_byte as int == bits_val(slice@.take(i as int)),
        decreases slice@.len() - i,
    {
        proof {
            lemma_bits_val_bound(slice@.take(i as int));
            assert(pow2(7) == 128) by {
                lemma2_to64();
            }
            if (i as int) < 7 {
                lemma_pow2_strictly_increases(i as nat, 7);
            }
            assert(slice@.take(i + 1).drop_last() =~= slice@.take(i as int));
        }
        as_byte = 2 * as_byte + (if slice[i] {
            1
        } else {
            0
        });
        i = i + 1;
    }
    proof {
        assert(slice@.take(slice@.len() as int) =~= slice@);
    }
    as_byte
}

/// Reads a bit slice of up to eleven bits as an offset value, most
/// significant bit first.
pub fn slice_to_offset(slice: &[bool]) -> (r: u16)
    requires
        slice@.len() <= 11,
    ensures
        r as int == bits_val(slice@),
{
    let mut as_offset: u16 = 0;
    let mut i: usize = 0;
    while i < slice.len()
        invariant
            i <= slice@.len() <= 11,
            as_offset as int == bits_val(slice@.take(i as int)),
        decreases slice@.len() - i,
    {
        proof {
            lemma_bits_val_bound(slice@.take(i as int));
            assert(pow2(10) == 1024) by {
                lemma2_to64();
            }
            if (i as int) < 10 {
                lemma_pow2_strictly_increases(i as nat, 10);
            }
            assert(slice@.take(i + 1).drop_last() =~= slice@.take(i as int));
        }
        as_offset = 2 * as_offset + (if slice[i] {
            1
        } else {
            0
        });
        i = i + 1;
    }
    proof {
        assert(slice@.take(slice@.len() as int) =~= slice@);
    }
    as_offset
}

/// The bitstream a byte sequence denotes: each byte contributes its eight
/// bits, most significant first.
pub open spec fn spec_bytes_bits(bytes: Seq<u8>) -> Seq<bool>
    decreases bytes.len(),
{
    if bytes.len() == 0 {
        Seq::empty()
    } else {
        uint_bits(bytes[0] as int, 8) + spec_bytes_bits(bytes.skip(1))
    }
}

/// The bytes a whole-byte bitstream packs into, most significant bit first
/// within each byte.
pub open spec fn spec_bits_bytes(bits: Seq<bool>) -> Seq<u8>
    decreases bits.len(),
{
    if bits.len() < 8 {
        Seq::empty()
    } else {
        seq![bits_val(bits.take(8)) as u8] + spec_bits_bytes(bits.skip(8))
    }
}

proof fn lemma_bytes_bits_snoc(bytes: Seq<u8>, b: u8)
    ensures
        spec_bytes_bits(bytes.push(b)) == spec_bytes_bits(bytes) + uint_bits(b as int, 8),
    decreases bytes.len(),
{
    if bytes.len() == 0 {
        assert(bytes.push(b).skip(1) =~= bytes);
        assert(bytes.push(b)[0] == b);
        assert(spec_bytes_bits(bytes.push(b)) == uint_bits(b as int, 8) + spec_bytes_bits(bytes));
        assert(uint_bits(b as int, 8) + spec_bytes_bits(bytes) =~= spec_bytes_bits(bytes)
            + uint_bits(b as int, 8));
    } else {
        lemma_bytes_bits_snoc(bytes.skip(1), b);
        assert(bytes.push(b).skip(1) =~= bytes.skip(1).push(b));
        assert(bytes.push(b)[0] == bytes[0]);
        assert(spec_bytes_bits(bytes.push(b)) == uint_bits(bytes[0] as int, 8) + (spec_bytes_bits(
            bytes.skip(1),
        ) + uint_bits(b as int, 8)));
        assert(uint_bits(bytes[0] as int, 8) + (spec_bytes_bits(bytes.skip(1)) + uint_bits(
            b as int,
            8,
        )) =~= spec_bytes_bits(bytes) + uint_bits(b as int, 8));
    }
}

proof fn lemma_bits_bytes_snoc(bits: Seq<bool>, chunk: Seq<bool>)
    requires
        bits.len() % 8 == 0,
        chunk.len() == 8,
    ensures
        spec_bits_bytes(bits + chunk) == spec_bits_bytes(bits) + seq![bits_val(chunk) as u8],
    decreases bits.len(),
{
    if bits.len() == 0 {
        assert((bits + chunk).take(8) =~= chunk);
        assert((bits + chunk).skip(8) =~= Seq::<bool>::empty());
        assert(spec_bits_bytes(bits + chunk) == seq![bits_val(chunk) as u8] + spec_bits_bytes(
            Seq::<bool>::empty(),
        ));
        assert(spec_bits_bytes(Seq::<bool>::empty()) =~= Seq::<u8>::empty());
        assert(seq![bits_val(chunk) as u8] + Seq::<u8>::empty() =~= spec_bits_bytes(bits) + seq![
            bits_val(chunk) as u8,
        ]);
    } else {
        lemma_bits_bytes_snoc(bits.skip(8), chunk);
        assert((bits + chunk).take(8) =~= bits.take(8));
        assert((bits + chunk).skip(8) =~= bits.skip(8) + chunk);
        assert(seq![bits_val(bits.take(8)) as u8] + (spec_bits_bytes(bits.skip(8)) + seq![
            bits_val(chunk) as u8,
        ]) =~= spec_bits_bytes(bits) + seq![bits_val(chunk) as u8]);
    }
}

/// Unpacking packed bits gives the bits back: the byte boundary is
/// transparent for whole-byte streams.
pub proof fn lemma_unpack_pack(bits: Seq<bool>)
    requires
        bits.len() % 8 == 0,
    ensures
        spec_bytes_bits(spec_bits_bytes(bits)) == bits,
    decreases bits.len(),
{
    if bits.len() == 0 {
        assert(spec_bytes_bits(spec_bits_bytes(bits)) =~= bits);
    } else {
        lemma_unpack_pack(bits.skip(8));
        let head = bits.take(8);
        let packed = spec_bits_bytes(bits);
        assert(packed[0] == bits_val(head) as u8);
        assert(packed.skip(1) =~= spec_bits_bytes(bits.skip(8)));
        lemma_bits_val_bound(head);
        assert(pow2(8) == 256) by {
            lemma2_to64();
        }
        lemma_uint_bits_of_val(head);
        assert(uint_bits(packed[0] as int, 8) == head);
        assert(uint_bits(packed[0] as int, 8) + bits.skip(8) =~= bits);
    }
}

/// Packs a whole-byte bitstream into bytes, most significant bit first.
pub fn bits_to_bytes(bits: &Vec<bool>) -> (r: Vec<u8>)
    requires
        bits@.len() % 8 == 0,
    ensures
        r@ == spec_bits_bytes(bits@),
{
    let mut r: Vec<u8> = Vec::new();
    let mut i: usize = 0;
    while bits.len() - i >= 8
        invariant
            i % 8 == 0,
            i <= bits@.len(),
            bits@.len() % 8 == 0,
            r@ == spec_bits_bytes(bits@.take(i as int)),
        decreases bits@.len() - i,
    {
        let chunk = vstd::slice::slice_subrange(bits.as_slice(), i, i + 8);
        let byte = slice_to_byte(chunk);
        r.push(byte);
        proof {
            lemma_bits_bytes_snoc(bits@.take(i as int), bits@.subrange(i as int, i + 8));
            assert(bits@.take(i as int) + bits@.subrange(i as int, i + 8) =~= bits@.take(i + 8));
            assert(r@ =~= spec_bits_bytes(bits@.take(i + 8)));
        }
        i = i + 8;
    }
    proof {
        assert(i == bits@.len());
        assert(bits@.take(i as int) =~= bits@);
    }
    r
}

/// Unpacks bytes into their bitstream, most significant bit first within
/// each byte.
pub fn bytes_to_bits(bytes: &[u8]) -> (r: Vec<bool>)
    ensures
        r@ == spec_bytes_bits(bytes@),
{
    let mut r: Vec<bool> = Vec::new();
    let mut i: usize = 0;
    while i < bytes.len()
        invariant
            i <= bytes@.len(),
            r@ == spec_bytes_bits(bytes@.take(i as int)),
        decreases bytes@.len() - i,
    {
        push_uint_bits(&mut r, bytes[i] as usize, 8);
        proof {
            lemma_bytes_bits_snoc(bytes@.take(i as int), bytes@[i as int]);
            assert(bytes@.take(i as int).push(bytes@[i as int]) =~= bytes@.take(i + 1));
        }
        i = i + 1;
    }
    proof {
        assert(bytes@.take(bytes@.len() as int) =~= bytes@);
    }
    r
}

/// `k` all-ones nibbles.
pub open spec fn spec_ones_blocks(k: int) -> Seq<bool>
    decreases k,
{
    if k <= 0 {
        Seq::empty()
    } else {
        seq![true, true, true, true] + spec_ones_blocks(k - 1)
    }
}

proof fn lemma_ones_blocks(k: int)
    requires
        k >= 0,
    ensures
        spec_ones_blocks(k).len() == 4 * k,
        forall|m: int| 0 <= m < 4 * k ==> spec_ones_blocks(k)[m],
    decreases k,
{
    if k > 0 {
        lemma_ones_blocks(k - 1);
        assert forall|m: int| 0 <= m < 4 * k implies spec_ones_blocks(k)[m] by {
            if m >= 4 {
                assert(spec_ones_blocks(k)[m] == spec_ones_blocks(k - 1)[m - 4]);
            }
        }
    }
}

/// The prefix-free variable-length code for a match length: two bits for
/// lengths two to four, four bits for five to seven, and for eight upward
/// `k = (length + 7) / 15` all-ones nibbles followed by the 4-bit value
/// `length - (15 * k - 7)`.
pub open spec fn spec_length_code(l: int) -> Seq<bool> {
    if l == 2 {
        seq![false, false]
    } else if l == 3 {
        seq![false, true]
    } else if l == 4 {
        seq![true, false]
    } else if l == 5 {
        seq![true, true, false, false]
    } else if l == 6 {
        seq![true, true, false, true]
    } else if l == 7 {
        seq![true, true, true, false]
    } else {
        let k = (l + 7) / 15;
        spec_ones_blocks(k) + uint_bits(l - (15 * k - 7), 4)
    }
}

/// What a parse of a length code yields: the decoded length and the number
/// of bits consumed, or nothing when the bits run out or the decoded length
/// would not fit in `u16`.
pub open spec fn spec_parse_length(bits: Seq<bool>) -> Option<(int, int)> {
    if bits.len() < 2 {
        Option::None
    } else if !bits[0] && !bits[1] {
        Option::Some((2int, 2int))
    } else if !bits[0] && bits[1] {
        Option::Some((3int, 2int))
    } else if bits[0] && !bits[1] {
        Option::Some((4int, 2int))
    } else if bits.len() < 4 {
        Option::None
    } else if !bits[2] && !bits[3] {
        Option::Some((5int, 4int))
    } else if !bits[2] && bits[3] {
        Option::Some((6int, 4int))
    } else if bits[2] && !bits[3] {
        Option::Some((7int, 4int))
    } else {
        spec_parse_length_blocks(bits, 1)
    }
}

/// The all-ones-nibble counting loop of the length decoder: `k` nibbles
/// have been recognized; the nibble at bit `4 * k` decides whether to count
/// on or to finish with the trailing 4-bit value.
pub open spec fn spec_parse_length_blocks(bits: Seq<bool>, k: int) -> Option<(int, int)>
    decreases bits.len() - 4 * k,
    when k >= 0
{
    if bits.len() < 4 * k + 4 {
        Option::None
    } else if bits[4 * k] && bits[4 * k + 1] && bits[4 * k + 2] && bits[4 * k + 3] {
        spec_parse_length_blocks(bits, k + 1)
    } else {
        let l = 15 * k - 7 + bits_val(bits.subrange(4 * k, 4 * k + 4));
        if l > u16::MAX {
            Option::None
        } else {
            Option::Some((l, 4 * k + 4))
        }
    }
}

/// What holds of every successful length parse: the length is a valid
/// non-unit match length that fits `u16`, and between two bits and the
/// whole input were consumed.
proof fn lemma_parse_length_blocks_facts(bits: Seq<bool>, k: int)
    requires
        1 <= k,
    ensures
        spec_parse_length_blocks(bits, k) matches Option::Some((l, c)) ==> {
            &&& 15 * k - 7 <= l <= u16::MAX
            &&& 4 * k + 4 <= c <= bits.len()
            &&& c <= 4 * 4370
        },
    decreases bits.len() - 4 * k,
{
    if bits.len() >= 4 * k + 4 {
        if bits[4 * k] && bits[4 * k + 1] && bits[4 * k + 2] && bits[4 * k + 3] {
            if 15 * (k + 1) - 7 <= u16::MAX {
                lemma_parse_length_blocks_facts(bits, k + 1);
            } else {
                lemma_parse_length_blocks_none(bits, k + 1);
            }
        } else {
            lemma_bits_val_bound(bits.subrange(4 * k, 4 * k + 4));
            assert(pow2(4) == 16) by {
                lemma2_to64();
            }
            match spec_parse_length_blocks(bits, k) {
                Option::Some((l, c)) => {
                    assert(l <= u16::MAX);
                    assert(15 * k - 7 <= l);
                    assert(k <= 4369);
                },
                Option::None => {},
            }
        }
    }
}

/// Once the counted nibbles alone push the length past `u16`, the parse can
/// only fail.
proof fn lemma_parse_length_blocks_none(bits: Seq<bool>, k: int)
    requires
        0 <= k,
        15 * k - 7 > u16::MAX,
    ensures
        spec_parse_length_blocks(bits, k) is None,
    decreases bits.len() - 4 * k,
{
    if bits.len() >= 4 * k + 4 {
        if bits[4 * k] && bits[4 * k + 1] && bits[4 * k + 2] && bits[4 * k + 3] {
            lemma_parse_length_blocks_none(bits, k + 1);
        } else {
            lemma_bits_val_bound(bits.subrange(4 * k, 4 * k + 4));
        }
    }
}

/// Every successful length parse consumed at least two bits, no more than
/// the input, and decoded a length between two and `u16::MAX`.
pub proof fn lemma_parse_length_facts(bits: Seq<bool>)
    ensures
        spec_parse_length(bits) matches Option::Some((l, c)) ==> {
            &&& 2 <= l <= u16::MAX
            &&& 2 <= c <= bits.len()
            &&& c <= 4 * 4370
        },
{
    if bits.len() >= 4 && bits[0] && bits[1] && bits[2] && bits[3] {
        lemma_parse_length_blocks_facts(bits, 1);
    }
}

/// Decoding an encoded length recovers the length and consumes exactly the
/// bits of its code, whatever follows it: the code is prefix-free.
pub proof fn lemma_parse_length_code(l: int, rest: Seq<bool>)
    requires
        2 <= l <= u16::MAX,
    ensures
        spec_parse_length(spec_length_code(l) + rest) == Option::Some(
            (l, spec_length_code(l).len() as int),
        ),
{
    let code = spec_length_code(l);
    let bits = code + rest;
    if l <= 7 {
    } else {
        let k = (l + 7) / 15;
        let v = l - (15 * k - 7);
        assert(1 <= k <= 4369);
        assert(0 <= v <= 14);
        lemma_ones_blocks(k);
        lemma_uint_bits_len(v, 4);
        assert(code.len() == 4 * k + 4);
        assert(forall|m: int| 0 <= m < 4 * k ==> bits[m]);
        assert(pow2(4) == 16) by {
            lemma2_to64();
        }
        lemma_bits_val_uint_bits(v, 4);
        assert(bits.subrange(4 * k, 4 * k + 4) =~= uint_bits(v, 4));
        lemma_parse_length_code_blocks(l, k, v, bits, 1);
        assert(bits[0] && bits[1] && bits[2] && bits[3]);
        assert(bits.len() >= 4);
    }
}

/// Encodes a match length with the prefix-free variable-length code.
pub fn serialise_length(length: u16) -> (r: Vec<bool>)
    requires
        length >= 2,
    ensures
        r@ == spec_length_code(length as int),
{
    let mut r: Vec<bool> = Vec::new();
    if length == 2 {
        r.push(false);
        r.push(false);
        proof {
            assert(r@ =~= spec_length_code(2));
        }
    } else if length == 3 {
        r.push(false);
        r.push(true);
        proof {
            assert(r@ =~= spec_length_code(3));
        }
    } else if length == 4 {
        r.push(true);
        r.push(false);
        proof {
            assert(r@ =~= spec_length_code(4));
        }
    } else if length == 5 {
        r.push(true);
        r.push(true);
        r.push(false);
        r.push(false);
        proof {
            assert(r@ =~= spec_length_code(5));
        }
    } else if length == 6 {
        r.push(true);
        r.push(true);
        r.push(false);
        r.push(true);
        proof {
            assert(r@ =~= spec_length_code(6));
        }
    } else if length == 7 {
        r.push(true);
        r.push(true);
        r.push(true);
        r.push(false);
        proof {
            assert(r@ =~= spec_length_code(7));
        }
    } else {
        let padding_one_blocks = (length as usize + 7) / 15;
        let mut b: usize = 0;
        while b < padding_one_blocks
            invariant
                b <= padding_one_blocks,
                r@ == spec_ones_blocks(b as int),
            decreases padding_one_blocks - b,
        {
            let ghost before = b as int;
            r.push(true);
            r.push(true);
            r.push(true);
            r.push(true);
            b = b + 1;
            proof {
                lemma_ones_blocks(before);
                lemma_ones_blocks(b as int);
                assert(r@ =~= spec_ones_blocks(b as int));
            }
        }
        let adjusted = (length as usize) - (padding_one_blocks * 15 - 7);
        push_uint_bits(&mut r, adjusted, 4);
        proof {
            assert(r@ =~= spec_length_code(length as int));
        }
    }
    r
}

/// Appends the bits of `to_add` to `original`.
fn append_bitvecs(original: &mut Vec<bool>, to_add: &Vec<bool>)
    ensures
        final(original)@ == old(original)@ + to_add@,
{
    let mut i: usize = 0;
    while i < to_add.len()
        invariant
            i <= to_add@.len(),
            original@ == old(original)@ + to_add@.take(i as int),
        decreases to_add@.len() - i,
    {
        original.push(to_add[i]);
        i = i + 1;
        proof {
            assert(original@ =~= old(original)@ + to_add@.take(i as int));
        }
    }
    proof {
        assert(original@ =~= old(original)@ + to_add@);
    }
}

/// The bit layout of one token: a tag bit, then for a literal its eight
/// data bits, for a reference an offset-class flag, the 7- or 11-bit
/// offset, and the length code. The end-of-stream sentinel has no layout.
pub open spec fn spec_node_bits(t: NodeType) -> Seq<bool> {
    match t {
        NodeType::ByteLiteral { lit } => seq![false] + uint_bits(lit as int, 8),
        NodeType::Reference { offset, length } => {
            if offset < 128 {
                seq![true, true] + uint_bits(offset as int, 7) + spec_length_code(length as int)
            } else {
                seq![true, false] + uint_bits(offset as int, 11) + spec_length_code(length as int)
            }
        },
        NodeType::EndOfStream => Seq::empty(),
    }
}

/// The bit layout of a token stream: each token's bits in order.
pub open spec fn spec_nodes_bits(ts: Seq<NodeType>) -> Seq<bool>
    decreases ts.len(),
{
    if ts.len() == 0 {
        Seq::empty()
    } else {
        spec_node_bits(ts[0]) + spec_nodes_bits(ts.skip(1))
    }
}

proof fn lemma_nodes_bits_snoc(ts: Seq<NodeType>, t: NodeType)
    ensures
        spec_nodes_bits(ts.push(t)) == spec_nodes_bits(ts) + spec_node_bits(t),
    decreases ts.len(),
{
    if ts.len() == 0 {
        assert(ts.push(t).skip(1) =~= ts);
        assert(ts.push(t)[0] == t);
        assert(spec_nodes_bits(ts.push(t)) == spec_node_bits(t) + spec_nodes_bits(ts));
        assert(spec_node_bits(t) + spec_nodes_bits(ts) =~= spec_nodes_bits(ts) + spec_node_bits(t));
    } else {
        lemma_nodes_bits_snoc(ts.skip(1), t);
        assert(ts.push(t).skip(1) =~= ts.skip(1).push(t));
        assert(ts.push(t)[0] == ts[0]);
        assert(spec_nodes_bits(ts.push(t)) == spec_node_bits(ts[0]) + (spec_nodes_bits(ts.skip(1))
            + spec_node_bits(t)));
        assert(spec_node_bits(ts[0]) + (spec_nodes_bits(ts.skip(1)) + spec_node_bits(t))
            =~= spec_nodes_bits(ts) + spec_node_bits(t));
    }
}

/// Serializes a token stream to its bit layout. Tokens must carry no
/// one-byte or zero-byte match: the length code starts at two.
pub fn serailise_nodes(nodes: &Vec<NodeType>) -> (r: Vec<bool>)
    requires
        forall|i: int|
            0 <= i < nodes@.len() ==> (#[trigger] nodes@[i] matches NodeType::Reference {
                length,
                ..
            } ==> length >= 2),
    ensures
        r@ == spec_nodes_bits(nodes@),
{
    let mut vec: Vec<bool> = Vec::new();
    let mut i: usize = 0;
    while i < nodes.len()
        invariant
            i <= nodes@.len(),
            vec@ == spec_nodes_bits(nodes@.take(i as int)),
            forall|j: int|
                0 <= j < nodes@.len() ==> (#[trigger] nodes@[j] matches NodeType::Reference {
                    length,
                    ..
                } ==> length >= 2),
        decreases nodes@.len() - i,
    {
        let node = nodes[i];
        let ghost before = vec@;
        match node {
            NodeType::ByteLiteral { lit } => {
                vec.push(false);
                push_uint_bits(&mut vec, lit as usize, 8);
                proof {
                    assert(vec@ =~= before + spec_node_bits(node));
                }
            },
            NodeType::Reference { offset, length } => {
                vec.push(true);
                if offset < 128 {
                    vec.push(true);
                    push_uint_bits(&mut vec, offset as usize, 7);
                } else {
                    vec.push(false);
                    push_uint_bits(&mut vec, offset as usize, 11);
                }
                let length_encoded = serialise_length(length);
                append_bitvecs(&mut vec, &length_encoded);
                proof {
                    assert(vec@ =~= before + spec_node_bits(node));
                }
            },
            NodeType::EndOfStream => {
                proof {
                    assert(vec@ =~= before + spec_node_bits(node));
                }
            },
        }
        i = i + 1;
        proof {
            lemma_nodes_bits_snoc(nodes@.take(i - 1), nodes@[i - 1]);
            assert(nodes@.take(i - 1).push(nodes@[i - 1]) =~= nodes@.take(i as int));
            assert(vec@ =~= spec_nodes_bits(nodes@.take(i as int)));
        }
    }
    proof {
        assert(nodes@.take(nodes@.len() as int) =~= nodes@);
    }
    vec
}

/// The nine-bit end-of-stream marker.
pub open spec fn spec_end_marker() -> Seq<bool> {
    seq![true, true, false, false, false, false, false, false, false]
}

/// A bitstream padded with zero bits to a whole byte.
pub open spec fn spec_pad_to_byte(bits: Seq<bool>) -> Seq<bool> {
    let r = bits.len() % 8;
    if r == 0 {
        bits
    } else {
        bits + Seq::new((8 - r) as nat, |i: int| false)
    }
}

/// Adds the end-of-stream bit sequence and pads the vector to a whole byte.
pub fn append_end_marker(encoding: &mut Vec<bool>)
    ensures
        final(encoding)@ == spec_pad_to_byte(old(encoding)@ + spec_end_marker()),
{
    encoding.push(true);
    encoding.push(true);
    encoding.push(false);
    encoding.push(false);
    encoding.push(false);
    encoding.push(false);
    encoding.push(false);
    encoding.push(false);
    encoding.push(false);
    proof {
        assert(encoding@ =~= old(encoding)@ + spec_end_marker());
    }
    let ghost base = encoding@;
    let trailing_bits = encoding.len() % 8;
    if trailing_bits > 0 {
        let mut q: usize = 0;
        while q < 8 - trailing_bits
            invariant
                q <= 8 - trailing_bits,
                trailing_bits == base.len() % 8,
                0 < trailing_bits < 8,
                encoding@ == base + Seq::new(q as nat, |i: int| false),
            decreases 8 - trailing_bits - q,
        {
            encoding.push(false);
            q = q + 1;
            proof {
                assert(encoding@ =~= base + Seq::new(q as nat, |i: int| false));
            }
        }
        proof {
            assert(encoding@ =~= spec_pad_to_byte(base));
        }
    } else {
        proof {
            assert(encoding@ =~= spec_pad_to_byte(base));
        }
    }
}

proof fn lemma_parse_length_code_blocks(l: int, k: int, v: int, bits: Seq<bool>, j: int)
    requires
        2 <= l <= u16::MAX,
        k == (l + 7) / 15,
        v == l - (15 * k - 7),
        1 <= j <= k,
        bits.len() >= 4 * k + 4,
        forall|m: int| 0 <= m < 4 * k ==> bits[m],
        bits_val(bits.subrange(4 * k, 4 * k + 4)) == v,
        0 <= v <= 14,
    ensures
        spec_parse_length_blocks(bits, j) == Option::Some((l, 4 * k + 4)),
    decreases k - j,
{
    if j == k {
        let nib = bits.subrange(4 * k, 4 * k + 4);
        assert(!(bits[4 * k] && bits[4 * k + 1] && bits[4 * k + 2] && bits[4 * k + 3])) by {
            if bits[4 * k] && bits[4 * k + 1] && bits[4 * k + 2] && bits[4 * k + 3] {
                assert(nib[0] && nib[1] && nib[2] && nib[3]);
                reveal_with_fuel(bits_val, 6);
                assert(bits_val(nib) == 15);
            }
        }
        assert(15 * k - 7 + v == l);
    } else {
        assert(bits[4 * j] && bits[4 * j + 1] && bits[4 * j + 2] && bits[4 * j + 3]);
        lemma_parse_length_code_blocks(l, k, v, bits, j + 1);
    }
}

/// Decodes a length from the head of `slice`, returning the length and the
/// number of bits consumed, or nothing when the bits run out or the length
/// would not fit in `u16`.
pub fn deserialise_length(slice: &[bool]) -> (r: Option<(u16, u16)>)
    ensures
        spec_parse_length(slice@) matches Option::Some((l, c)) ==> r == Option::Some(
            (l as u16, c as u16),
        ),
        spec_parse_length(slice@) is None ==> r is None,
{
    proof {
        lemma_parse_length_facts(slice@);
    }
    if slice.len() < 2 {
        return Option::None;
    }
    if !slice[0] && !slice[1] {
        return Option::Some((2, 2));
    }
    if !slice[0] && slice[1] {
        return Option::Some((3, 2));
    }
    if slice[0] && !slice[1] {
        return Option::Some((4, 2));
    }
    if slice.len() < 4 {
        return Option::None;
    }
    if !slice[2] && !slice[3] {
        return Option::Some((5, 4));
    }
    if !slice[2] && slice[3] {
        return Option::Some((6, 4));
    }
    if slice[2] && !slice[3] {
        return Option::Some((7, 4));
    }
    let mut four_bit_block_count: usize = 1;
    loop
        invariant
            1 <= four_bit_block_count <= 4370,
            spec_parse_length(slice@) == spec_parse_length_blocks(
                slice@,
                four_bit_block_count as int,
            ),
        ensures
            spec_parse_length(slice@) is None,
        decreases 4370 - four_bit_block_count,
    {
        let k = four_bit_block_count;
        if k > 4369 {
            proof {
                lemma_parse_length_blocks_none(slice@, k as int);
            }
            break;
        }
        if slice.len() < 4 * k + 4 {
            break;
        }
        let block_index = k * 4;
        if slice[block_index] && slice[block_index + 1] && slice[block_index + 2] && slice[
            block_index + 3] {
            four_bit_block_count = k + 1;
        } else {
            let nibble = vstd::slice::slice_subrange(slice, block_index, block_index + 4);
            let trailing_bit_value = slice_to_offset(nibble);
            let length = 15 * k - 7 + trailing_bit_value as usize;
            if length > u16::MAX as usize {
                break;
            }
            let next_read_offset = block_index + 4;
            return Option::Some((length as u16, next_read_offset as u16));
        }
    }
    Option::None
}

fn is_end_marker_at(bits: &Vec<bool>, pos: usize) -> (r: bool)
    requires
        pos + 9 <= bits@.len(),
    ensures
        r <==> bits@.subrange(pos as int, pos + 9) == spec_end_marker(),
{
    let n = bits.len();
    proof {
        assert(pos + 9 <= n);
    }
    let r = bits[pos] && bits[pos + 1] && !bits[pos + 2] && !bits[pos + 3] && !bits[pos + 4]
        && !bits[pos + 5] && !bits[pos + 6] && !bits[pos + 7] && !bits[pos + 8];
    proof {
        let sub = bits@.subrange(pos as int, pos + 9);
        if r {
            assert(sub =~= spec_end_marker());
        }
        if sub == spec_end_marker() {
            assert(sub[0] && sub[1] && !sub[2] && !sub[3] && !sub[4] && !sub[5] && !sub[6]
                && !sub[7] && !sub[8]);
        }
    }
    r
}

/// A parse outcome seen from a bit position `n` further left: a failure
/// offset moves right by `n`, a token stream is unchanged.
pub open spec fn spec_parse_shift(r: Result<Seq<NodeType>, int>, n: int) -> Result<
    Seq<NodeType>,
    int,
> {
    match r {
        Result::Ok(ts) => Result::Ok(ts),
        Result::Err(q) => Result::Err(q + n),
    }
}

/// What a parse of a whole bitstream yields on top of already-decoded
/// tokens: the decoder checks for the nine-bit end-of-stream marker before
/// every token, then dispatches on the tag and offset-class bits. `Err`
/// carries the bit offset of the failure: the start of the token the bits
/// ran out under, or of the length field that was malformed.
pub open spec fn spec_parse_from(bits: Seq<bool>, acc: Seq<NodeType>) -> Result<
    Seq<NodeType>,
    int,
>
    decreases bits.len(),
    when true
    via spec_parse_from_decreases
{
    if bits.len() < 9 {
        Result::Err(0int)
    } else if bits.take(9) == spec_end_marker() {
        Result::Ok(acc)
    } else if !bits[0] {
        spec_parse_shift(
            spec_parse_from(
                bits.skip(9),
                acc.push(NodeType::ByteLiteral { lit: bits_val(bits.subrange(1, 9)) as u8 }),
            ),
            9,
        )
    } else if bits[1] {
        match spec_parse_length(bits.skip(9)) {
            Option::None => Result::Err(9int),
            Option::Some((l, c)) => spec_parse_shift(
                spec_parse_from(
                    bits.skip(9 + c),
                    acc.push(
                        NodeType::Reference {
                            offset: bits_val(bits.subrange(2, 9)) as u16,
                            length: l as u16,
                        },
                    ),
                ),
                9 + c,
            ),
        }
    } else if bits.len() < 13 {
        Result::Err(0int)
    } else {
        match spec_parse_length(bits.skip(13)) {
            Option::None => Result::Err(13int),
            Option::Some((l, c)) => spec_parse_shift(
                spec_parse_from(
                    bits.skip(13 + c),
                    acc.push(
                        NodeType::Reference {
                            offset: bits_val(bits.subrange(2, 13)) as u16,
                            length: l as u16,
                        },
                    ),
                ),
                13 + c,
            ),
        }
    }
}

#[via_fn]
proof fn spec_parse_from_decreases(bits: Seq<bool>, acc: Seq<NodeType>) {
    lemma_parse_length_facts(bits.skip(9));
    if bits.len() >= 13 {
        lemma_parse_length_facts(bits.skip(13));
    }
}

proof fn lemma_parse_shift_zero(r: Result<Seq<NodeType>, int>)
    ensures
        spec_parse_shift(r, 0) == r,
{
    match r {
        Result::Ok(ts) => {},
        Result::Err(q) => {},
    }
}

proof fn lemma_parse_shift_compose(r: Result<Seq<NodeType>, int>, n1: int, n2: int)
    ensures
        spec_parse_shift(spec_parse_shift(r, n1), n2) == spec_parse_shift(r, n1 + n2),
{
    match r {
        Result::Ok(ts) => {},
        Result::Err(q) => {},
    }
}

/// Walks the packed bitstream and decodes the token stream, stopping at the
/// end-of-stream marker. Fails with `MalformedStream` when the bits run out
/// before the marker or an encoded length does not fit `u16`; the carried
/// bit offset is exactly the failure offset the parse fixes.
#[verifier::rlimit(30)]
pub fn deserialise_nodes(file_bytes: &Vec<u8>) -> (r: Result<Vec<NodeType>, Lz77Error>)
    ensures
        spec_parse_from(spec_bytes_bits(file_bytes@), Seq::empty()) matches Result::Ok(ts) ==> (
        r matches Result::Ok(v) && v@ == ts),
        spec_parse_from(spec_bytes_bits(file_bytes@), Seq::empty()) matches Result::Err(q) ==> (
        r matches Result::Err(e) && e matches Lz77Error::MalformedStream { bit_offset }
            && bit_offset == q),
{
    let bit_view = bytes_to_bits(file_bytes.as_slice());
    let ghost all_bits = bit_view@;
    let mut nodes: Vec<NodeType> = Vec::new();
    let mut bitstream_offset: usize = 0;
    proof {
        assert(all_bits.skip(0) =~= all_bits);
        lemma_parse_shift_zero(spec_parse_from(all_bits, Seq::empty()));
    }
    loop
        invariant
            bitstream_offset <= all_bits.len(),
            all_bits == bit_view@,
            all_bits == spec_bytes_bits(file_bytes@),
            spec_parse_from(spec_bytes_bits(file_bytes@), Seq::empty()) == spec_parse_shift(
                spec_parse_from(all_bits.skip(bitstream_offset as int), nodes@),
                bitstream_offset as int,
            ),
        ensures
            spec_parse_from(spec_bytes_bits(file_bytes@), Seq::empty()) matches Result::Ok(ts)
                && ts == nodes@,
        decreases all_bits.len() - bitstream_offset,
    {
        let ghost pos = bitstream_offset as int;
        let ghost suffix = all_bits.skip(pos);
        if bit_view.len() - bitstream_offset < 9 {
            return Result::Err(Lz77Error::MalformedStream { bit_offset: bitstream_offset });
        }
        if is_end_marker_at(&bit_view, bitstream_offset) {
            proof {
                assert(suffix.take(9) =~= all_bits.subrange(pos, pos + 9));
            }
            break;
        }
        proof {
            assert(suffix.take(9) =~= all_bits.subrange(pos, pos + 9));
        }
        let is_reference_node = bit_view[bitstream_offset];
        if !is_reference_node {
            let byte_literal = vstd::slice::slice_subrange(
                bit_view.as_slice(),
                bitstream_offset + 1,
                bitstream_offset + 9,
            );
            let lit = slice_to_byte(byte_literal);
            nodes.push(NodeType::ByteLiteral { lit });
            bitstream_offset = bitstream_offset + 9;
            proof {
                assert(byte_literal@ =~= suffix.subrange(1, 9));
                assert(suffix.skip(9) =~= all_bits.skip(pos + 9));
                assert(suffix[0] == all_bits[pos]);
                lemma_parse_shift_compose(
                    spec_parse_from(all_bits.skip(pos + 9), nodes@),
                    9,
                    pos,
                );
            }
        } else {
            let offset_sub_128 = bit_view[bitstream_offset + 1];
            let offset: u16;
            let offset_bits: usize;
            if offset_sub_128 {
                let offset_slice = vstd::slice::slice_subrange(
                    bit_view.as_slice(),
                    bitstream_offset + 2,
                    bitstream_offset + 9,
                );
                offset = slice_to_offset(offset_slice);
                offset_bits = 9;
                proof {
                    assert(offset_slice@ =~= suffix.subrange(2, 9));
                }
            } else {
                if bit_view.len() - bitstream_offset < 13 {
                    return Result::Err(Lz77Error::MalformedStream {
                        bit_offset: bitstream_offset,
                    });
                }
                let offset_slice = vstd::slice::slice_subrange(
                    bit_view.as_slice(),
                    bitstream_offset + 2,
                    bitstream_offset + 13,
                );
                offset = slice_to_offset(offset_slice);
                offset_bits = 13;
                proof {
                    assert(offset_slice@ =~= suffix.subrange(2, 13));
                }
            }
            let length_slice = vstd::slice::slice_subrange(
                bit_view.as_slice(),
                bitstream_offset + offset_bits,
                bit_view.len(),
            );
            proof {
                assert(length_slice@ =~= suffix.skip(offset_bits as int));
                lemma_parse_length_facts(length_slice@);
            }
            match deserialise_length(length_slice) {
                Option::None => {
                    return Result::Err(Lz77Error::MalformedStream {
                        bit_offset: bitstream_offset + offset_bits,
                    });
                },
                Option::Some((length, bits_read)) => {
                    nodes.push(NodeType::Reference { offset, length });
                    bitstream_offset = bitstream_offset + offset_bits + bits_read as usize;
                    proof {
                        assert(suffix.skip(offset_bits + bits_read as int) =~= all_bits.skip(
                            pos + offset_bits + bits_read as int,
                        ));
                        assert(suffix[0] == all_bits[pos] && suffix[1] == all_bits[pos + 1]);
                        lemma_parse_shift_compose(
                            spec_parse_from(
                                all_bits.skip(pos + offset_bits + bits_read as int),
                                nodes@,
                            ),
                            offset_bits + bits_read as int,
                            pos,
                        );
                    }
                },
            }
        }
    }
    Result::Ok(nodes)
}

proof fn lemma_bits_val_all_false(s: Seq<bool>)
    requires
        forall|j: int| 0 <= j < s.len() ==> !s[j],
    ensures
        bits_val(s) == 0,
    decreases s.len(),
{
    if s.len() > 0 {
        assert forall|j: int| 0 <= j < s.drop_last().len() implies !s.drop_last()[j] by {
            assert(s.drop_last()[j] == s[j]);
        }
        lemma_bits_val_all_false(s.drop_last());
    }
}

/// A token the bit codec can frame: a literal, or a reference whose offset
/// fits the 11-bit field and whose length the length code covers.
pub open spec fn encodable(t: NodeType) -> bool {
    match t {
        NodeType::ByteLiteral { lit } => true,
        NodeType::Reference { offset, length } => 1 <= offset <= 2047 && 2 <= length,
        NodeType::EndOfStream => false,
    }
}

/// Decoding consumes an encodable token's bits exactly and yields that
/// token back, whatever bits follow: no token's encoding can be mistaken
/// for the end-of-stream marker. A failure further on keeps its offset,
/// moved past this token's bits.
proof fn lemma_parse_node(t: NodeType, rest: Seq<bool>, acc: Seq<NodeType>)
    requires
        encodable(t),
    ensures
        spec_parse_from(spec_node_bits(t) + rest, acc) == spec_parse_shift(
            spec_parse_from(rest, acc.push(t)),
            spec_node_bits(t).len() as int,
        ),
{
    let nb = spec_node_bits(t);
    let bits = nb + rest;
    match t {
        NodeType::ByteLiteral { lit } => {
            lemma_uint_bits_len(lit as int, 8);
            assert(nb.len() == 9);
            assert(!bits[0]);
            if bits.take(9) == spec_end_marker() {
                assert(bits.take(9)[0] == spec_end_marker()[0]);
                assert(false);
            }
            assert(bits.subrange(1, 9) =~= uint_bits(lit as int, 8));
            assert(pow2(8) == 256) by {
                lemma2_to64();
            }
            lemma_bits_val_uint_bits(lit as int, 8);
            assert(bits.skip(9) =~= rest);
        },
        NodeType::Reference { offset, length } => {
            let lc = spec_length_code(length as int);
            lemma_parse_length_code(length as int, rest);
            if offset < 128 {
                lemma_uint_bits_len(offset as int, 7);
                assert(nb.len() == 9 + lc.len());
                assert(bits[0] && bits[1]);
                assert(bits.subrange(2, 9) =~= uint_bits(offset as int, 7));
                assert(pow2(7) == 128) by {
                    lemma2_to64();
                }
                lemma_bits_val_uint_bits(offset as int, 7);
                if bits.take(9) == spec_end_marker() {
                    let s = bits.subrange(2, 9);
                    assert forall|j: int| 0 <= j < s.len() implies !s[j] by {
                        assert(s[j] == bits.take(9)[j + 2]);
                        assert(!spec_end_marker()[j + 2]);
                    }
                    lemma_bits_val_all_false(s);
                    assert(false);
                }
                assert(bits.skip(9) =~= lc + rest);
                assert(spec_parse_length(bits.skip(9)) == Option::Some(
                    (length as int, lc.len() as int),
                ));
                assert(bits.skip(9 + lc.len() as int) =~= rest);
            } else {
                lemma_uint_bits_len(offset as int, 11);
                assert(nb.len() == 13 + lc.len());
                assert(bits[0] && !bits[1]);
                if bits.take(9) == spec_end_marker() {
                    assert(bits.take(9)[1] == spec_end_marker()[1]);
                    assert(false);
                }
                assert(bits.subrange(2, 13) =~= uint_bits(offset as int, 11));
                assert(pow2(11) == 2048) by {
                    lemma2_to64();
                }
                lemma_bits_val_uint_bits(offset as int, 11);
                assert(bits.skip(13) =~= lc + rest);
                assert(spec_parse_length(bits.skip(13)) == Option::Some(
                    (length as int, lc.len() as int),
                ));
                assert(bits.skip(13 + lc.len() as int) =~= rest);
            }
        },
        NodeType::EndOfStream => {
            assert(false);
        },
    }
}

/// Decoding an encoded token stream, terminated by the marker and followed
/// by any padding, yields exactly the encoded tokens.
#[verifier::rlimit(30)]
pub proof fn lemma_parse_encoded(ts: Seq<NodeType>, pad: Seq<bool>, acc: Seq<NodeType>)
    requires
        forall|i: int| 0 <= i < ts.len() ==> encodable(#[trigger] ts[i]),
    ensures
        spec_parse_from(spec_nodes_bits(ts) + spec_end_marker() + pad, acc) == Result::<
            Seq<NodeType>,
            int,
        >::Ok(acc + ts),
    decreases ts.len(),
{
    let bits = spec_nodes_bits(ts) + spec_end_marker() + pad;
    if ts.len() == 0 {
        assert(spec_nodes_bits(ts) =~= Seq::<bool>::empty());
        assert(bits.len() >= 9);
        assert(bits.take(9) =~= spec_end_marker());
        assert(acc + ts =~= acc);
    } else {
        let t = ts[0];
        let rest = spec_nodes_bits(ts.skip(1)) + spec_end_marker() + pad;
        assert(bits =~= spec_node_bits(t) + rest);
        lemma_parse_node(t, rest, acc);
        assert forall|i: int| 0 <= i < ts.skip(1).len() implies encodable(#[trigger] ts.skip(1)[i])
            by {
            assert(ts.skip(1)[i] == ts[i + 1]);
        }
        lemma_parse_encoded(ts.skip(1), pad, acc.push(t));
        assert(acc.push(t) + ts.skip(1) =~= acc + ts);
    }
}

/// A whole-byte bitstream packs into one byte per eight bits.
pub proof fn lemma_bits_bytes_len(bits: Seq<bool>)
    requires
        bits.len() % 8 == 0,
    ensures
        spec_bits_bytes(bits).len() * 8 == bits.len(),
    decreases bits.len(),
{
    if bits.len() >= 8 {
        lemma_bits_bytes_len(bits.skip(8));
    }
}

/// A bitstream that begins with the end-of-stream marker decodes to the
/// empty token stream, whatever follows the marker.
pub proof fn lemma_marker_rejection(bits: Seq<bool>)
    requires
        bits.len() >= 9,
        bits.take(9) == spec_end_marker(),
    ensures
        spec_parse_from(bits, Seq::empty()) == Result::<Seq<NodeType>, int>::Ok(
            Seq::<NodeType>::empty(),
        ),
{
}

} // verus!

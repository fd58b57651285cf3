use vstd::prelude::*;

use crate::nodes::Lz77Error;
use crate::nodes::NodeType;
use crate::window_byte_container::ByteBuffer;
use crate::window_byte_container::window_hi;
use crate::window_byte_container::window_lo;
use crate::window_byte_container::ByteWindow;

verus! {

/// Maximum look-behind for matches. One less than the 2048-byte window the
/// codec could express, so that every offset fits the 11-bit offset field.
pub const SEARCH_WINDOW_SIZE: u16 = 2047;

/// Maximum look-ahead beyond the current byte.
pub const PREFIX_WINDOW_SIZE: u16 = 2048;

/// Length of the longest common prefix of `a` and `b`.
pub open spec fn spec_match_len(a: Seq<u8>, b: Seq<u8>) -> int
    decreases a.len(),
{
    if a.len() == 0 || b.len() == 0 || a[0] != b[0] {
        0
    } else {
        1 + spec_match_len(a.skip(1), b.skip(1))
    }
}

pub proof fn lemma_match_len_bounds(a: Seq<u8>, b: Seq<u8>)
    ensures
        0 <= spec_match_len(a, b),
        spec_match_len(a, b) <= a.len(),
        spec_match_len(a, b) <= b.len(),
        forall|j: int| 0 <= j < spec_match_len(a, b) ==> a[j] == b[j],
    decreases a.len(),
{
    if a.len() == 0 || b.len() == 0 || a[0] != b[0] {
    } else {
        lemma_match_len_bounds(a.skip(1), b.skip(1));
        let m = spec_match_len(a, b);
        assert forall|j: int| 0 <= j < m implies a[j] == b[j] by {
            if j > 0 {
                assert(a.skip(1)[j - 1] == a[j]);
                assert(b.skip(1)[j - 1] == b[j]);
            }
        }
    }
}

proof fn lemma_match_len_from_pointwise(a: Seq<u8>, b: Seq<u8>, m: int)
    requires
        0 <= m <= a.len(),
        m <= b.len(),
        forall|j: int| 0 <= j < m ==> a[j] == b[j],
        m == a.len() || m == b.len() || a[m] != b[m],
    ensures
        spec_match_len(a, b) == m,
    decreases m,
{
    if m == 0 {
    } else {
        assert(a[0] == b[0]);
        assert forall|j: int| 0 <= j < m - 1 implies a.skip(1)[j] == b.skip(1)[j] by {
            assert(a.skip(1)[j] == a[j + 1]);
            assert(b.skip(1)[j] == b[j + 1]);
        }
        if m < a.len() && m < b.len() {
            assert(a.skip(1)[m - 1] == a[m]);
            assert(b.skip(1)[m - 1] == b[m]);
        }
        lemma_match_len_from_pointwise(a.skip(1), b.skip(1), m - 1);
    }
}

/// The length of the candidate held by the running best match: zero when no
/// candidate has been accepted yet.
pub open spec fn spec_best_len(best: Option<(int, int)>) -> int {
    match best {
        Option::None => 0,
        Option::Some((o, l)) => l,
    }
}

/// One backward scan step over the search window. At index `i` a candidate
/// match of `c` followed by the common series is measured; it replaces the
/// running best only when its full length (series plus one for `c`)
/// strictly exceeds the best's, so on ties the candidate met first -- the
/// one with the smaller offset -- is kept. A bare occurrence with no
/// series after it is never a candidate: a one-byte match stays a literal.
pub open spec fn spec_scan(
    c: u8,
    search: Seq<u8>,
    prefix: Seq<u8>,
    i: int,
    best: Option<(int, int)>,
) -> Option<(int, int)>
    decreases i + 1,
{
    if i < 0 {
        best
    } else {
        let series = spec_match_len(search.skip(i + 1), prefix);
        let next = if search[i] == c && series >= 1 && series + 1 > spec_best_len(best) {
            Option::Some((search.len() - i, series + 1))
        } else {
            best
        };
        spec_scan(c, search, prefix, i - 1, next)
    }
}

/// The reference the longest-match search settles on: offset and length of
/// the best match of `c ++ prefix` inside `search`, or `None` when no match
/// of length at least two exists.
pub open spec fn spec_best_match(c: u8, search: Seq<u8>, prefix: Seq<u8>) -> Option<(int, int)> {
    spec_scan(c, search, prefix, search.len() - 1, Option::None)
}

/// What every accepted match satisfies: the offset points at an occurrence
/// of `c`, the length counts `c` plus the common series after it, a match is
/// at least two bytes, and never longer than its offset nor than the prefix
/// plus one.
pub open spec fn valid_best(
    c: u8,
    search: Seq<u8>,
    prefix: Seq<u8>,
    r: Option<(int, int)>,
) -> bool {
    match r {
        Option::None => true,
        Option::Some((o, l)) => {
            &&& 1 <= o <= search.len()
            &&& 2 <= l <= o
            &&& l <= prefix.len() + 1
            &&& search[search.len() - o] == c
            &&& l - 1 == spec_match_len(search.skip(search.len() - o + 1), prefix)
        },
    }
}

proof fn lemma_scan_valid(c: u8, search: Seq<u8>, prefix: Seq<u8>, i: int, best: Option<(int, int)>)
    requires
        i < search.len(),
        valid_best(c, search, prefix, best),
    ensures
        valid_best(c, search, prefix, spec_scan(c, search, prefix, i, best)),
    decreases i + 1,
{
    if i >= 0 {
        let m = spec_match_len(search.skip(i + 1), prefix);
        lemma_match_len_bounds(search.skip(i + 1), prefix);
        let next = if search[i] == c && m >= 1 && m + 1 > spec_best_len(best) {
            Option::Some((search.len() - i, m + 1))
        } else {
            best
        };
        lemma_scan_valid(c, search, prefix, i - 1, next);
    }
}

pub proof fn lemma_best_match_valid(c: u8, search: Seq<u8>, prefix: Seq<u8>)
    ensures
        valid_best(c, search, prefix, spec_best_match(c, search, prefix)),
{
    lemma_scan_valid(c, search, prefix, search.len() - 1, Option::None);
}

/// The full length a candidate must strictly exceed to replace `best`: the
/// held match's length, or one when none is held yet, so that a one-byte
/// match never becomes a reference.
pub open spec fn spec_scan_threshold(best: Option<(int, int)>) -> int {
    if spec_best_len(best) >= 1 {
        spec_best_len(best)
    } else {
        1
    }
}

proof fn lemma_scan_greatest(
    c: u8,
    search: Seq<u8>,
    prefix: Seq<u8>,
    i: int,
    best: Option<(int, int)>,
)
    requires
        i < search.len(),
        valid_best(c, search, prefix, best),
        forall|j: int|
            i < j < search.len() && search[j] == c ==> (#[trigger] spec_match_len(
                search.skip(j + 1),
                prefix,
            )) + 1 <= spec_scan_threshold(best),
        best matches Option::Some((o, l)) ==> search.len() - o > i,
        best matches Option::Some((o, l)) ==> forall|j: int|
            i < j < search.len() && search[j] == c && (#[trigger] spec_match_len(
                search.skip(j + 1),
                prefix,
            )) + 1 == l ==> j <= search.len() - o,
    ensures
        forall|j: int|
            0 <= j < search.len() && search[j] == c ==> (#[trigger] spec_match_len(
                search.skip(j + 1),
                prefix,
            )) + 1 <= spec_scan_threshold(spec_scan(c, search, prefix, i, best)),
        spec_scan(c, search, prefix, i, best) matches Option::Some((o, l)) ==> forall|j: int|
            0 <= j < search.len() && search[j] == c && (#[trigger] spec_match_len(
                search.skip(j + 1),
                prefix,
            )) + 1 == l ==> j <= search.len() - o,
    decreases i + 1,
{
    if i >= 0 {
        let m = spec_match_len(search.skip(i + 1), prefix);
        lemma_match_len_bounds(search.skip(i + 1), prefix);
        let next = if search[i] == c && m >= 1 && m + 1 > spec_best_len(best) {
            Option::Some((search.len() - i, m + 1))
        } else {
            best
        };
        lemma_scan_valid(c, search, prefix, i, best);
        lemma_scan_greatest(c, search, prefix, i - 1, next);
    }
}

/// The settled match is the strictly greatest: no candidate anywhere in the
/// search window is longer, and among candidates of the settled length the
/// chosen one is the nearest, so it carries the smallest offset. When the
/// search settles on no match, no candidate of length at least two exists.
pub proof fn lemma_best_match_greatest(c: u8, search: Seq<u8>, prefix: Seq<u8>)
    ensures
        spec_best_match(c, search, prefix) matches Option::Some((o, l)) ==> forall|j: int|
            0 <= j < search.len() && search[j] == c ==> (#[trigger] spec_match_len(
                search.skip(j + 1),
                prefix,
            )) + 1 <= l,
        spec_best_match(c, search, prefix) matches Option::Some((o, l)) ==> forall|j: int|
            0 <= j < search.len() && search[j] == c && (#[trigger] spec_match_len(
                search.skip(j + 1),
                prefix,
            )) + 1 == l ==> j <= search.len() - o,
        spec_best_match(c, search, prefix) is None ==> forall|j: int|
            0 <= j < search.len() && search[j] == c ==> (#[trigger] spec_match_len(
                search.skip(j + 1),
                prefix,
            )) < 1,
{
    lemma_scan_greatest(c, search, prefix, search.len() - 1, Option::None);
    lemma_best_match_valid(c, search, prefix);
}

fn find_length_of_series_match(left: &[u8], right: &[u8]) -> (r: usize)
    ensures
        r == spec_match_len(left@, right@),
{
    let max_count = if left.len() < right.len() {
        left.len()
    } else {
        right.len()
    };
    let mut i: usize = 0;
    while i < max_count
        invariant
            0 <= i <= max_count,
            max_count <= left@.len(),
            max_count <= right@.len(),
            max_count == left@.len() || max_count == right@.len(),
            forall|j: int| 0 <= j < i ==> left@[j] == right@[j],
        decreases max_count - i,
    {
        if left[i] != right[i] {
            proof {
                lemma_match_len_from_pointwise(left@, right@, i as int);
            }
            return i;
        }
        i = i + 1;
    }
    proof {
        lemma_match_len_from_pointwise(left@, right@, max_count as int);
    }
    max_count
}

/// Scans the search window from its tail backward for the best match of
/// `first_uncompressed_byte` followed by the longest series from
/// `bytes_to_compressed`, and returns it as a reference node.
fn calculate_reference_node(
    first_uncompressed_byte: u8,
    compressed_bytes: &[u8],
    bytes_to_compressed: &[u8],
) -> (r: Option<NodeType>)
    requires
        compressed_bytes@.len() <= SEARCH_WINDOW_SIZE,
    ensures
        spec_best_match(first_uncompressed_byte, compressed_bytes@, bytes_to_compressed@)
            matches Option::Some((o, l)) ==> r == Option::Some(
            NodeType::Reference { offset: o as u16, length: l as u16 },
        ),
        spec_best_match(first_uncompressed_byte, compressed_bytes@, bytes_to_compressed@)
            is None ==> r is None,
{
    let ghost c = first_uncompressed_byte;
    let ghost search = compressed_bytes@;
    let ghost prefix = bytes_to_compressed@;
    let mut offset: usize = 0;
    let mut length: usize = 0;
    let n = compressed_bytes.len();

    if n > 0 {
        let mut idx: usize = 0;
        while idx < n
            invariant
                0 <= idx <= n,
                c == first_uncompressed_byte,
                search == compressed_bytes@,
                prefix == bytes_to_compressed@,
                n == search.len(),
                n <= SEARCH_WINDOW_SIZE,
                spec_best_match(c, search, prefix) == spec_scan(
                    c,
                    search,
                    prefix,
                    n - 1 - idx,
                    if length == 0 {
                        Option::<(int, int)>::None
                    } else {
                        Option::Some((offset as int, length as int))
                    },
                ),
                length == 0 ==> offset == 0,
                length > 0 ==> 1 <= offset <= n && 2 <= length <= n,
            decreases n - idx,
        {
            let i = n - 1 - idx;
            let ghost best0 = if length == 0 {
                Option::<(int, int)>::None
            } else {
                Option::Some((offset as int, length as int))
            };
            if first_uncompressed_byte == compressed_bytes[i] {
                let tail = vstd::slice::slice_subrange(compressed_bytes, i + 1, n);
                proof {
                    assert(tail@ =~= search.skip(i + 1));
                }
                let series_match = find_length_of_series_match(tail, bytes_to_compressed);
                proof {
                    lemma_match_len_bounds(search.skip(i + 1), prefix);
                }
                if series_match >= 1 && series_match + 1 > length {
                    offset = n - i;
                    length = series_match + 1;
                }
            }
            proof {
                let series = spec_match_len(search.skip(i + 1), prefix);
                let next = if search[i as int] == c && series >= 1 && series + 1 > spec_best_len(
                    best0,
                ) {
                    Option::<(int, int)>::Some((search.len() - i, series + 1))
                } else {
                    best0
                };
                assert(spec_scan(c, search, prefix, i as int, best0) == spec_scan(
                    c,
                    search,
                    prefix,
                    i - 1,
                    next,
                ));
            }
            idx = idx + 1;
        }
    }

    if length == 0 {
        return Option::None;
    }

    Option::Some(
        NodeType::Reference { offset: offset as u16, length: length as u16 },
    )
}

/// The already-consumed history visible to the tokenizer at cursor `p`.
pub open spec fn search_seq(b: Seq<u8>, p: int) -> Seq<u8> {
    b.subrange(window_lo(p, SEARCH_WINDOW_SIZE as int), p)
}

/// The look-ahead beyond the current byte visible to the tokenizer at
/// cursor `p`.
pub open spec fn prefix_seq(b: Seq<u8>, p: int) -> Seq<u8> {
    b.subrange(p + 1, window_hi(p + 1 + PREFIX_WINDOW_SIZE as int, b.len() as int))
}

/// The token stream the tokenizer emits for the input suffix starting at
/// cursor `p`: a reference when the longest-match search finds one, else a
/// literal, each advancing the cursor by the bytes it covers.
pub open spec fn spec_tokens_from(b: Seq<u8>, p: int) -> Seq<NodeType>
    decreases b.len() - p,
    when p >= 0
    via spec_tokens_from_decreases
{
    if p >= b.len() {
        Seq::empty()
    } else {
        match spec_best_match(b[p], search_seq(b, p), prefix_seq(b, p)) {
            Option::None => seq![NodeType::ByteLiteral { lit: b[p] }] + spec_tokens_from(b, p + 1),
            Option::Some((o, l)) => seq![NodeType::Reference { offset: o as u16, length: l as u16 }]
                + spec_tokens_from(b, p + l),
        }
    }
}

#[via_fn]
proof fn spec_tokens_from_decreases(b: Seq<u8>, p: int) {
    if 0 <= p < b.len() {
        lemma_best_match_valid(b[p], search_seq(b, p), prefix_seq(b, p));
    }
}

/// The full token stream for an input.
pub open spec fn spec_tokens(b: Seq<u8>) -> Seq<NodeType> {
    spec_tokens_from(b, 0)
}

/// A token as the tokenizer is allowed to emit it: a literal, or a
/// reference whose offset fits the search window and whose length spans at
/// least two bytes and never reaches back past its own start.
pub open spec fn token_wf(t: NodeType) -> bool {
    match t {
        NodeType::ByteLiteral { lit } => true,
        NodeType::Reference { offset, length } => {
            &&& 1 <= offset <= SEARCH_WINDOW_SIZE
            &&& 2 <= length <= offset
        },
        NodeType::EndOfStream => false,
    }
}

proof fn lemma_tokens_from_wf(b: Seq<u8>, p: int)
    requires
        0 <= p,
    ensures
        forall|i: int|
            0 <= i < spec_tokens_from(b, p).len() ==> #[trigger] token_wf(spec_tokens_from(b, p)[i]),
    decreases b.len() - p,
{
    if p < b.len() {
        lemma_best_match_valid(b[p], search_seq(b, p), prefix_seq(b, p));
        let s = spec_tokens_from(b, p);
        match spec_best_match(b[p], search_seq(b, p), prefix_seq(b, p)) {
            Option::None => {
                lemma_tokens_from_wf(b, p + 1);
                let rest = spec_tokens_from(b, p + 1);
                assert forall|i: int| 0 <= i < s.len() implies #[trigger] token_wf(s[i]) by {
                    if i == 0 {
                        assert(s[0] == NodeType::ByteLiteral { lit: b[p] });
                    } else {
                        assert(s[i] == rest[i - 1]);
                        assert(token_wf(rest[i - 1]));
                    }
                }
            },
            Option::Some((o, l)) => {
                assert(search_seq(b, p).len() <= SEARCH_WINDOW_SIZE);
                lemma_tokens_from_wf(b, p + l);
                let rest = spec_tokens_from(b, p + l);
                assert forall|i: int| 0 <= i < s.len() implies #[trigger] token_wf(s[i]) by {
                    if i == 0 {
                        assert(s[0] == NodeType::Reference {
                            offset: o as u16,
                            length: l as u16,
                        });
                    } else {
                        assert(s[i] == rest[i - 1]);
                        assert(token_wf(rest[i - 1]));
                    }
                }
            },
        }
    }
}

/// When the current byte occurs nowhere in the search window, the scan
/// accepts no candidate.
pub proof fn lemma_scan_none(c: u8, search: Seq<u8>, prefix: Seq<u8>, i: int)
    requires
        forall|j: int| 0 <= j < search.len() ==> search[j] != c,
        i < search.len(),
    ensures
        spec_scan(c, search, prefix, i, Option::None) is None,
    decreases i + 1,
{
    if i >= 0 {
        lemma_scan_none(c, search, prefix, i - 1);
    }
}

/// Every token the tokenizer emits is a literal or a well-formed reference;
/// in particular it is never the end-of-stream sentinel.
pub proof fn lemma_token_stream_wf(b: Seq<u8>)
    ensures
        forall|i: int|
            0 <= i < spec_tokens(b).len() ==> #[trigger] token_wf(spec_tokens(b)[i]),
{
    lemma_tokens_from_wf(b, 0);
}

/// The tokenizer never emits a one-byte reference: a one-byte match is
/// always downgraded to a literal.
pub proof fn lemma_no_single_byte_references(b: Seq<u8>)
    ensures
        forall|i: int|
            0 <= i < spec_tokens(b).len() ==> (#[trigger] spec_tokens(b)[i] matches
                NodeType::Reference { length, .. } ==> length >= 2),
{
    lemma_token_stream_wf(b);
    assert forall|i: int|
        0 <= i < spec_tokens(b).len() implies (#[trigger] spec_tokens(b)[i] matches
        NodeType::Reference { length, .. } ==> length >= 2) by {
        assert(token_wf(spec_tokens(b)[i]));
    }
}

/// Every reference the tokenizer emits has an offset between one and the
/// search window size, so it always fits the 11-bit offset field.
pub proof fn lemma_offset_bound(b: Seq<u8>)
    ensures
        forall|i: int|
            0 <= i < spec_tokens(b).len() ==> (#[trigger] spec_tokens(b)[i] matches
                NodeType::Reference { offset, .. } ==> 1 <= offset <= 2047),
{
    lemma_token_stream_wf(b);
    assert forall|i: int|
        0 <= i < spec_tokens(b).len() implies (#[trigger] spec_tokens(b)[i] matches
        NodeType::Reference { offset, .. } ==> 1 <= offset <= 2047) by {
        assert(token_wf(spec_tokens(b)[i]));
    }
}

/// Walks the input and emits the token stream: a back-reference wherever the
/// longest-match search finds a match of at least two bytes, a literal
/// everywhere else. Every byte of the input is covered exactly once.
pub fn build_lz77_node_list(to_compress: &[u8]) -> (nodes: Vec<NodeType>)
    requires
        to_compress@.len() + 2049 <= usize::MAX,
    ensures
        nodes@ == spec_tokens(to_compress@),
{
    let ghost b = to_compress@;
    let mut nodes: Vec<NodeType> = Vec::new();
    if to_compress.len() == 0 {
        return nodes;
    }
    let n = to_compress.len();

    let mut byte_ptr: usize = 0;
    let mut search_window = ByteWindow::with_max_window_size(
        to_compress,
        SEARCH_WINDOW_SIZE as usize,
    );
    let mut prefix_window = ByteWindow::with_max_window_size(
        to_compress,
        PREFIX_WINDOW_SIZE as usize,
    );

    loop
        invariant_except_break
            0 <= byte_ptr < n,
        invariant
            b == to_compress@,
            n == b.len(),
            n + 2049 <= usize::MAX,
            byte_ptr <= n,
            search_window.bytes_view() == b,
            search_window.max_size() == SEARCH_WINDOW_SIZE as int,
            search_window.current() <= byte_ptr,
            prefix_window.bytes_view() == b,
            prefix_window.max_size() == PREFIX_WINDOW_SIZE as int,
            prefix_window.current() <= byte_ptr + 2049,
            nodes@ + spec_tokens_from(b, byte_ptr as int) == spec_tokens(b),
        ensures
            nodes@ == spec_tokens(b),
        decreases n - byte_ptr,
    {
        let ghost p = byte_ptr as int;
        let c = to_compress[byte_ptr];
        let search_slice = search_window.advance_to_pointer(byte_ptr).window;
        let prefix_slice = prefix_window.advance_to_pointer(
            byte_ptr + PREFIX_WINDOW_SIZE as usize + 1,
        ).window;
        proof {
            assert(search_slice@ =~= search_seq(b, p));
            assert(prefix_slice@ =~= prefix_seq(b, p));
            lemma_best_match_valid(c, search_seq(b, p), prefix_seq(b, p));
        }
        let ghost nodes0 = nodes@;
        let ghost bm = spec_best_match(c, search_seq(b, p), prefix_seq(b, p));

        match calculate_reference_node(c, search_slice, prefix_slice) {
            Option::Some(NodeType::Reference { offset, length }) => {
                proof {
                    match bm {
                        Option::Some((o, l)) => {
                            assert(offset == o as u16 && length == l as u16);
                            assert(2 <= l <= 2047);
                            assert(l <= prefix_seq(b, p).len() + 1);
                            assert(p + l <= b.len());
                        },
                        Option::None => {
                            assert(false);
                        },
                    }
                }
                byte_ptr = byte_ptr + length as usize;
                nodes.push(NodeType::Reference { offset, length });
                proof {
                    let (o, l) = bm->Some_0;
                    assert(byte_ptr as int == p + l);
                    assert(spec_tokens_from(b, p) == seq![
                        NodeType::Reference { offset, length },
                    ] + spec_tokens_from(b, p + l));
                    assert(nodes@ =~= nodes0 + seq![
                        NodeType::Reference { offset, length },
                    ]);
                    assert(nodes@ + spec_tokens_from(b, byte_ptr as int) =~= nodes0
                        + spec_tokens_from(b, p));
                }
            },
            Option::Some(_) => {
                proof {
                    if bm is None {
                        assert(false);
                    } else {
                        assert(false);
                    }
                }
            },
            Option::None => {
                nodes.push(NodeType::ByteLiteral { lit: c });
                byte_ptr = byte_ptr + 1;
                proof {
                    assert(bm is None);
                    assert(spec_tokens_from(b, p) == seq![NodeType::ByteLiteral { lit: c }]
                        + spec_tokens_from(b, p + 1));
                    assert(nodes@ =~= nodes0 + seq![NodeType::ByteLiteral { lit: c }]);
                    assert(nodes@ + spec_tokens_from(b, byte_ptr as int) =~= nodes0
                        + spec_tokens_from(b, p));
                }
            },
        }

        if byte_ptr > to_compress.len() - 1 {
            proof {
                assert(spec_tokens_from(b, byte_ptr as int) =~= Seq::<NodeType>::empty());
                assert(nodes@ =~= spec_tokens(b));
            }
            break;
        }
    }
    nodes
}

/// Capacity of the replayer's output history window.
pub const DECOMPRESS_WINDOW_SIZE: usize = 2048;

/// The bytes a reference copies out of the history `hist`: reads and writes
/// interleave byte by byte, so a length may exceed its offset and then
/// copies bytes the same reference has just produced.
pub open spec fn spec_copy_bytes(hist: Seq<u8>, o: int, l: int) -> Seq<u8>
    decreases l,
{
    if l <= 0 {
        Seq::empty()
    } else {
        let byte = hist[hist.len() - o];
        seq![byte] + spec_copy_bytes(hist.push(byte), o, l - 1)
    }
}

/// Replays `tokens` on top of the already-reconstructed bytes `acc`:
/// `None` when a reference has length zero, offset zero, or an offset
/// reaching back past the retained history window.
pub open spec fn spec_replay_from(tokens: Seq<NodeType>, acc: Seq<u8>) -> Option<Seq<u8>>
    decreases tokens.len(),
{
    if tokens.len() == 0 {
        Option::Some(acc)
    } else {
        match tokens[0] {
            NodeType::ByteLiteral { lit } => spec_replay_from(tokens.skip(1), acc.push(lit)),
            NodeType::Reference { offset, length } => {
                let retained = if acc.len() <= DECOMPRESS_WINDOW_SIZE {
                    acc.len() as int
                } else {
                    DECOMPRESS_WINDOW_SIZE as int
                };
                if length == 0 || offset == 0 || offset > retained {
                    Option::None
                } else {
                    spec_replay_from(
                        tokens.skip(1),
                        acc + spec_copy_bytes(acc, offset as int, length as int),
                    )
                }
            },
            NodeType::EndOfStream => Option::Some(acc),
        }
    }
}

/// The bytes a token stream reconstructs, when it replays without failure.
pub open spec fn spec_replay(tokens: Seq<NodeType>) -> Option<Seq<u8>> {
    spec_replay_from(tokens, Seq::empty())
}

/// A reference that reaches no further forward than back copies bytes that
/// all exist in the history before it starts.
proof fn lemma_copy_bytes_no_overlap(hist: Seq<u8>, o: int, l: int)
    requires
        1 <= o <= hist.len(),
        0 <= l <= o,
    ensures
        spec_copy_bytes(hist, o, l) == Seq::new(l as nat, |j: int| hist[hist.len() - o + j]),
    decreases l,
{
    if l > 0 {
        let byte = hist[hist.len() - o];
        lemma_copy_bytes_no_overlap(hist.push(byte), o, l - 1);
        let lhs = spec_copy_bytes(hist, o, l);
        let target = Seq::new(l as nat, |j: int| hist[hist.len() - o + j]);
        let inner = spec_copy_bytes(hist.push(byte), o, l - 1);
        assert forall|j: int| 0 <= j < l implies lhs[j] == target[j] by {
            if j > 0 {
                assert(lhs[j] == inner[j - 1]);
                assert(inner[j - 1] == hist.push(byte)[hist.len() + 1 - o + (j - 1)]);
                assert(hist.len() + 1 - o + (j - 1) < hist.len());
            }
        }
        assert(lhs =~= target);
    } else {
        assert(spec_copy_bytes(hist, o, l) =~= Seq::new(l as nat, |j: int| hist[hist.len() - o + j]));
    }
}

proof fn lemma_replay_tokens_from(b: Seq<u8>, p: int)
    requires
        0 <= p <= b.len(),
    ensures
        spec_replay_from(spec_tokens_from(b, p), b.take(p)) == Option::Some(b),
    decreases b.len() - p,
{
    let tokens = spec_tokens_from(b, p);
    let acc = b.take(p);
    if p == b.len() {
        assert(acc =~= b);
    } else {
        lemma_best_match_valid(b[p], search_seq(b, p), prefix_seq(b, p));
        match spec_best_match(b[p], search_seq(b, p), prefix_seq(b, p)) {
            Option::None => {
                let rest = spec_tokens_from(b, p + 1);
                assert(tokens[0] == NodeType::ByteLiteral { lit: b[p] });
                assert(tokens.skip(1) =~= rest);
                assert(acc.push(b[p]) =~= b.take(p + 1));
                lemma_replay_tokens_from(b, p + 1);
            },
            Option::Some((o, l)) => {
                let rest = spec_tokens_from(b, p + l);
                let t = NodeType::Reference { offset: o as u16, length: l as u16 };
                assert(tokens[0] == t);
                assert(tokens.skip(1) =~= rest);
                let search = search_seq(b, p);
                let prefix = prefix_seq(b, p);
                let s_len = search.len();
                assert(o <= s_len <= p);
                lemma_copy_bytes_no_overlap(acc, o, l);
                let copied = spec_copy_bytes(acc, o, l);
                lemma_match_len_bounds(search.skip(s_len - o + 1), prefix);
                assert(copied =~= b.subrange(p, p + l)) by {
                    assert forall|j: int| 0 <= j < l implies copied[j] == b[p + j] by {
                        assert(copied[j] == acc[p - o + j]);
                        assert(acc[p - o + j] == b[p - o + j]);
                        if j == 0 {
                            assert(search[s_len - o] == b[p] && search[s_len - o] == b[p - o]);
                        } else {
                            assert(search.skip(s_len - o + 1)[j - 1] == prefix[j - 1]);
                            assert(search.skip(s_len - o + 1)[j - 1] == b[p - o + j]);
                            assert(prefix[j - 1] == b[p + j]);
                        }
                    }
                }
                assert(acc + copied =~= b.take(p + l));
                lemma_replay_tokens_from(b, p + l);
            },
        }
    }
}

/// Replaying the tokenizer's output reconstructs the input exactly: the
/// round-trip law at the token level, for every input.
pub proof fn lemma_replay_tokens(b: Seq<u8>)
    ensures
        spec_replay(spec_tokens(b)) == Option::Some(b),
{
    lemma_replay_tokens_from(b, 0);
    assert(b.take(0) =~= Seq::<u8>::empty());
}

/// The part of the reconstructed output that the replayer's history window
/// retains: the last `DECOMPRESS_WINDOW_SIZE` bytes.
pub open spec fn spec_history_tail(s: Seq<u8>) -> Seq<u8> {
    if s.len() <= DECOMPRESS_WINDOW_SIZE {
        s
    } else {
        s.skip(s.len() - DECOMPRESS_WINDOW_SIZE)
    }
}

/// Emits one reconstructed byte: appends it to the full output and to the
/// retained history window.
fn push_history_byte(search_buffer: &mut ByteBuffer<u8>, out: &mut Vec<u8>, byte: u8)
    requires
        old(search_buffer).wf(),
        old(search_buffer).limit == DECOMPRESS_WINDOW_SIZE,
        old(search_buffer).vec@ == spec_history_tail(old(out)@),
    ensures
        final(search_buffer).wf(),
        final(search_buffer).limit == DECOMPRESS_WINDOW_SIZE,
        final(out)@ == old(out)@.push(byte),
        final(search_buffer).vec@ == spec_history_tail(final(out)@),
{
    out.push(byte);
    let mut one: Vec<u8> = Vec::new();
    one.push(byte);
    search_buffer.push_all(one.as_slice());
    proof {
        assert(one@ =~= seq![byte]);
        assert(search_buffer.vec@ =~= spec_history_tail(out@));
    }
}

/// Replays a token stream against a retained output window of capacity
/// `DECOMPRESS_WINDOW_SIZE`, reconstructing the bytes the stream describes.
/// Halts at the end-of-stream sentinel; fails with `OutOfRange` exactly
/// when a reference has length zero, offset zero, or an offset reaching
/// back past the retained history.
pub fn decompress_nodes(nodes: &Vec<NodeType>) -> (r: Result<Vec<u8>, Lz77Error>)
    ensures
        spec_replay(nodes@) matches Option::Some(out) ==> (r matches Result::Ok(v) && v@ == out),
        spec_replay(nodes@) is None ==> r == Result::<Vec<u8>, Lz77Error>::Err(
            Lz77Error::OutOfRange,
        ),
{
    let mut search_buffer: ByteBuffer<u8> = ByteBuffer::new(DECOMPRESS_WINDOW_SIZE);
    let mut out: Vec<u8> = Vec::new();
    let mut idx: usize = 0;
    proof {
        assert(nodes@.skip(0) =~= nodes@);
    }
    while idx < nodes.len()
        invariant
            idx <= nodes@.len(),
            search_buffer.wf(),
            search_buffer.limit == DECOMPRESS_WINDOW_SIZE,
            search_buffer.vec@ == spec_history_tail(out@),
            spec_replay(nodes@) == spec_replay_from(nodes@.skip(idx as int), out@),
        decreases nodes@.len() - idx,
    {
        let node = nodes[idx];
        proof {
            assert(nodes@.skip(idx as int)[0] == nodes@[idx as int]);
            assert(nodes@.skip(idx as int).skip(1) =~= nodes@.skip(idx as int + 1));
        }
        match node {
            NodeType::ByteLiteral { lit } => {
                push_history_byte(&mut search_buffer, &mut out, lit);
            },
            NodeType::Reference { offset, length } => {
                if length == 0 || offset == 0 || (offset as usize) > search_buffer.vec.len() {
                    return Result::Err(Lz77Error::OutOfRange);
                }
                let offset_us = offset as usize;
                let length_us = length as usize;
                let ghost acc0 = out@;
                let ghost o_int = offset as int;
                let ghost l_int = length as int;
                let ghost target = acc0 + spec_copy_bytes(acc0, o_int, l_int);
                let mut j: usize = 0;
                while j < length_us
                    invariant
                        j <= length_us,
                        offset_us == o_int,
                        length_us == l_int,
                        search_buffer.wf(),
                        search_buffer.limit == DECOMPRESS_WINDOW_SIZE,
                        search_buffer.vec@ == spec_history_tail(out@),
                        1 <= o_int <= search_buffer.vec@.len(),
                        target == out@ + spec_copy_bytes(out@, o_int, l_int - j),
                    decreases length_us - j,
                {
                    let blen = search_buffer.vec.len();
                    let byte = search_buffer.vec[blen - offset_us];
                    proof {
                        let h = out@;
                        assert(search_buffer.vec@[search_buffer.vec@.len() - o_int] == h[h.len()
                            - o_int]);
                        assert(spec_copy_bytes(h, o_int, l_int - j) == seq![byte]
                            + spec_copy_bytes(h.push(byte), o_int, l_int - j - 1));
                    }
                    let ghost out_before = out@;
                    push_history_byte(&mut search_buffer, &mut out, byte);
                    j = j + 1;
                    proof {
                        assert(out_before + (seq![byte] + spec_copy_bytes(
                            out@,
                            o_int,
                            l_int - j,
                        )) =~= out@ + spec_copy_bytes(out@, o_int, l_int - j));
                    }
                }
                proof {
                    assert(target =~= out@);
                }
            },
            NodeType::EndOfStream => {
                return Result::Ok(out);
            },
        }
        idx = idx + 1;
    }
    proof {
        assert(nodes@.skip(nodes@.len() as int) =~= Seq::<NodeType>::empty());
    }
    Result::Ok(out)
}

} // verus!

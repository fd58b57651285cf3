use vstd::prelude::*;

verus! {

/// The contents of a capacity-limited FIFO buffer after appending `e` to `s`:
/// the concatenation, with just enough elements dropped from the front to
/// bring the length back to `limit`.
pub open spec fn fifo_append<T>(s: Seq<T>, e: Seq<T>, limit: int) -> Seq<T> {
    if s.len() + e.len() <= limit {
        s + e
    } else {
        (s + e).skip(s.len() + e.len() - limit)
    }
}

/// A fixed sized container that pops old elements as new ones arrive.
#[derive(PartialEq, Debug)]
pub struct ByteBuffer<T> {
    pub vec: Vec<T>,
    pub limit: usize,
}

impl<T: Copy> ByteBuffer<T> {
    pub open spec fn wf(&self) -> bool {
        &&& self.vec@.len() <= self.limit
        &&& self.limit <= usize::MAX / 2
    }

    pub fn new(limit: usize) -> (r: ByteBuffer<T>)
        requires
            limit <= usize::MAX / 2,
        ensures
            r.wf(),
            r.limit == limit,
            r.vec@ == Seq::<T>::empty(),
    {
        ByteBuffer { vec: Vec::with_capacity(limit), limit }
    }

    /// Appends `elements`, dropping just enough old elements from the front
    /// to keep the length within the limit.
    pub fn push_all(&mut self, elements: &[T])
        requires
            old(self).wf(),
            elements@.len() <= old(self).limit,
        ensures
            final(self).wf(),
            final(self).limit == old(self).limit,
            final(self).vec@ == fifo_append(
                old(self).vec@,
                elements@,
                old(self).limit as int,
            ),
    {
        if self.vec.len() + elements.len() > self.limit {
            let count_to_drop = (self.vec.len() + elements.len()) - self.limit;
            let mut dropped: usize = 0;
            while dropped < count_to_drop
                invariant
                    dropped <= count_to_drop,
                    count_to_drop <= old(self).vec@.len(),
                    self.vec@ == old(self).vec@.skip(dropped as int),
                    self.limit == old(self).limit,
                decreases count_to_drop - dropped,
            {
                self.vec.remove(0);
                dropped = dropped + 1;
                assert(self.vec@ =~= old(self).vec@.skip(dropped as int));
            }
        }
        let ghost mid = self.vec@;
        let mut i: usize = 0;
        while i < elements.len()
            invariant
                i <= elements@.len(),
                self.vec@ == mid + elements@.take(i as int),
                self.limit == old(self).limit,
            decreases elements@.len() - i,
        {
            self.vec.push(elements[i]);
            i = i + 1;
            assert(self.vec@ =~= mid + elements@.take(i as int));
        }
        assert(self.vec@ =~= fifo_append(old(self).vec@, elements@, self.limit as int));
    }
}

/// Left edge of a window of size `max` whose right edge is at `cur`.
pub open spec fn window_lo(cur: int, max: int) -> int {
    if cur > max {
        cur - max
    } else {
        0
    }
}

/// Right edge of the visible part of a window over `len` bytes.
pub open spec fn window_hi(cur: int, len: int) -> int {
    if cur < len {
        cur
    } else {
        len
    }
}

/// The bytes visible through a window of size `max` whose right edge is at
/// `cur`: `bytes[max(0, cur - max) .. min(cur, len)]`.
pub open spec fn visible_window(bytes: Seq<u8>, cur: int, max: int) -> Seq<u8> {
    let lo = window_lo(cur, max);
    let hi = window_hi(cur, bytes.len() as int);
    if lo <= hi {
        bytes.subrange(lo, hi)
    } else {
        Seq::empty()
    }
}

/// The bytes admitted to the window when the right edge moves from `cur` to `p`.
pub open spec fn admitted_bytes(bytes: Seq<u8>, cur: int, p: int) -> Seq<u8> {
    if cur < bytes.len() {
        bytes.subrange(cur, window_hi(p, bytes.len() as int))
    } else {
        Seq::empty()
    }
}

/// The bytes evicted from a window of size `max` when its right edge moves
/// from `cur` to `p`.
pub open spec fn evicted_bytes(bytes: Seq<u8>, cur: int, p: int, max: int) -> Seq<u8> {
    let old_start = window_lo(cur, max);
    let new_start = window_lo(p, max);
    if old_start < new_start && old_start < bytes.len() {
        bytes.subrange(old_start, new_start)
    } else {
        Seq::empty()
    }
}

/// The bytes that one advancement moved out of and into the window,
/// and the window contents after it.
#[derive(PartialEq, Debug)]
pub struct ByteWindowAdvance<'a> {
    pub evicted: &'a [u8],
    pub admitted: &'a [u8],
    pub window: &'a [u8],
}

/// Wrapper for a window view over a byte slice.
#[derive(PartialEq, Debug)]
pub struct ByteWindow<'a> {
    bytes: &'a [u8],
    max_window_size: usize,
    current_index: usize,
}

impl<'a> ByteWindow<'a> {
    /// The underlying byte slice.
    pub closed spec fn bytes_view(&self) -> Seq<u8> {
        self.bytes@
    }

    /// The configured maximum window size.
    pub closed spec fn max_size(&self) -> int {
        self.max_window_size as int
    }

    /// The current right edge of the window.
    pub closed spec fn current(&self) -> int {
        self.current_index as int
    }

    pub fn with_max_window_size(bytes: &'a [u8], max_window_size: usize) -> (r: Self)
        ensures
            r.bytes_view() == bytes@,
            r.max_size() == max_window_size,
            r.current() == 0,
    {
        ByteWindow { bytes, max_window_size, current_index: 0 }
    }

    /// Moves the end-of-window pointer by `count`; see `advance_to_pointer`.
    pub fn advance(&mut self, count: usize) -> (r: ByteWindowAdvance<'a>)
        requires
            old(self).current() + count <= old(self).bytes_view().len() + old(self).max_size(),
            old(self).bytes_view().len() + old(self).max_size() <= usize::MAX,
        ensures
            final(self).bytes_view() == old(self).bytes_view(),
            final(self).max_size() == old(self).max_size(),
            final(self).current() == old(self).current() + count,
            r.window@ == visible_window(
                old(self).bytes_view(),
                old(self).current() + count,
                old(self).max_size(),
            ),
            r.admitted@ == admitted_bytes(
                old(self).bytes_view(),
                old(self).current(),
                old(self).current() + count,
            ),
            r.evicted@ == evicted_bytes(
                old(self).bytes_view(),
                old(self).current(),
                old(self).current() + count,
                old(self).max_size(),
            ),
    {
        let new_pointer = self.current_index + count;
        self.advance_to_pointer(new_pointer)
    }

    /// Moves the end-of-window pointer to `pointer`, which may lie past the
    /// end of the underlying slice. The returned struct carries the bytes
    /// that left and entered the window, and the window contents after the
    /// move, all as slices into the underlying bytes.
    pub fn advance_to_pointer(&mut self, pointer: usize) -> (r: ByteWindowAdvance<'a>)
        requires
            old(self).current() <= pointer,
            pointer <= old(self).bytes_view().len() + old(self).max_size(),
        ensures
            final(self).bytes_view() == old(self).bytes_view(),
            final(self).max_size() == old(self).max_size(),
            final(self).current() == pointer,
            r.window@ == visible_window(old(self).bytes_view(), pointer as int, old(self).max_size()),
            r.admitted@ == admitted_bytes(old(self).bytes_view(), old(self).current(), pointer as int),
            r.evicted@ == evicted_bytes(
                old(self).bytes_view(),
                old(self).current(),
                pointer as int,
                old(self).max_size(),
            ),
    {
        let len = self.bytes.len();
        let new_start_index = if pointer > self.max_window_size {
            pointer - self.max_window_size
        } else {
            0
        };
        let old_start_index = if self.current_index > self.max_window_size {
            self.current_index - self.max_window_size
        } else {
            0
        };
        let end_index = if len < pointer {
            len
        } else {
            pointer
        };

        let window: &'a [u8] = if new_start_index < end_index {
            vstd::slice::slice_subrange(self.bytes, new_start_index, end_index)
        } else {
            vstd::slice::slice_subrange(self.bytes, 0, 0)
        };

        let admitted: &'a [u8] = if self.current_index < len {
            vstd::slice::slice_subrange(self.bytes, self.current_index, end_index)
        } else {
            vstd::slice::slice_subrange(self.bytes, 0, 0)
        };

        let evicted: &'a [u8] = if old_start_index < new_start_index && old_start_index < len {
            vstd::slice::slice_subrange(self.bytes, old_start_index, new_start_index)
        } else {
            vstd::slice::slice_subrange(self.bytes, 0, 0)
        };

        self.current_index = pointer;

        ByteWindowAdvance { evicted, admitted, window }
    }

    /// The bytes currently visible through the window.
    pub fn window(&self) -> (r: &'a [u8])
        ensures
            r@ == visible_window(self.bytes_view(), self.current(), self.max_size()),
    {
        let len = self.bytes.len();
        let start_index = if self.current_index > self.max_window_size {
            self.current_index - self.max_window_size
        } else {
            0
        };
        let end_index = if len < self.current_index {
            len
        } else {
            self.current_index
        };
        if start_index < len {
            vstd::slice::slice_subrange(self.bytes, start_index, end_index)
        } else {
            vstd::slice::slice_subrange(self.bytes, 0, 0)
        }
    }
}

/// The ascending positions `j` in `lo <= j < hi` with `bytes[j] == b`.
pub open spec fn occurrences(bytes: Seq<u8>, lo: int, hi: int, b: u8) -> Seq<usize>
    decreases hi - lo,
{
    if lo < 0 || lo >= hi {
        Seq::empty()
    } else if bytes[lo] == b {
        seq![lo as usize] + occurrences(bytes, lo + 1, hi, b)
    } else {
        occurrences(bytes, lo + 1, hi, b)
    }
}

/// Left edge of the range of positions held in the byte location table:
/// the window's left edge, clipped to the underlying slice.
pub open spec fn table_lo(cur: int, max: int, len: int) -> int {
    let lo = window_lo(cur, max);
    if lo < len {
        lo
    } else {
        len
    }
}

proof fn lemma_occurrences_snoc(bytes: Seq<u8>, lo: int, hi: int, b: u8)
    requires
        0 <= lo <= hi < bytes.len(),
    ensures
        occurrences(bytes, lo, hi + 1, b) == occurrences(bytes, lo, hi, b) + (if bytes[hi] == b {
            seq![hi as usize]
        } else {
            Seq::<usize>::empty()
        }),
    decreases hi - lo,
{
    if lo == hi {
        assert(occurrences(bytes, lo, hi, b) == Seq::<usize>::empty());
        if bytes[hi] == b {
            assert(occurrences(bytes, lo, hi + 1, b) =~= seq![hi as usize]);
            assert(occurrences(bytes, lo, hi, b) + seq![hi as usize] =~= seq![hi as usize]);
        } else {
            assert(occurrences(bytes, lo, hi + 1, b) =~= Seq::<usize>::empty());
            assert(occurrences(bytes, lo, hi, b) + Seq::<usize>::empty() =~= Seq::<usize>::empty());
        }
    } else {
        lemma_occurrences_snoc(bytes, lo + 1, hi, b);
        if bytes[lo] == b {
            assert(seq![lo as usize] + occurrences(bytes, lo + 1, hi + 1, b) =~= (seq![lo as usize]
                + occurrences(bytes, lo + 1, hi, b)) + (if bytes[hi] == b {
                seq![hi as usize]
            } else {
                Seq::<usize>::empty()
            }));
        }
    }
}

/// `ByteWindow` that also tracks the locations of each byte value currently
/// inside the window, for constant-time lookup of candidate match starts.
/// The stored indexes are absolute positions in the underlying byte slice.
#[derive(PartialEq, Debug)]
pub struct IndexableByteWindow<'a> {
    window: ByteWindow<'a>,
    byte_locations: Vec<Vec<usize>>,
}

impl<'a> IndexableByteWindow<'a> {
    /// The underlying byte slice.
    pub closed spec fn bytes_view(&self) -> Seq<u8> {
        self.window.bytes_view()
    }

    /// The configured maximum window size.
    pub closed spec fn max_size(&self) -> int {
        self.window.max_size()
    }

    /// The current right edge of the window.
    pub closed spec fn current(&self) -> int {
        self.window.current()
    }

    pub closed spec fn wf(&self) -> bool {
        &&& self.byte_locations@.len() == 256
        &&& forall|b: int|
            0 <= b < 256 ==> self.byte_locations@[b]@ == occurrences(
                self.window.bytes_view(),
                table_lo(
                    self.window.current(),
                    self.window.max_size(),
                    self.window.bytes_view().len() as int,
                ),
                window_hi(self.window.current(), self.window.bytes_view().len() as int),
                b as u8,
            )
    }

    pub fn with_max_window_size(bytes: &'a [u8], max_window_size: usize) -> (r: Self)
        ensures
            r.wf(),
            r.bytes_view() == bytes@,
            r.max_size() == max_window_size,
            r.current() == 0,
    {
        let mut byte_locations: Vec<Vec<usize>> = Vec::with_capacity(256);
        let mut i: usize = 0;
        while i < 256
            invariant
                i <= 256,
                byte_locations@.len() == i,
                forall|b: int| 0 <= b < i ==> byte_locations@[b]@ == Seq::<usize>::empty(),
            decreases 256 - i,
        {
            byte_locations.push(Vec::new());
            i = i + 1;
        }
        IndexableByteWindow { window: ByteWindow::with_max_window_size(bytes, max_window_size), byte_locations }
    }

    pub fn advance(&mut self, count: usize) -> (r: ByteWindowAdvance<'a>)
        requires
            old(self).wf(),
            old(self).current() + count <= old(self).bytes_view().len() + old(self).max_size(),
            old(self).bytes_view().len() + old(self).max_size() <= usize::MAX,
        ensures
            final(self).wf(),
            final(self).bytes_view() == old(self).bytes_view(),
            final(self).max_size() == old(self).max_size(),
            final(self).current() == old(self).current() + count,
            r.window@ == visible_window(
                old(self).bytes_view(),
                old(self).current() + count,
                old(self).max_size(),
            ),
            r.admitted@ == admitted_bytes(
                old(self).bytes_view(),
                old(self).current(),
                old(self).current() + count,
            ),
            r.evicted@ == evicted_bytes(
                old(self).bytes_view(),
                old(self).current(),
                old(self).current() + count,
                old(self).max_size(),
            ),
    {
        let ghost bytes = self.window.bytes_view();
        let ghost len = bytes.len() as int;
        let ghost lo0 = table_lo(self.window.current(), self.window.max_size(), len);
        let ghost hi0 = window_hi(self.window.current(), len);
        let result = self.window.advance(count);
        let admission_offset = self.window.current_index - count;
        proof {
            let cur0 = old(self).current();
            let p = cur0 + count;
            let max = old(self).max_size();
            assert(result.admitted@ == admitted_bytes(bytes, cur0, p));
            if cur0 < len {
                assert(result.admitted@ =~= bytes.subrange(hi0, hi0 + result.admitted@.len()));
            } else {
                assert(result.admitted@ =~= bytes.subrange(hi0, hi0 + result.admitted@.len()));
            }
            let wl0 = window_lo(cur0, max);
            let wl1 = window_lo(p, max);
            if wl0 < wl1 && wl0 < len {
                assert(result.evicted@ =~= bytes.subrange(lo0, lo0 + result.evicted@.len()));
            } else {
                assert(result.evicted@ =~= bytes.subrange(lo0, lo0 + result.evicted@.len()));
            }
        }
        self.update_byte_location_table(
            result.admitted,
            admission_offset,
            result.evicted,
            Ghost(lo0),
            Ghost(hi0),
        );
        proof {
            let cur0 = old(self).current();
            let p = cur0 + count;
            let max = old(self).max_size();
            assert(lo0 + evicted_bytes(bytes, cur0, p, max).len() == table_lo(p, max, len));
            assert(hi0 + admitted_bytes(bytes, cur0, p).len() == window_hi(p, len));
        }
        result
    }

    pub fn advance_to_pointer(&mut self, pointer: usize) -> (r: ByteWindowAdvance<'a>)
        requires
            old(self).wf(),
            old(self).current() <= pointer,
            pointer <= old(self).bytes_view().len() + old(self).max_size(),
            old(self).bytes_view().len() + old(self).max_size() <= usize::MAX,
        ensures
            final(self).wf(),
            final(self).bytes_view() == old(self).bytes_view(),
            final(self).max_size() == old(self).max_size(),
            final(self).current() == pointer,
            r.window@ == visible_window(old(self).bytes_view(), pointer as int, old(self).max_size()),
            r.admitted@ == admitted_bytes(old(self).bytes_view(), old(self).current(), pointer as int),
            r.evicted@ == evicted_bytes(
                old(self).bytes_view(),
                old(self).current(),
                pointer as int,
                old(self).max_size(),
            ),
    {
        let count = pointer - self.window.current_index;
        self.advance(count)
    }

    /// The bytes currently visible through the window.
    pub fn window(&self) -> (r: &'a [u8])
        ensures
            r@ == visible_window(self.bytes_view(), self.current(), self.max_size()),
    {
        self.window.window()
    }

    fn update_byte_location_table(
        &mut self,
        admitted: &[u8],
        admission_offset: usize,
        evicted: &[u8],
        Ghost(lo0): Ghost<int>,
        Ghost(hi0): Ghost<int>,
    )
        requires
            old(self).byte_locations@.len() == 256,
            0 <= lo0 <= hi0,
            hi0 + admitted@.len() <= old(self).window.bytes_view().len(),
            hi0 + admitted@.len() <= usize::MAX,
            forall|b: int|
                0 <= b < 256 ==> old(self).byte_locations@[b]@ == occurrences(
                    old(self).window.bytes_view(),
                    lo0,
                    hi0,
                    b as u8,
                ),
            admitted@ == old(self).window.bytes_view().subrange(hi0, hi0 + admitted@.len()),
            admitted@.len() > 0 ==> admission_offset == hi0,
            evicted@ == old(self).window.bytes_view().subrange(lo0, lo0 + evicted@.len()),
            lo0 + evicted@.len() <= hi0 + admitted@.len(),
        ensures
            final(self).window == old(self).window,
            final(self).byte_locations@.len() == 256,
            forall|b: int|
                0 <= b < 256 ==> final(self).byte_locations@[b]@ == occurrences(
                    old(self).window.bytes_view(),
                    lo0 + evicted@.len(),
                    hi0 + admitted@.len(),
                    b as u8,
                ),
    {
        let ghost bytes = self.window.bytes_view();
        let mut i: usize = 0;
        while i < admitted.len()
            invariant
                i <= admitted@.len(),
                self.window == old(self).window,
                self.byte_locations@.len() == 256,
                0 <= lo0 <= hi0,
                hi0 + admitted@.len() <= bytes.len(),
                hi0 + admitted@.len() <= usize::MAX,
                bytes == self.window.bytes_view(),
                admitted@ == bytes.subrange(hi0, hi0 + admitted@.len()),
                admitted@.len() > 0 ==> admission_offset == hi0,
                forall|b: int|
                    0 <= b < 256 ==> self.byte_locations@[b]@ == occurrences(
                        bytes,
                        lo0,
                        hi0 + i,
                        b as u8,
                    ),
            decreases admitted@.len() - i,
        {
            let u = admitted[i];
            let ghost table0 = self.byte_locations@;
            let entry = &mut self.byte_locations[u as usize];
            entry.push(i + admission_offset);
            proof {
                lemma_occurrences_snoc(bytes, lo0, hi0 + i, u);
                assert(bytes[hi0 + i] == u);
                assert(self.byte_locations@[u as int]@ =~= occurrences(
                    bytes,
                    lo0,
                    hi0 + i + 1,
                    u,
                ));
                assert forall|b: int|
                    0 <= b < 256 && b != u as int implies self.byte_locations@[b]@ == occurrences(
                    bytes,
                    lo0,
                    hi0 + i + 1,
                    b as u8,
                ) by {
                    lemma_occurrences_snoc(bytes, lo0, hi0 + i, b as u8);
                    assert(self.byte_locations@[b]@ == table0[b]@);
                    assert(occurrences(bytes, lo0, hi0 + i + 1, b as u8) =~= occurrences(
                        bytes,
                        lo0,
                        hi0 + i,
                        b as u8,
                    ));
                }
            }
            i = i + 1;
        }
        let ghost hi_end = hi0 + admitted@.len();
        let mut j: usize = 0;
        while j < evicted.len()
            invariant
                j <= evicted@.len(),
                self.window == old(self).window,
                self.byte_locations@.len() == 256,
                0 <= lo0,
                lo0 + evicted@.len() <= hi_end,
                hi_end <= bytes.len(),
                bytes == self.window.bytes_view(),
                evicted@ == bytes.subrange(lo0, lo0 + evicted@.len()),
                forall|b: int|
                    0 <= b < 256 ==> self.byte_locations@[b]@ == occurrences(
                        bytes,
                        lo0 + j,
                        hi_end,
                        b as u8,
                    ),
            decreases evicted@.len() - j,
        {
            let u = evicted[j];
            let ghost table0 = self.byte_locations@;
            proof {
                assert(bytes[lo0 + j] == u);
                assert(occurrences(bytes, lo0 + j, hi_end, u) == seq![(lo0 + j) as usize]
                    + occurrences(bytes, lo0 + j + 1, hi_end, u));
            }
            let entry = &mut self.byte_locations[u as usize];
            if entry.len() > 0 {
                entry.remove(0);
            }
            proof {
                assert(self.byte_locations@[u as int]@ =~= occurrences(
                    bytes,
                    lo0 + j + 1,
                    hi_end,
                    u,
                ));
                assert forall|b: int|
                    0 <= b < 256 && b != u as int implies self.byte_locations@[b]@ == occurrences(
                    bytes,
                    lo0 + j + 1,
                    hi_end,
                    b as u8,
                ) by {
                    assert(self.byte_locations@[b]@ == table0[b]@);
                    assert(occurrences(bytes, lo0 + j, hi_end, b as u8) == occurrences(
                        bytes,
                        lo0 + j + 1,
                        hi_end,
                        b as u8,
                    ));
                }
            }
            j = j + 1;
        }
    }

    /// Returns the table of byte values to their known locations within the
    /// byte slice: entry `b` lists, in ascending order, every absolute
    /// position inside the current window holding the byte value `b`.
    pub fn byte_locations(&self) -> (r: &Vec<Vec<usize>>)
        requires
            self.wf(),
        ensures
            r@.len() == 256,
            forall|b: int|
                0 <= b < 256 ==> r@[b]@ == occurrences(
                    self.bytes_view(),
                    table_lo(self.current(), self.max_size(), self.bytes_view().len() as int),
                    window_hi(self.current(), self.bytes_view().len() as int),
                    b as u8,
                ),
    {
        &self.byte_locations
    }

    /// Translates a location within the byte slice to a location within the
    /// current visible window.
    pub fn location_to_window_index(&self, location: usize) -> (r: usize)
        requires
            window_lo(self.current(), self.max_size()) <= location <= self.current(),
        ensures
            r == location - window_lo(self.current(), self.max_size()),
    {
        let current = self.window.current_index;
        let max = self.window.max_window_size;
        let offset = if current > max {
            current - max
        } else {
            0
        };
        location - offset
    }
}

} // verus!

//! Client-side transfer state: windowing and per-window assembly.
//!
//! The client pulls a file window by window.  For each window it keeps
//! a pending-chunk tracker and one payload buffer per chunk index; an
//! inbound chunk-data datagram is accepted once, stored at its window
//! offset, and marked as arrived.  Duplicate deliveries and indices
//! outside the window change nothing.  When nothing is missing any
//! more, the buffers are flushed in index order and the window
//! advances.  The socket and the timers live outside the crate.

use vstd::prelude::*;
use vstd::slice::slice_to_vec;
use crate::codec::spec_u64_from_be_bytes;
use crate::codec::unpack_u8arr_into_u64;
use crate::range_tree::RangeTree;
use crate::range_tree::range_set;

verus! {

/// The bounds of the window that transfer round `progress` covers: at
/// most `chunk_mem_limit` consecutive chunk indices starting at
/// `progress * chunk_mem_limit`, cut off at the last chunk of the
/// file.
pub fn window_bounds(progress: u64, chunk_mem_limit: usize, chunk_count: u64) -> (r: (u64, u64))
    requires
        chunk_mem_limit >= 1,
        chunk_count >= 1,
        progress * (chunk_mem_limit as int) < chunk_count,
    ensures
        r.0 == progress * (chunk_mem_limit as int),
        r.1 == (if progress * (chunk_mem_limit as int) + chunk_mem_limit <= chunk_count {
            progress * (chunk_mem_limit as int) + chunk_mem_limit - 1
        } else {
            chunk_count - 1
        }),
        r.0 <= r.1 < chunk_count,
        r.1 - r.0 < chunk_mem_limit,
{
    let ps: u64 = progress * (chunk_mem_limit as u64);
    let pe: u64 = if chunk_count - ps > chunk_mem_limit as u64 {
        ps + (chunk_mem_limit as u64) - 1
    } else {
        chunk_count - 1
    };
    (ps, pe)
}

/// Everything the client holds for the window in flight: its bounds,
/// the tracker of still-missing indices, and one payload buffer per
/// chunk index of the window.
pub struct WindowState {
    part_start: u64,
    part_end: u64,
    tracker: RangeTree,
    chunks: Vec<Vec<u8>>,
}

impl WindowState {
    /// First chunk index of the window.
    pub closed spec fn win_start(self) -> u64 {
        self.part_start
    }

    /// Last chunk index of the window (inclusive).
    pub closed spec fn win_end(self) -> u64 {
        self.part_end
    }

    /// The chunk indices of the window that have not arrived yet.
    pub closed spec fn missing(self) -> Set<int> {
        self.tracker.missing()
    }

    /// The payload buffers, one per chunk index of the window, in
    /// window order.
    pub closed spec fn chunk_data(self) -> Seq<Seq<u8>> {
        Seq::new(self.chunks@.len(), |k: int| self.chunks@[k]@)
    }

    /// The window is sound: the tracker covers exactly the window and
    /// there is one buffer per index.
    pub closed spec fn wf(self) -> bool {
        &&& self.part_start <= self.part_end
        &&& self.part_end <= usize::MAX
        &&& self.tracker.wf()
        &&& self.tracker.win_lo() == self.part_start
        &&& self.tracker.win_hi() == self.part_end
        &&& self.chunks@.len() == self.part_end - self.part_start + 1
    }

    /// Open a fresh window: every index of `[part_start, part_end]` is
    /// missing and every buffer is empty.
    pub fn new(part_start: u64, part_end: u64) -> (w: WindowState)
        requires
            part_start <= part_end,
            part_end <= usize::MAX,
            part_end - part_start + 1 <= usize::MAX,
        ensures
            w.wf(),
            w.win_start() == part_start,
            w.win_end() == part_end,
            w.missing() == range_set(part_start as int, part_end as int),
            w.chunk_data().len() == part_end - part_start + 1,
            forall|k: int| 0 <= k < w.chunk_data().len() ==> w.chunk_data()[k] == Seq::<u8>::empty(),
    {
        let tracker = RangeTree::new(part_start as usize, part_end as usize);
        let count: usize = (part_end - part_start) as usize + 1;
        let mut chunks: Vec<Vec<u8>> = Vec::new();
        let mut k: usize = 0;
        while k < count
            invariant
                k <= count,
                chunks@.len() == k,
                forall|p: int| 0 <= p < k ==> (#[trigger] chunks@[p])@ == Seq::<u8>::empty(),
            decreases count - k,
        {
            chunks.push(Vec::new());
            k += 1;
        }
        WindowState { part_start, part_end, tracker, chunks }
    }

    /// Advance to a new window, reusing the tracker and dropping the
    /// previous window's buffers.
    pub fn reinit(&mut self, part_start: u64, part_end: u64)
        requires
            part_start <= part_end,
            part_end <= usize::MAX,
            part_end - part_start + 1 <= usize::MAX,
        ensures
            final(self).wf(),
            final(self).win_start() == part_start,
            final(self).win_end() == part_end,
            final(self).missing() == range_set(part_start as int, part_end as int),
            final(self).chunk_data().len() == part_end - part_start + 1,
            forall|k: int|
                0 <= k < final(self).chunk_data().len() ==> final(self).chunk_data()[k]
                    == Seq::<u8>::empty(),
    {
        self.tracker.reinit(part_start as usize, part_end as usize);
        self.chunks.clear();
        let count: usize = (part_end - part_start) as usize + 1;
        let mut k: usize = 0;
        while k < count
            invariant
                k <= count,
                self.chunks@.len() == k,
                forall|p: int| 0 <= p < k ==> (#[trigger] self.chunks@[p])@ == Seq::<u8>::empty(),
                self.tracker.wf(),
                self.tracker.win_lo() == part_start,
                self.tracker.win_hi() == part_end,
                self.tracker.missing() == range_set(part_start as int, part_end as int),
                part_start <= part_end <= usize::MAX,
            decreases count - k,
        {
            self.chunks.push(Vec::new());
            k += 1;
        }
        self.part_start = part_start;
        self.part_end = part_end;
    }

    /// Handle one inbound datagram of `br` bytes: decode the leading
    /// chunk index; if it lies in the window and is still missing,
    /// store the payload at its window offset and mark it arrived.
    /// Duplicates and out-of-window indices change nothing — exactly
    /// the delivered index leaves the missing set, which is a no-op in
    /// those cases.
    pub fn handle_packet(&mut self, recv: &[u8], br: usize)
        requires
            old(self).wf(),
            8 <= br <= recv@.len(),
        ensures
            final(self).wf(),
            final(self).win_start() == old(self).win_start(),
            final(self).win_end() == old(self).win_end(),
            final(self).missing() == old(self).missing().remove(
                spec_u64_from_be_bytes(recv@.subrange(0, 8)) as int,
            ),
            old(self).missing().contains(spec_u64_from_be_bytes(recv@.subrange(0, 8)) as int)
                ==> final(self).chunk_data() == old(self).chunk_data().update(
                spec_u64_from_be_bytes(recv@.subrange(0, 8)) - old(self).win_start(),
                recv@.subrange(8, br as int),
            ),
            !old(self).missing().contains(spec_u64_from_be_bytes(recv@.subrange(0, 8)) as int)
                ==> final(self).chunk_data() == old(self).chunk_data(),
    {
        let chunkdex = unpack_u8arr_into_u64(&recv[0..8]);
        proof {
            self.tracker.lemma_missing_in_window();
        }
        if chunkdex >= self.part_start && chunkdex <= self.part_end {
            let idx_us = chunkdex as usize;
            if self.tracker.is_missing(idx_us) {
                let off = (chunkdex - self.part_start) as usize;
                let payload = slice_to_vec(&recv[8..br]);
                self.chunks[off] = payload;
                self.tracker.add_packet(idx_us);
                proof {
                    assert(final(self).chunk_data() =~= old(self).chunk_data().update(
                        chunkdex - old(self).win_start(),
                        recv@.subrange(8, br as int),
                    ));
                }
            } else {
                proof {
                    assert(old(self).missing().remove(chunkdex as int) =~= old(self).missing());
                    assert(final(self).chunk_data() =~= old(self).chunk_data());
                }
            }
        } else {
            proof {
                assert(!old(self).missing().contains(chunkdex as int));
                assert(old(self).missing().remove(chunkdex as int) =~= old(self).missing());
                assert(final(self).chunk_data() =~= old(self).chunk_data());
            }
        }
    }

    /// Whether every chunk of the window has arrived.
    pub fn is_complete(&self) -> (done: bool)
        requires
            self.wf(),
        ensures
            done == self.missing().is_empty(),
    {
        self.tracker.is_complete()
    }

    /// The still-missing chunk indices as maximal ranges, in increasing
    /// order, as the parallel start/end lists a chunk-request packet
    /// carries.
    pub fn pending_ranges_u64(&self) -> (r: (Vec<u64>, Vec<u64>))
        requires
            self.wf(),
        ensures
            r.0@.len() == r.1@.len(),
            forall|p: int| 0 <= p < r.0@.len() ==> #[trigger] r.0@[p] <= r.1@[p],
            forall|p: int, q: int|
                0 <= p < q < r.0@.len() ==> (#[trigger] r.1@[p]) + 1 < (#[trigger] r.0@[q]),
            forall|i: int|
                #[trigger] self.missing().contains(i) <==> exists|p: int|
                    0 <= p < r.0@.len() && r.0@[p] <= i && i <= #[trigger] r.1@[p],
    {
        let ranges = self.tracker.pending_ranges();
        let mut starts: Vec<u64> = Vec::new();
        let mut ends: Vec<u64> = Vec::new();
        let n = ranges.len();
        let mut k: usize = 0;
        while k < n
            invariant
                k <= n,
                n == ranges@.len(),
                starts@.len() == k,
                ends@.len() == k,
                forall|p: int| 0 <= p < k ==> (#[trigger] starts@[p]) == ranges@[p].0 as u64,
                forall|p: int| 0 <= p < k ==> (#[trigger] ends@[p]) == ranges@[p].1 as u64,
            decreases n - k,
        {
            starts.push(ranges[k].0 as u64);
            ends.push(ranges[k].1 as u64);
            proof {
                assert(starts@[k as int] == ranges@[k as int].0 as u64);
                assert(ends@[k as int] == ranges@[k as int].1 as u64);
            }
            k += 1;
        }
        proof {
            assert forall|i: int|
                #[trigger] self.missing().contains(i) implies exists|p: int|
                    0 <= p < starts@.len() && starts@[p] <= i && i <= #[trigger] ends@[p] by {
                let p = choose|p: int|
                    0 <= p < ranges@.len() && ranges@[p].0 <= i && i <= (#[trigger] ranges@[p]).1;
                assert(starts@[p] <= i && i <= ends@[p]);
            }
            assert forall|i: int|
                (exists|p: int| 0 <= p < starts@.len() && starts@[p] <= i && i <= #[trigger] ends@[p])
                    implies #[trigger] self.missing().contains(i) by {
                let p = choose|p: int|
                    0 <= p < starts@.len() && starts@[p] <= i && i <= #[trigger] ends@[p];
                assert(ranges@[p].0 <= i && i <= ranges@[p].1);
            }
            assert(forall|i: int|
                #[trigger] self.missing().contains(i) <==> exists|p: int|
                    0 <= p < starts@.len() && starts@[p] <= i && i <= #[trigger] ends@[p]);
            assert forall|p: int, q: int|
                0 <= p < q < starts@.len() implies (#[trigger] ends@[p]) + 1 < (
            #[trigger] starts@[q]) by {
                assert(ranges@[p].1 + 1 < ranges@[q].0);
            }
        }
        let result = (starts, ends);
        proof {
            assert(result.0@ == starts@ && result.1@ == ends@);
            assert(forall|i: int|
                #[trigger] self.missing().contains(i) <==> exists|p: int|
                    0 <= p < result.0@.len() && result.0@[p] <= i && i <= #[trigger] result.1@[p]);
        }
        result
    }

    /// Borrow the payload buffers, in window order, for the flush to
    /// the output file once the window is complete.
    pub fn chunks(&self) -> (r: &Vec<Vec<u8>>)
        ensures
            r@.len() == self.chunk_data().len(),
            forall|k: int| 0 <= k < r@.len() ==> (#[trigger] r@[k])@ == self.chunk_data()[k],
    {
        &self.chunks
    }
}

} // verus!

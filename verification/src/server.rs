//! Server-side service logic: the whitelist gate and the order in
//! which a chunk transaction's data packets are produced.
//!
//! The I/O itself (receiving datagrams, reading the file, sending
//! packets) happens outside the crate; what is verified here is every
//! decision the serving loop takes: whether a name is allowed, which
//! chunk index is served next, when a short read abandons the rest of
//! a range, and when the per-call packet limit stops the service.

use vstd::prelude::*;
use crate::codec::BUFFER_SIZE;
use crate::transaction::ChunkTransaction;

verus! {

/// Byte-for-byte equality of two byte strings.
pub fn bytes_eq(a: &[u8], b: &[u8]) -> (r: bool)
    ensures
        r == (a@ == b@),
{
    if a.len() != b.len() {
        return false;
    }
    let n = a.len();
    let mut k: usize = 0;
    while k < n
        invariant
            k <= n,
            n == a@.len(),
            n == b@.len(),
            forall|p: int| 0 <= p < k ==> a@[p] == b@[p],
        decreases n - k,
    {
        if a[k] != b[k] {
            return false;
        }
        k += 1;
    }
    proof {
        assert(a@ =~= b@);
    }
    true
}

/// Whether the requested name is one of the whitelisted filenames.
/// The server answers requests for any other name with an all-zero
/// datagram and serves no data for it.
pub fn whitelist_contains(whitelist: &Vec<Vec<u8>>, name: &[u8]) -> (r: bool)
    ensures
        r == exists|p: int|
            0 <= p < whitelist@.len() && (#[trigger] whitelist@[p])@ == name@,
{
    let n = whitelist.len();
    let mut k: usize = 0;
    while k < n
        invariant
            k <= n,
            n == whitelist@.len(),
            forall|p: int| 0 <= p < k ==> (#[trigger] whitelist@[p])@ != name@,
        decreases n - k,
    {
        if bytes_eq(whitelist[k].as_slice(), name) {
            return true;
        }
        k += 1;
    }
    false
}

/// The byte offset at which a chunk starts in its file, or `None` when
/// the multiplication would overflow (such an index lies far beyond
/// any servable file and yields no packet).
pub fn chunk_file_offset(index: u64) -> (r: Option<u64>)
    ensures
        match r {
            Some(off) => off == index * (BUFFER_SIZE as u64),
            None => index * (BUFFER_SIZE as u64) > u64::MAX,
        },
{
    index.checked_mul(BUFFER_SIZE as u64)
}

/// The first position at or after `p` in the transaction's range lists
/// that holds a proper (non-inverted) range, or the length of the
/// lists when there is none: inverted ranges describe no chunks and
/// are skipped without serving anything.
pub open spec fn spec_next_range(t: ChunkTransaction, p: int) -> int
    decreases t.starts@.len() - p,
{
    if p < t.starts@.len() {
        if 0 <= p && t.starts@[p] <= t.ends@[p] {
            p
        } else {
            spec_next_range(t, p + 1)
        }
    } else {
        p
    }
}

/// The serving position inside one chunk transaction: which range is
/// being served, the next chunk index within it, how many data packets
/// have been sent, and the per-call cap on packets (0 means no cap).
pub struct ServiceCursor {
    range: usize,
    index: u64,
    sent: u64,
    limiter: u64,
}

impl ServiceCursor {
    /// The cursor points at a sound position of the transaction: either
    /// past the last range, or inside a proper range.
    pub closed spec fn wf(self, t: ChunkTransaction) -> bool {
        &&& t.starts@.len() == t.ends@.len()
        &&& self.range as int <= t.starts@.len()
        &&& (self.range as int) < t.starts@.len() ==> t.starts@[self.range as int] <= self.index
            <= t.ends@[self.range as int]
    }

    /// The range list position the cursor stands at.
    pub closed spec fn spec_range(self) -> int {
        self.range as int
    }

    /// The chunk index the cursor stands at.
    pub closed spec fn spec_index(self) -> u64 {
        self.index
    }

    /// How many data packets have been sent for this transaction.
    pub closed spec fn spec_sent(self) -> u64 {
        self.sent
    }

    /// The per-call packet cap this cursor was created with.
    pub closed spec fn spec_limiter(self) -> u64 {
        self.limiter
    }

    /// Service is over: every range is exhausted, or the packet cap has
    /// been reached.
    pub open spec fn spec_done(self, t: ChunkTransaction) -> bool {
        self.spec_range() == t.starts@.len() || (self.spec_limiter() != 0 && self.spec_sent()
            >= self.spec_limiter())
    }

    /// Start serving a transaction under the given packet cap: the
    /// cursor stands at the first chunk of the first proper range.
    pub fn new(t: &ChunkTransaction, limiter: u64) -> (c: ServiceCursor)
        requires
            t.starts@.len() == t.ends@.len(),
        ensures
            c.wf(*t),
            c.spec_sent() == 0,
            c.spec_limiter() == limiter,
            c.spec_range() == spec_next_range(*t, 0),
            c.spec_range() < t.starts@.len() ==> c.spec_index() == t.starts@[c.spec_range()],
    {
        let mut range: usize = 0;
        let n = t.starts.len();
        while range < n && t.starts[range] > t.ends[range]
            invariant
                range <= n,
                n == t.starts@.len(),
                n == t.ends@.len(),
                spec_next_range(*t, 0) == spec_next_range(*t, range as int),
            decreases n - range,
        {
            range += 1;
        }
        let index: u64 = if range < n {
            t.starts[range]
        } else {
            0
        };
        ServiceCursor { range, index, sent: 0, limiter }
    }

    /// The chunk index to serve next, or `None` when service is over.
    pub fn current(&self, t: &ChunkTransaction) -> (r: Option<u64>)
        requires
            self.wf(*t),
        ensures
            r == (if self.spec_done(*t) {
                Option::<u64>::None
            } else {
                Option::<u64>::Some(self.spec_index())
            }),
    {
        if self.range >= t.starts.len() {
            None
        } else if self.limiter != 0 && self.sent >= self.limiter {
            None
        } else {
            Some(self.index)
        }
    }

    /// Move past the chunk just served.  Normally the cursor steps to
    /// the next index of the current range, or to the first chunk of
    /// the next proper range when the current one is finished; after a
    /// short read (`short_read`), the rest of the current range is
    /// abandoned, since the end of the file has been reached.  While a
    /// packet cap is active, the sent counter grows by one.
    pub fn advance(&mut self, t: &ChunkTransaction, short_read: bool)
        requires
            old(self).wf(*t),
            !old(self).spec_done(*t),
        ensures
            final(self).wf(*t),
            final(self).spec_limiter() == old(self).spec_limiter(),
            final(self).spec_sent() == old(self).spec_sent() + (if old(self).spec_limiter() != 0 {
                1int
            } else {
                0int
            }),
            !short_read && old(self).spec_index() < t.ends@[old(self).spec_range()] ==> final(self).spec_range() == old(self).spec_range() && final(self).spec_index() == old(self).spec_index() + 1,
            short_read || old(self).spec_index() == t.ends@[old(self).spec_range()] ==> final(self).spec_range() == spec_next_range(*t, old(self).spec_range() + 1),
            final(self).spec_range() < t.starts@.len() && (short_read || old(self).spec_index()
                == t.ends@[old(self).spec_range()]) ==> final(self).spec_index()
                == t.starts@[final(self).spec_range()],
    {
        let n = t.starts.len();
        // the counter only matters while a cap is active, and then it is
        // bounded by the cap, so it cannot wrap
        if self.limiter != 0 {
            self.sent = self.sent + 1;
        }
        if !short_read && self.index < t.ends[self.range] {
            self.index = self.index + 1;
            return ;
        }
        let mut range = self.range + 1;
        while range < n && t.starts[range] > t.ends[range]
            invariant
                old(self).spec_range() < range <= n,
                n == t.starts@.len(),
                n == t.ends@.len(),
                spec_next_range(*t, old(self).spec_range() + 1) == spec_next_range(
                    *t,
                    range as int,
                ),
            decreases n - range,
        {
            range += 1;
        }
        self.range = range;
        if range < n {
            self.index = t.starts[range];
        }
    }
}

} // verus!

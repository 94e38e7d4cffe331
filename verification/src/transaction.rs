//! Inbound request parsing: from raw datagram bytes to transactions.
//!
//! A transaction is one decoded unit of server work.  The parser
//! recognises the two request layouts (metadata and chunk ranges) and
//! silently drops anything truncated or of an unknown kind, as the
//! wire contract demands.  No validation of the ranges themselves
//! happens here: out-of-range or inverted ranges are harmless later,
//! when the file read loop finds nothing to serve for them.

use vstd::prelude::*;
use vstd::slice::slice_to_vec;
use crate::codec::spec_u64_from_be_bytes;
use crate::codec::unpack_u8arr_into_u64;

verus! {

/// One decoded unit of server work: the requested file (as the raw
/// name bytes from the wire) and parallel lists of inclusive chunk
/// ranges to serve.  Empty range lists denote a metadata request.  The
/// caller pairs the transaction with the requester's address itself.
pub struct ChunkTransaction {
    pub filename: Vec<u8>,
    pub starts: Vec<u64>,
    pub ends: Vec<u64>,
}

/// The filename of a metadata request: one length byte, then that many
/// name bytes.  `None` when the data is truncated.
pub open spec fn spec_parse_metadata_request(data: Seq<u8>) -> Option<Seq<u8>> {
    if data.len() < 1 {
        None
    } else if data.len() < 1 + data[0] {
        None
    } else {
        Some(data.subrange(1, 1 + data[0]))
    }
}

/// The filename and ranges of a chunk request: one length byte, the
/// name, an 8-byte range count, then that many 16-byte `(start, end)`
/// pairs.  `None` when the data is truncated.  Trailing bytes beyond
/// the announced ranges are ignored.
pub open spec fn spec_parse_chunk_request(data: Seq<u8>) -> Option<(Seq<u8>, Seq<u64>, Seq<u64>)> {
    if data.len() < 1 {
        None
    } else {
        let n = data[0] as int;
        if data.len() < 1 + n + 8 {
            None
        } else {
            let cnt = spec_u64_from_be_bytes(data.subrange(1 + n, 1 + n + 8)) as int;
            if data.len() < 1 + n + 8 + 16 * cnt {
                None
            } else {
                Some(
                    (
                        data.subrange(1, 1 + n),
                        Seq::new(
                            cnt as nat,
                            |q: int|
                                spec_u64_from_be_bytes(
                                    data.subrange(1 + n + 8 + 16 * q, 1 + n + 8 + 16 * q + 8),
                                ),
                        ),
                        Seq::new(
                            cnt as nat,
                            |q: int|
                                spec_u64_from_be_bytes(
                                    data.subrange(1 + n + 8 + 16 * q + 8, 1 + n + 8 + 16 * q + 16),
                                ),
                        ),
                    ),
                )
            }
        }
    }
}

/// What an inbound datagram parses to: kind 0 is a metadata request
/// (empty range lists), kind 1 a chunk request; any other kind, or a
/// truncated packet, produces no transaction.
pub open spec fn spec_parse_request(data: Seq<u8>) -> Option<(Seq<u8>, Seq<u64>, Seq<u64>)> {
    if data.len() < 8 {
        None
    } else {
        let kind = spec_u64_from_be_bytes(data.subrange(0, 8));
        let rest = data.subrange(8, data.len() as int);
        if kind == 0 {
            match spec_parse_metadata_request(rest) {
                Some(name) => Some((name, Seq::<u64>::empty(), Seq::<u64>::empty())),
                None => None,
            }
        } else if kind == 1 {
            spec_parse_chunk_request(rest)
        } else {
            None
        }
    }
}

/// Turn an inbound metadata request into a transaction with empty
/// range lists and append it to the server's transaction queue.  A
/// truncated request is dropped and the queue is left unchanged.
pub fn add_metadata_transaction(data: &[u8], transactions: &mut Vec<ChunkTransaction>)
    ensures
        spec_parse_metadata_request(data@) is Some ==> {
            &&& final(transactions)@.len() == old(transactions)@.len() + 1
            &&& (forall|p: int|
                0 <= p < old(transactions)@.len() ==> final(transactions)@[p] == old(
                    transactions,
                )@[p])
            &&& final(transactions)@.last().filename@ == spec_parse_metadata_request(
                data@,
            ).unwrap()
            &&& final(transactions)@.last().starts@ == Seq::<u64>::empty()
            &&& final(transactions)@.last().ends@ == Seq::<u64>::empty()
        },
        spec_parse_metadata_request(data@) is None ==> final(transactions)@ == old(
            transactions,
        )@,
{
    if data.len() < 1 {
        return ;
    }
    let namelen = data[0] as usize;
    if data.len() < 1 + namelen {
        return ;
    }
    let filename = slice_to_vec(&data[1..1 + namelen]);
    let tx = ChunkTransaction { filename, starts: Vec::new(), ends: Vec::new() };
    transactions.push(tx);
}

/// Turn an inbound chunk request into a transaction carrying the
/// parsed ranges, order preserved, and append it to the server's
/// transaction queue.  A truncated request is dropped and the queue is
/// left unchanged.
pub fn add_chunk_transaction(data: &[u8], transactions: &mut Vec<ChunkTransaction>)
    ensures
        spec_parse_chunk_request(data@) is Some ==> {
            &&& final(transactions)@.len() == old(transactions)@.len() + 1
            &&& (forall|p: int|
                0 <= p < old(transactions)@.len() ==> final(transactions)@[p] == old(
                    transactions,
                )@[p])
            &&& final(transactions)@.last().filename@ == spec_parse_chunk_request(
                data@,
            ).unwrap().0
            &&& final(transactions)@.last().starts@ == spec_parse_chunk_request(data@).unwrap().1
            &&& final(transactions)@.last().ends@ == spec_parse_chunk_request(data@).unwrap().2
        },
        spec_parse_chunk_request(data@) is None ==> final(transactions)@ == old(transactions)@,
{
    if data.len() < 1 {
        return ;
    }
    let namelen = data[0] as usize;
    if data.len() < 1 + namelen + 8 {
        return ;
    }
    let filename = slice_to_vec(&data[1..1 + namelen]);
    let base = 1 + namelen;
    let interval_count = unpack_u8arr_into_u64(&data[base..base + 8]);
    let remaining = data.len() - (base + 8);
    proof {
        assert((interval_count as int) <= (remaining as int) / 16 <==> 16 * (interval_count as int)
            <= (remaining as int)) by (nonlinear_arith);
    }
    if interval_count > (remaining / 16) as u64 {
        return ;
    }
    let cnt = interval_count as usize;
    let ghost gstarts = spec_parse_chunk_request(data@).unwrap().1;
    let ghost gends = spec_parse_chunk_request(data@).unwrap().2;
    let mut starts: Vec<u64> = Vec::new();
    let mut ends: Vec<u64> = Vec::new();
    let mut byte_counter = base + 8;
    let mut q: usize = 0;
    while q < cnt
        invariant
            q <= cnt,
            cnt == interval_count,
            byte_counter == 1 + namelen + 8 + 16 * q,
            byte_counter + 16 * (cnt - q) <= data@.len(),
            data@.len() <= usize::MAX,
            namelen == data@[0],
            data@.len() >= 1 + namelen + 8,
            interval_count == spec_u64_from_be_bytes(
                data@.subrange(1 + namelen, 1 + namelen + 8),
            ),
            spec_parse_chunk_request(data@) is Some,
            gstarts == spec_parse_chunk_request(data@).unwrap().1,
            gends == spec_parse_chunk_request(data@).unwrap().2,
            gstarts.len() == cnt,
            gends.len() == cnt,
            starts@.len() == q,
            ends@.len() == q,
            forall|p: int| 0 <= p < q ==> starts@[p] == gstarts[p],
            forall|p: int| 0 <= p < q ==> ends@[p] == gends[p],
        decreases cnt - q,
    {
        let s = unpack_u8arr_into_u64(&data[byte_counter..byte_counter + 8]);
        let e = unpack_u8arr_into_u64(&data[byte_counter + 8..byte_counter + 16]);
        starts.push(s);
        ends.push(e);
        byte_counter += 16;
        q += 1;
    }
    proof {
        assert(starts@ =~= gstarts);
        assert(ends@ =~= gends);
    }
    transactions.push(ChunkTransaction { filename, starts, ends });
}

/// Decode the kind field of an inbound datagram of `bytes` bytes and
/// enqueue the transaction it describes: kind 0 a metadata request,
/// kind 1 a chunk request.  Unknown kinds and truncated packets are
/// dropped without producing a transaction.
pub fn server_handle_inbound(
    bytes: usize,
    transactions: &mut Vec<ChunkTransaction>,
    buffer: &[u8],
)
    requires
        bytes <= buffer@.len(),
    ensures
        spec_parse_request(buffer@.subrange(0, bytes as int)) is Some ==> {
            &&& final(transactions)@.len() == old(transactions)@.len() + 1
            &&& (forall|p: int|
                0 <= p < old(transactions)@.len() ==> final(transactions)@[p] == old(
                    transactions,
                )@[p])
            &&& final(transactions)@.last().filename@ == spec_parse_request(
                buffer@.subrange(0, bytes as int),
            ).unwrap().0
            &&& final(transactions)@.last().starts@ == spec_parse_request(
                buffer@.subrange(0, bytes as int),
            ).unwrap().1
            &&& final(transactions)@.last().ends@ == spec_parse_request(
                buffer@.subrange(0, bytes as int),
            ).unwrap().2
        },
        spec_parse_request(buffer@.subrange(0, bytes as int)) is None ==> final(transactions)@
            == old(transactions)@,
{
    let ghost datagram = buffer@.subrange(0, bytes as int);
    if bytes < 8 {
        return ;
    }
    let id = unpack_u8arr_into_u64(&buffer[0..8]);
    proof {
        assert(buffer@.subrange(0, 8) =~= datagram.subrange(0, 8));
        assert(buffer@.subrange(8, bytes as int) =~= datagram.subrange(8, datagram.len() as int));
    }
    if id == 0 {
        add_metadata_transaction(&buffer[8..bytes], transactions);
    } else if id == 1 {
        add_chunk_transaction(&buffer[8..bytes], transactions);
    }
}

} // verus!

//! Big-endian integer codec.
//!
//! Every multi-byte integer on the wire is a 64-bit unsigned value in
//! network order (big endian).  The two functions here convert between
//! `u64` and its 8-byte representation; the round-trip lemma states that
//! decoding an encoded value gives the value back, for every `u64`.

use vstd::prelude::*;
use vstd::utf8::encode_utf8;

verus! {

/// Every packet is built inside a buffer of exactly this many bytes.
pub const PACKET_SIZE: usize = 512;

/// Payload bytes left in a chunk-data packet after the 8-byte index field.
pub const BUFFER_SIZE: usize = PACKET_SIZE - 8;

/// The 8-byte big-endian representation of a 64-bit value.
pub open spec fn spec_u64_to_be_bytes(v: u64) -> Seq<u8> {
    seq![
        ((v >> 56) & 0xff) as u8,
        ((v >> 48) & 0xff) as u8,
        ((v >> 40) & 0xff) as u8,
        ((v >> 32) & 0xff) as u8,
        ((v >> 24) & 0xff) as u8,
        ((v >> 16) & 0xff) as u8,
        ((v >> 8) & 0xff) as u8,
        (v & 0xff) as u8,
    ]
}

/// The 64-bit value whose big-endian representation is the first 8 bytes of `s`.
pub open spec fn spec_u64_from_be_bytes(s: Seq<u8>) -> u64
    recommends
        s.len() >= 8,
{
    ((s[0] as u64) << 56) | ((s[1] as u64) << 48) | ((s[2] as u64) << 40) | ((s[3] as u64) << 32)
        | ((s[4] as u64) << 24) | ((s[5] as u64) << 16) | ((s[6] as u64) << 8) | (s[7] as u64)
}

/// Take a u64 and pack it into an owned array of u8, in network order.
pub fn pack_u64_into_u8arr(val: u64) -> (r: [u8; 8])
    ensures
        r@ == spec_u64_to_be_bytes(val),
{
    let r: [u8; 8] = [
        ((val >> 56) & 0xff) as u8,
        ((val >> 48) & 0xff) as u8,
        ((val >> 40) & 0xff) as u8,
        ((val >> 32) & 0xff) as u8,
        ((val >> 24) & 0xff) as u8,
        ((val >> 16) & 0xff) as u8,
        ((val >> 8) & 0xff) as u8,
        (val & 0xff) as u8,
    ];
    proof {
        assert(r@ =~= spec_u64_to_be_bytes(val));
    }
    r
}

/// Read a u64 from the first 8 bytes of a slice, in network order.
pub fn unpack_u8arr_into_u64(val: &[u8]) -> (r: u64)
    requires
        val@.len() >= 8,
    ensures
        r == spec_u64_from_be_bytes(val@),
{
    ((val[0] as u64) << 56) | ((val[1] as u64) << 48) | ((val[2] as u64) << 40) | ((val[3]
        as u64) << 32) | ((val[4] as u64) << 24) | ((val[5] as u64) << 16) | ((val[6] as u64) << 8)
        | (val[7] as u64)
}

/// The number of chunks a file of `len` bytes splits into: the number
/// of full `BUFFER_SIZE`-byte chunks, plus one for a shorter tail.  An
/// empty (or missing) file has no chunks.
pub open spec fn spec_chunk_count(len: u64) -> u64 {
    if len % (BUFFER_SIZE as u64) == 0 {
        len / (BUFFER_SIZE as u64)
    } else {
        (len / (BUFFER_SIZE as u64) + 1) as u64
    }
}

/// How many `(start, end)` range pairs fit in a chunk-request packet
/// after the kind field, the name-length byte, a name of `name_len`
/// bytes, and the 8-byte range count.
pub open spec fn spec_fittable_ranges(name_len: int) -> int {
    (PACKET_SIZE - 17 - name_len) / 16
}

/// How many range pairs a chunk-request packet actually carries: all
/// the requested ones when they fit, and a maximal prefix otherwise.
pub open spec fn spec_actual_ranges(name_len: int, desired: int) -> int {
    if desired < spec_fittable_ranges(name_len) {
        desired
    } else {
        spec_fittable_ranges(name_len)
    }
}

/// Round trip: decoding the big-endian encoding of any 64-bit value
/// gives the value back.
pub proof fn lemma_u64_codec_round_trip(v: u64)
    ensures
        spec_u64_from_be_bytes(spec_u64_to_be_bytes(v)) == v,
{
    let s = spec_u64_to_be_bytes(v);
    assert(s[0] == ((v >> 56) & 0xff) as u8);
    assert(s[1] == ((v >> 48) & 0xff) as u8);
    assert(s[2] == ((v >> 40) & 0xff) as u8);
    assert(s[3] == ((v >> 32) & 0xff) as u8);
    assert(s[4] == ((v >> 24) & 0xff) as u8);
    assert(s[5] == ((v >> 16) & 0xff) as u8);
    assert(s[6] == ((v >> 8) & 0xff) as u8);
    assert(s[7] == (v & 0xff) as u8);
    assert((((((v >> 56) & 0xff) as u8) as u64) << 56) | (((((v >> 48) & 0xff) as u8) as u64) << 48)
        | (((((v >> 40) & 0xff) as u8) as u64) << 40) | (((((v >> 32) & 0xff) as u8) as u64) << 32)
        | (((((v >> 24) & 0xff) as u8) as u64) << 24) | (((((v >> 16) & 0xff) as u8) as u64) << 16)
        | (((((v >> 8) & 0xff) as u8) as u64) << 8) | (((v & 0xff) as u8) as u64) == v)
        by (bit_vector);
}

/// Write the 8 bytes of `word` into `buffer` starting at `at`.
fn put_u64(buffer: &mut [u8; PACKET_SIZE], at: usize, word: u64)
    requires
        at + 8 <= PACKET_SIZE,
    ensures
        final(buffer)@.len() == PACKET_SIZE,
        final(buffer)@.subrange(at as int, at + 8) == spec_u64_to_be_bytes(word),
        forall|q: int| 0 <= q < at ==> final(buffer)@[q] == old(buffer)@[q],
        forall|q: int| at + 8 <= q < PACKET_SIZE ==> final(buffer)@[q] == old(buffer)@[q],
{
    let w = pack_u64_into_u8arr(word);
    buffer[at] = w[0];
    buffer[at + 1] = w[1];
    buffer[at + 2] = w[2];
    buffer[at + 3] = w[3];
    buffer[at + 4] = w[4];
    buffer[at + 5] = w[5];
    buffer[at + 6] = w[6];
    buffer[at + 7] = w[7];
    proof {
        assert(buffer@.subrange(at as int, at + 8) =~= spec_u64_to_be_bytes(word));
    }
}

/// Fill a send buffer with an all-zero reply: the server's only answer
/// for a file that is not on the whitelist.  The whole packet is sent.
pub fn nil_response_packet(buffer: &mut [u8; PACKET_SIZE]) -> (r: usize)
    ensures
        r == PACKET_SIZE,
        forall|q: int| 0 <= q < PACKET_SIZE ==> final(buffer)@[q] == 0,
{
    let mut k: usize = 0;
    while k < PACKET_SIZE
        invariant
            k <= PACKET_SIZE,
            buffer@.len() == PACKET_SIZE,
            forall|q: int| 0 <= q < k ==> buffer@[q] == 0,
        decreases PACKET_SIZE - k,
    {
        buffer[k] = 0;
        k += 1;
    }
    PACKET_SIZE
}

/// Populate a send buffer with a metadata request for the file named
/// `fname`: the kind field 0, one byte of name length, then the name
/// bytes.  Returns how many bytes of the buffer the packet occupies.
pub fn metadata_request_packet(fname: &String, buffer: &mut [u8; PACKET_SIZE]) -> (r: usize)
    requires
        encode_utf8(fname@).len() <= 255,
    ensures
        r == 9 + encode_utf8(fname@).len(),
        final(buffer)@.subrange(0, 8) == spec_u64_to_be_bytes(0),
        final(buffer)@[8] == encode_utf8(fname@).len() as u8,
        final(buffer)@.subrange(9, r as int) == encode_utf8(fname@),
        forall|q: int| r <= q < PACKET_SIZE ==> final(buffer)@[q] == old(buffer)@[q],
{
    put_u64(buffer, 0, 0);
    let nb = fname.as_str().as_bytes();
    let n = nb.len();
    buffer[8] = n as u8;
    let mut k: usize = 0;
    while k < n
        invariant
            k <= n,
            n <= 255,
            nb@ == encode_utf8(fname@),
            n == nb@.len(),
            buffer@.len() == PACKET_SIZE,
            buffer@.subrange(0, 8) == spec_u64_to_be_bytes(0),
            buffer@[8] == n as u8,
            forall|q: int| 0 <= q < k ==> buffer@[9 + q] == nb@[q],
            forall|q: int| 9 + n <= q < PACKET_SIZE ==> buffer@[q] == old(buffer)@[q],
        decreases n - k,
    {
        buffer[9 + k] = nb[k];
        k += 1;
    }
    proof {
        assert(buffer@.subrange(9, 9 + n) =~= encode_utf8(fname@));
    }
    9 + n
}

/// Populate a send buffer with a metadata response: the kind field 0,
/// then the chunk count of a file of `file_len` bytes.  The caller
/// supplies the file length it read from the filesystem, or 0 when the
/// file could not be found.
pub fn metadata_response_packet(file_len: u64, buffer: &mut [u8; PACKET_SIZE]) -> (r: usize)
    ensures
        r == 16,
        final(buffer)@.subrange(0, 8) == spec_u64_to_be_bytes(0),
        final(buffer)@.subrange(8, 16) == spec_u64_to_be_bytes(spec_chunk_count(file_len)),
        forall|q: int| 16 <= q < PACKET_SIZE ==> final(buffer)@[q] == old(buffer)@[q],
{
    let chunk_count: u64 = if file_len % (BUFFER_SIZE as u64) == 0 {
        file_len / (BUFFER_SIZE as u64)
    } else {
        file_len / (BUFFER_SIZE as u64) + 1
    };
    put_u64(buffer, 0, 0);
    put_u64(buffer, 8, chunk_count);
    proof {
        assert(buffer@.subrange(0, 8) =~= spec_u64_to_be_bytes(0));
    }
    16
}

/// Populate a send buffer with one chunk-data packet: the chunk index,
/// then the chunk's payload bytes read from the file.
pub fn chunk_data_packet(index: u64, data: &[u8], buffer: &mut [u8; PACKET_SIZE]) -> (r: usize)
    requires
        1 <= data@.len() <= BUFFER_SIZE,
    ensures
        r == 8 + data@.len(),
        final(buffer)@.subrange(0, 8) == spec_u64_to_be_bytes(index),
        final(buffer)@.subrange(8, r as int) == data@,
        forall|q: int| r <= q < PACKET_SIZE ==> final(buffer)@[q] == old(buffer)@[q],
{
    put_u64(buffer, 0, index);
    let n = data.len();
    let mut k: usize = 0;
    while k < n
        invariant
            k <= n,
            n == data@.len(),
            n <= BUFFER_SIZE,
            buffer@.len() == PACKET_SIZE,
            buffer@.subrange(0, 8) == spec_u64_to_be_bytes(index),
            forall|q: int| 0 <= q < k ==> buffer@[8 + q] == data@[q],
            forall|q: int| 8 + n <= q < PACKET_SIZE ==> buffer@[q] == old(buffer)@[q],
        decreases n - k,
    {
        buffer[8 + k] = data[k];
        k += 1;
    }
    proof {
        assert(buffer@.subrange(8, 8 + n) =~= data@);
    }
    8 + n
}

/// Populate a send buffer with a chunk request for the file named
/// `fname`: the kind field 1, the name, the number of ranges carried,
/// then that many `(start, end)` pairs.  As many requested ranges are
/// packed as fit in the buffer; trailing ranges that do not fit are
/// silently dropped (the tracker will ask for them again later), so the
/// packet never exceeds `PACKET_SIZE` bytes.
pub fn range_chunk_request_packet(
    fname: &String,
    starts: Vec<u64>,
    ends: Vec<u64>,
    send_buffer: &mut [u8; PACKET_SIZE],
) -> (r: usize)
    requires
        encode_utf8(fname@).len() <= 255,
        starts@.len() == ends@.len(),
    ensures
        r == 17 + encode_utf8(fname@).len() + 16 * spec_actual_ranges(
            encode_utf8(fname@).len() as int,
            starts@.len() as int,
        ),
        r <= PACKET_SIZE,
        final(send_buffer)@.subrange(0, 8) == spec_u64_to_be_bytes(1),
        final(send_buffer)@[8] == encode_utf8(fname@).len() as u8,
        final(send_buffer)@.subrange(9, 9 + encode_utf8(fname@).len() as int) == encode_utf8(fname@),
        final(send_buffer)@.subrange(
            9 + encode_utf8(fname@).len() as int,
            17 + encode_utf8(fname@).len() as int,
        ) == spec_u64_to_be_bytes(
            spec_actual_ranges(encode_utf8(fname@).len() as int, starts@.len() as int) as u64,
        ),
        forall|q: int|
            0 <= q < spec_actual_ranges(encode_utf8(fname@).len() as int, starts@.len() as int)
                ==> final(send_buffer)@.subrange(
                17 + encode_utf8(fname@).len() as int + 16 * q,
                17 + encode_utf8(fname@).len() as int + 16 * q + 8,
            ) == spec_u64_to_be_bytes(starts@[q]) && final(send_buffer)@.subrange(
                17 + encode_utf8(fname@).len() as int + 16 * q + 8,
                17 + encode_utf8(fname@).len() as int + 16 * q + 16,
            ) == spec_u64_to_be_bytes(ends@[q]),
{
    let ghost name = encode_utf8(fname@);
    put_u64(send_buffer, 0, 1);
    let nb = fname.as_str().as_bytes();
    let n = nb.len();
    send_buffer[8] = n as u8;
    let mut k: usize = 0;
    while k < n
        invariant
            k <= n,
            n <= 255,
            nb@ == name,
            n == name.len(),
            send_buffer@.len() == PACKET_SIZE,
            send_buffer@.subrange(0, 8) == spec_u64_to_be_bytes(1),
            send_buffer@[8] == n as u8,
            forall|q: int| 0 <= q < k ==> send_buffer@[9 + q] == name[q],
        decreases n - k,
    {
        send_buffer[9 + k] = nb[k];
        k += 1;
    }
    proof {
        assert(send_buffer@.subrange(9, 9 + n) =~= name);
    }
    // how many ranges fit after the fields written so far and the
    // 8-byte range count
    let desired: u64 = starts.len() as u64;
    let fittable: u64 = ((PACKET_SIZE - (9 + n) - 8) / 16) as u64;
    let actual: u64 = if desired < fittable {
        desired
    } else {
        fittable
    };
    let actual_us: usize = actual as usize;
    proof {
        assert(fittable == spec_fittable_ranges(n as int));
        assert(actual == spec_actual_ranges(n as int, starts@.len() as int));
        assert(16 * spec_fittable_ranges(n as int) <= PACKET_SIZE - 17 - n) by (nonlinear_arith)
            requires
                0 <= n <= 255,
                spec_fittable_ranges(n as int) == (PACKET_SIZE - 17 - n as int) / 16,
        ;
        assert(17 + n + 16 * (actual as int) <= PACKET_SIZE);
    }
    put_u64(send_buffer, 9 + n, actual);
    let mut pos: usize = 17 + n;
    let mut q: usize = 0;
    while q < actual_us
        invariant
            q <= actual_us,
            actual_us == spec_actual_ranges(n as int, starts@.len() as int),
            actual_us <= starts@.len(),
            starts@.len() == ends@.len(),
            n == name.len(),
            n <= 255,
            pos == 17 + n + 16 * q,
            17 + n + 16 * actual_us <= PACKET_SIZE,
            send_buffer@.len() == PACKET_SIZE,
            send_buffer@.subrange(0, 8) == spec_u64_to_be_bytes(1),
            send_buffer@[8] == n as u8,
            send_buffer@.subrange(9, 9 + n) == name,
            send_buffer@.subrange(9 + n, 17 + n) == spec_u64_to_be_bytes(actual_us as u64),
            forall|p: int|
                0 <= p < q ==> send_buffer@.subrange(17 + n + 16 * p, 17 + n + 16 * p + 8)
                    == spec_u64_to_be_bytes(starts@[p]) && send_buffer@.subrange(
                    17 + n + 16 * p + 8,
                    17 + n + 16 * p + 16,
                ) == spec_u64_to_be_bytes(ends@[p]),
        decreases actual_us - q,
    {
        put_u64(send_buffer, pos, starts[q]);
        put_u64(send_buffer, pos + 8, ends[q]);
        proof {
            assert forall|p: int|
                0 <= p < q + 1 implies send_buffer@.subrange(17 + n + 16 * p, 17 + n + 16 * p + 8)
                == spec_u64_to_be_bytes(starts@[p]) && send_buffer@.subrange(
                17 + n + 16 * p + 8,
                17 + n + 16 * p + 16,
            ) == spec_u64_to_be_bytes(ends@[p]) by {
                if p < q {
                    assert(send_buffer@.subrange(17 + n + 16 * p, 17 + n + 16 * p + 8)
                        =~= spec_u64_to_be_bytes(starts@[p]));
                    assert(send_buffer@.subrange(17 + n + 16 * p + 8, 17 + n + 16 * p + 16)
                        =~= spec_u64_to_be_bytes(ends@[p]));
                }
            }
            assert(send_buffer@.subrange(0, 8) =~= spec_u64_to_be_bytes(1));
            assert(send_buffer@.subrange(9, 9 + n) =~= name);
            assert(send_buffer@.subrange(9 + n, 17 + n) =~= spec_u64_to_be_bytes(
                actual_us as u64,
            ));
        }
        pos = pos + 16;
        q += 1;
    }
    pos
}

} // verus!

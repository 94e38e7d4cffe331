use basic_udp::chunk_data_packet;
use basic_udp::metadata_request_packet;
use basic_udp::metadata_response_packet;
use basic_udp::nil_response_packet;
use basic_udp::pack_u64_into_u8arr;
use basic_udp::range_chunk_request_packet;
use basic_udp::unpack_u8arr_into_u64;
use basic_udp::PACKET_SIZE;

#[test]
fn pack_is_big_endian() {
    assert_eq!(
        pack_u64_into_u8arr(0x0102030405060708),
        [1, 2, 3, 4, 5, 6, 7, 8]
    );
    assert_eq!(pack_u64_into_u8arr(0), [0u8; 8]);
    assert_eq!(pack_u64_into_u8arr(u64::MAX), [0xffu8; 8]);
    assert_eq!(pack_u64_into_u8arr(1), [0, 0, 0, 0, 0, 0, 0, 1]);
}

#[test]
fn unpack_is_big_endian() {
    assert_eq!(unpack_u8arr_into_u64(&[1, 2, 3, 4, 5, 6, 7, 8]), 0x0102030405060708);
    assert_eq!(unpack_u8arr_into_u64(&[0u8; 8]), 0);
    assert_eq!(unpack_u8arr_into_u64(&[0xffu8; 8]), u64::MAX);
    // only the first 8 bytes count
    assert_eq!(unpack_u8arr_into_u64(&[0, 0, 0, 0, 0, 0, 0, 9, 77, 88]), 9);
}

#[test]
fn u64_round_trip() {
    for v in [
        0u64,
        1,
        255,
        256,
        0xdead_beef,
        0x0102030405060708,
        u64::MAX - 1,
        u64::MAX,
    ] {
        assert_eq!(unpack_u8arr_into_u64(&pack_u64_into_u8arr(v)), v);
    }
}

#[test]
fn metadata_request_layout() {
    let mut buffer = [0xaau8; PACKET_SIZE];
    let name = String::from("abc");
    let r = metadata_request_packet(&name, &mut buffer);
    assert_eq!(r, 12);
    assert_eq!(&buffer[0..8], &[0u8; 8]);
    assert_eq!(buffer[8], 3);
    assert_eq!(&buffer[9..12], b"abc");
    // bytes beyond the packet are untouched
    assert_eq!(buffer[12], 0xaa);
}

#[test]
fn metadata_response_layout_and_chunk_count() {
    let mut buffer = [0u8; PACKET_SIZE];

    // a 1000-byte file splits into 2 chunks of 504 bytes
    let r = metadata_response_packet(1000, &mut buffer);
    assert_eq!(r, 16);
    assert_eq!(&buffer[0..8], &[0u8; 8]);
    assert_eq!(unpack_u8arr_into_u64(&buffer[8..16]), 2);

    // an empty or missing file has no chunks
    metadata_response_packet(0, &mut buffer);
    assert_eq!(unpack_u8arr_into_u64(&buffer[8..16]), 0);

    // exact multiples need no tail chunk
    metadata_response_packet(504, &mut buffer);
    assert_eq!(unpack_u8arr_into_u64(&buffer[8..16]), 1);
    metadata_response_packet(505, &mut buffer);
    assert_eq!(unpack_u8arr_into_u64(&buffer[8..16]), 2);
    metadata_response_packet(1008, &mut buffer);
    assert_eq!(unpack_u8arr_into_u64(&buffer[8..16]), 2);
}

#[test]
fn chunk_data_layout() {
    let mut buffer = [0u8; PACKET_SIZE];
    let payload = [9u8, 8, 7];
    let r = chunk_data_packet(7, &payload, &mut buffer);
    assert_eq!(r, 11);
    assert_eq!(unpack_u8arr_into_u64(&buffer[0..8]), 7);
    assert_eq!(&buffer[8..11], &[9, 8, 7]);
}

#[test]
fn nil_response_is_all_zero() {
    let mut buffer = [0x55u8; PACKET_SIZE];
    let r = nil_response_packet(&mut buffer);
    assert_eq!(r, PACKET_SIZE);
    assert!(buffer.iter().all(|b| *b == 0));
}

#[test]
fn chunk_request_pairs_decode_back() {
    let mut buffer = [0u8; PACKET_SIZE];
    let name = String::from("f");
    let starts = vec![1u64, 5];
    let ends = vec![2u64, 9];
    let r = range_chunk_request_packet(&name, starts, ends, &mut buffer);
    // 8 kind + 1 length + 1 name + 8 count + 2 * 16 range bytes
    assert_eq!(r, 50);
    assert!(r <= PACKET_SIZE);
    assert_eq!(unpack_u8arr_into_u64(&buffer[0..8]), 1);
    assert_eq!(buffer[8], 1);
    assert_eq!(buffer[9], b'f');
    assert_eq!(unpack_u8arr_into_u64(&buffer[10..18]), 2);
    assert_eq!(unpack_u8arr_into_u64(&buffer[18..26]), 1);
    assert_eq!(unpack_u8arr_into_u64(&buffer[26..34]), 2);
    assert_eq!(unpack_u8arr_into_u64(&buffer[34..42]), 5);
    assert_eq!(unpack_u8arr_into_u64(&buffer[42..50]), 9);
}

#[test]
fn chunk_request_never_exceeds_packet_size() {
    // with an empty name, (512 - 17) / 16 = 30 range pairs fit
    let mut buffer = [0u8; PACKET_SIZE];
    let name = String::new();
    let starts: Vec<u64> = (0..40).map(|k| 10 * k).collect();
    let ends: Vec<u64> = (0..40).map(|k| 10 * k + 5).collect();
    let r = range_chunk_request_packet(&name, starts, ends, &mut buffer);
    assert_eq!(unpack_u8arr_into_u64(&buffer[9..17]), 30);
    assert_eq!(r, 17 + 16 * 30);
    assert!(r <= PACKET_SIZE);
    // the ranges that made it in are the first 30, unchanged
    for k in 0..30u64 {
        let at = 17 + 16 * (k as usize);
        assert_eq!(unpack_u8arr_into_u64(&buffer[at..at + 8]), 10 * k);
        assert_eq!(unpack_u8arr_into_u64(&buffer[at + 8..at + 16]), 10 * k + 5);
    }
}

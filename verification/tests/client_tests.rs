use basic_udp::chunk_data_packet;
use basic_udp::client::window_bounds;
use basic_udp::client::WindowState;
use basic_udp::metadata_response_packet;
use basic_udp::range_chunk_request_packet;
use basic_udp::server_handle_inbound;
use basic_udp::unpack_u8arr_into_u64;
use basic_udp::ChunkTransaction;
use basic_udp::BUFFER_SIZE;
use basic_udp::PACKET_SIZE;

#[test]
fn window_bounds_cover_the_file() {
    // a 2-chunk file with a large memory limit: one window [0, 1]
    assert_eq!(window_bounds(0, 1000, 2), (0, 1));
    // 10 chunks in windows of 3: [0,2] [3,5] [6,8] [9,9]
    assert_eq!(window_bounds(0, 3, 10), (0, 2));
    assert_eq!(window_bounds(1, 3, 10), (3, 5));
    assert_eq!(window_bounds(2, 3, 10), (6, 8));
    assert_eq!(window_bounds(3, 3, 10), (9, 9));
    // a window boundary exactly at the file end
    assert_eq!(window_bounds(1, 5, 10), (5, 9));
}

/// A deterministic 1000-byte file.
fn test_file() -> Vec<u8> {
    (0..1000u32).map(|k| (k * 7 + 3) as u8).collect()
}

#[test]
fn thousand_byte_file_transfers_byte_identically() {
    let file = test_file();

    // the server derives the chunk count from the file length
    let mut meta = [0u8; PACKET_SIZE];
    metadata_response_packet(file.len() as u64, &mut meta);
    let chunk_count = unpack_u8arr_into_u64(&meta[8..16]);
    assert_eq!(chunk_count, 2);

    // the server builds one data packet per chunk
    let mut p0 = [0u8; PACKET_SIZE];
    let n0 = chunk_data_packet(0, &file[0..BUFFER_SIZE], &mut p0);
    let mut p1 = [0u8; PACKET_SIZE];
    let n1 = chunk_data_packet(1, &file[BUFFER_SIZE..1000], &mut p1);
    assert_eq!(n0, PACKET_SIZE);
    assert_eq!(n1, 8 + (1000 - BUFFER_SIZE));

    // the client assembles them, out of order and with a duplicate
    let mut w = WindowState::new(0, 1);
    assert!(!w.is_complete());
    w.handle_packet(&p1, n1);
    assert!(!w.is_complete());
    w.handle_packet(&p1, n1);
    w.handle_packet(&p0, n0);
    assert!(w.is_complete());

    let mut out: Vec<u8> = Vec::new();
    for chunk in w.chunks().iter() {
        out.extend_from_slice(chunk);
    }
    assert_eq!(out, file);
}

#[test]
fn duplicate_payload_is_not_appended_twice() {
    let mut p = [0u8; PACKET_SIZE];
    let data = [42u8; 100];
    let n = chunk_data_packet(0, &data, &mut p);
    let mut w = WindowState::new(0, 1);
    w.handle_packet(&p, n);
    w.handle_packet(&p, n);
    assert_eq!(w.chunks()[0].len(), 100);
    assert_eq!(w.chunks()[0], data.to_vec());
}

#[test]
fn packets_outside_the_window_are_ignored() {
    let mut p = [0u8; PACKET_SIZE];
    let n = chunk_data_packet(50, &[1, 2, 3], &mut p);
    let mut w = WindowState::new(0, 9);
    w.handle_packet(&p, n);
    assert_eq!(w.pending_ranges_u64(), (vec![0], vec![9]));
    assert!(w.chunks().iter().all(|c| c.is_empty()));
}

#[test]
fn gap_rerequest_round_trips_through_the_wire() {
    // window [100, 149]: only 100..=110 and 140..=149 have arrived
    let mut w = WindowState::new(100, 149);
    for i in 100..=110u64 {
        let mut p = [0u8; PACKET_SIZE];
        let n = chunk_data_packet(i, &[i as u8], &mut p);
        w.handle_packet(&p, n);
    }
    for i in 140..=149u64 {
        let mut p = [0u8; PACKET_SIZE];
        let n = chunk_data_packet(i, &[i as u8], &mut p);
        w.handle_packet(&p, n);
    }
    let (starts, ends) = w.pending_ranges_u64();
    assert_eq!(starts, vec![111]);
    assert_eq!(ends, vec![139]);

    // the re-request carries exactly that gap, and the server decodes it
    let mut buffer = [0u8; PACKET_SIZE];
    let name = String::from("data.bin");
    let bytes = range_chunk_request_packet(&name, starts, ends, &mut buffer);
    let mut transactions: Vec<ChunkTransaction> = Vec::new();
    server_handle_inbound(bytes, &mut transactions, &buffer);
    assert_eq!(transactions.len(), 1);
    assert_eq!(transactions[0].starts, vec![111]);
    assert_eq!(transactions[0].ends, vec![139]);
}

#[test]
fn window_advance_resets_the_state() {
    let mut w = WindowState::new(0, 1);
    let mut p = [0u8; PACKET_SIZE];
    let n = chunk_data_packet(0, &[5; 10], &mut p);
    w.handle_packet(&p, n);
    let n = chunk_data_packet(1, &[6; 10], &mut p);
    w.handle_packet(&p, n);
    assert!(w.is_complete());

    w.reinit(2, 3);
    assert!(!w.is_complete());
    assert_eq!(w.pending_ranges_u64(), (vec![2], vec![3]));
    assert!(w.chunks().iter().all(|c| c.is_empty()));
    // a late packet from the finished window changes nothing
    let n = chunk_data_packet(0, &[5; 10], &mut p);
    w.handle_packet(&p, n);
    assert_eq!(w.pending_ranges_u64(), (vec![2], vec![3]));
}

use basic_udp::metadata_request_packet;
use basic_udp::range_chunk_request_packet;
use basic_udp::server_handle_inbound;
use basic_udp::ChunkTransaction;
use basic_udp::PACKET_SIZE;
use basic_udp::server::bytes_eq;
use basic_udp::server::chunk_file_offset;
use basic_udp::server::whitelist_contains;
use basic_udp::server::ServiceCursor;

#[test]
fn inbound_metadata_request_becomes_a_transaction() {
    let mut buffer = [0u8; PACKET_SIZE];
    let name = String::from("hello.txt");
    let bytes = metadata_request_packet(&name, &mut buffer);
    let mut transactions: Vec<ChunkTransaction> = Vec::new();
    server_handle_inbound(bytes, &mut transactions, &buffer);
    assert_eq!(transactions.len(), 1);
    assert_eq!(transactions[0].filename, b"hello.txt".to_vec());
    assert!(transactions[0].starts.is_empty());
    assert!(transactions[0].ends.is_empty());
}

#[test]
fn inbound_chunk_request_becomes_a_transaction() {
    let mut buffer = [0u8; PACKET_SIZE];
    let name = String::from("data.bin");
    let bytes = range_chunk_request_packet(&name, vec![1, 5], vec![2, 9], &mut buffer);
    let mut transactions: Vec<ChunkTransaction> = Vec::new();
    server_handle_inbound(bytes, &mut transactions, &buffer);
    assert_eq!(transactions.len(), 1);
    assert_eq!(transactions[0].filename, b"data.bin".to_vec());
    assert_eq!(transactions[0].starts, vec![1, 5]);
    assert_eq!(transactions[0].ends, vec![2, 9]);
}

#[test]
fn unknown_kind_is_dropped() {
    let mut buffer = [0u8; PACKET_SIZE];
    buffer[7] = 7;  // kind 7: not implemented
    buffer[8] = 1;
    buffer[9] = b'x';
    let mut transactions: Vec<ChunkTransaction> = Vec::new();
    server_handle_inbound(10, &mut transactions, &buffer);
    assert!(transactions.is_empty());
}

#[test]
fn truncated_requests_are_dropped() {
    let mut transactions: Vec<ChunkTransaction> = Vec::new();
    let buffer = [0u8; PACKET_SIZE];

    // shorter than the kind field
    server_handle_inbound(7, &mut transactions, &buffer);
    assert!(transactions.is_empty());

    // kind 0 with no name-length byte at all
    server_handle_inbound(8, &mut transactions, &buffer);
    assert!(transactions.is_empty());

    // name length larger than what was received
    let mut short = [0u8; PACKET_SIZE];
    short[8] = 5;
    short[9] = b'a';
    server_handle_inbound(10, &mut transactions, &short);
    assert!(transactions.is_empty());

    // a chunk request whose range count promises more pairs than sent
    let mut claim = [0u8; PACKET_SIZE];
    claim[7] = 1;  // kind 1
    claim[8] = 1;  // name length 1
    claim[9] = b'f';
    claim[17] = 3;  // range count 3, but no pair bytes follow
    server_handle_inbound(18, &mut transactions, &claim);
    assert!(transactions.is_empty());
}

#[test]
fn byte_string_equality() {
    assert!(bytes_eq(b"abc", b"abc"));
    assert!(!bytes_eq(b"abc", b"abd"));
    assert!(!bytes_eq(b"abc", b"ab"));
    assert!(bytes_eq(b"", b""));
}

#[test]
fn whitelist_gate() {
    let whitelist: Vec<Vec<u8>> = vec![b"a.txt".to_vec(), b"b.bin".to_vec()];
    assert!(whitelist_contains(&whitelist, b"a.txt"));
    assert!(whitelist_contains(&whitelist, b"b.bin"));
    assert!(!whitelist_contains(&whitelist, b"c.dat"));
    assert!(!whitelist_contains(&whitelist, b"a.tx"));
    let empty: Vec<Vec<u8>> = Vec::new();
    assert!(!whitelist_contains(&empty, b"a.txt"));
}

#[test]
fn file_offsets_scale_by_chunk_payload_size() {
    assert_eq!(chunk_file_offset(0), Some(0));
    assert_eq!(chunk_file_offset(1), Some(504));
    assert_eq!(chunk_file_offset(10), Some(5040));
    assert_eq!(chunk_file_offset(u64::MAX), None);
}

fn tx(starts: Vec<u64>, ends: Vec<u64>) -> ChunkTransaction {
    ChunkTransaction { filename: b"f".to_vec(), starts, ends }
}

#[test]
fn cursor_serves_ranges_in_order() {
    let t = tx(vec![0, 7], vec![2, 7]);
    let mut c = ServiceCursor::new(&t, 0);
    let mut served = Vec::new();
    while let Some(i) = c.current(&t) {
        served.push(i);
        c.advance(&t, false);
    }
    assert_eq!(served, vec![0, 1, 2, 7]);
}

#[test]
fn cursor_skips_rest_of_range_on_short_read() {
    let t = tx(vec![0, 10], vec![4, 11]);
    let mut c = ServiceCursor::new(&t, 0);
    assert_eq!(c.current(&t), Some(0));
    c.advance(&t, false);
    assert_eq!(c.current(&t), Some(1));
    // the read at index 1 hit the end of the file
    c.advance(&t, true);
    assert_eq!(c.current(&t), Some(10));
    c.advance(&t, false);
    assert_eq!(c.current(&t), Some(11));
    c.advance(&t, false);
    assert_eq!(c.current(&t), None);
}

#[test]
fn cursor_respects_the_packet_cap() {
    let t = tx(vec![0], vec![9]);
    let mut c = ServiceCursor::new(&t, 3);
    let mut served = Vec::new();
    while let Some(i) = c.current(&t) {
        served.push(i);
        c.advance(&t, false);
    }
    assert_eq!(served, vec![0, 1, 2]);
}

#[test]
fn cursor_skips_inverted_ranges() {
    let t = tx(vec![5, 1, 9], vec![3, 1, 8]);
    let mut c = ServiceCursor::new(&t, 0);
    let mut served = Vec::new();
    while let Some(i) = c.current(&t) {
        served.push(i);
        c.advance(&t, false);
    }
    assert_eq!(served, vec![1]);
}

#[test]
fn cursor_on_metadata_request_serves_nothing() {
    let t = tx(Vec::new(), Vec::new());
    let c = ServiceCursor::new(&t, 0);
    assert_eq!(c.current(&t), None);
}

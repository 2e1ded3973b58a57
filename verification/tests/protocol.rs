use remote_window::compression::CompressionKind;
use remote_window::connection::{
    check_frame_request, chunk_packet, frame_packets, is_frame_request, parse_frame_header,
    parse_frame_header_in, peer_label, begin_frame, packet_in_range, place_packet, tcp_chunk, tcp_frame_header, ChunkError, FrameHeader, HeaderError,
    RequestError, TransportMode, FRAME_HEADER_LEN, FRAME_MAGIC, FRAME_REQUEST, MAX_CHUNK_LEN,
    MAX_PACKET_SIZE,
};
use remote_window::bytes::{native_byte_order, ByteOrder};
use remote_window::connection_handler::{pixels_as_bytes, pixels_as_le_bytes, pixels_from_bytes, pixels_from_le_bytes};

fn header() -> FrameHeader {
    FrameHeader::for_frame(1920, 1080, 8_294_400, 123_456, CompressionKind::Lz4, 59)
}

#[test]
fn header_fields() {
    let h = header();
    assert_eq!(h.magic, FRAME_MAGIC);
    assert_eq!(h.width, 1920);
    assert_eq!(h.height, 1080);
    assert_eq!(h.pixel_count, 8_294_400);
    assert_eq!(h.payload_len, 123_456);
    assert_eq!(h.compression, 2);
    assert_eq!(h.server_fps, 59);
}

#[test]
fn header_bytes_layout() {
    let b = header().to_bytes();
    assert_eq!(b.len(), FRAME_HEADER_LEN);
    assert_eq!(&b[0..4], &[0x33, 0x34, 0x35, 0x36]);
    assert_eq!(&b[4..8], &1920u32.to_ne_bytes());
    assert_eq!(&b[8..12], &1080u32.to_ne_bytes());
    assert_eq!(&b[12..16], &8_294_400u32.to_ne_bytes());
    assert_eq!(&b[16..20], &123_456u32.to_ne_bytes());
    assert_eq!(&b[20..24], &2u32.to_ne_bytes());
    assert_eq!(&b[24..28], &59u32.to_ne_bytes());
}

#[test]
fn header_bytes_in_each_order() {
    let h = header();
    let le = h.to_bytes_in(ByteOrder::Little);
    assert_eq!(&le[4..8], &[0x80, 0x07, 0, 0]);
    assert_eq!(&le[24..28], &[59, 0, 0, 0]);
    let be = h.to_bytes_in(ByteOrder::Big);
    assert_eq!(&be[0..4], &[0x33, 0x34, 0x35, 0x36]);
    assert_eq!(&be[4..8], &[0, 0, 0x07, 0x80]);
    assert_eq!(&be[12..16], &[0x00, 0x7E, 0x90, 0x00]);
    assert_eq!(parse_frame_header_in(&be, ByteOrder::Big), Ok(h));
    assert_eq!(parse_frame_header_in(&le, ByteOrder::Little), Ok(h));
    let crossed = parse_frame_header_in(&be, ByteOrder::Little).unwrap();
    assert_eq!(crossed.width, 0x8007_0000);
}

#[test]
fn native_order_is_the_machines() {
    let little = u32::from_ne_bytes([1, 0, 0, 0]) == 1;
    assert_eq!(native_byte_order() == ByteOrder::Little, little);
    assert_eq!(header().to_bytes(), header().to_bytes_in(native_byte_order()));
}

#[test]
fn header_round_trip() {
    let h = header();
    assert_eq!(parse_frame_header(&h.to_bytes()), Ok(h));
    let mut longer = h.to_bytes();
    longer.extend_from_slice(&[9, 9, 9]);
    assert_eq!(parse_frame_header(&longer), Ok(h));
}

#[test]
fn header_errors() {
    let b = header().to_bytes();
    assert_eq!(parse_frame_header(&b[..27]), Err(HeaderError::Short { got: 27 }));
    assert_eq!(parse_frame_header(&[]), Err(HeaderError::Short { got: 0 }));
    let mut bad = b.clone();
    bad[2] = 0;
    assert_eq!(parse_frame_header(&bad), Err(HeaderError::BadMagic));
}

#[test]
fn tcp_header_has_no_frame_rate() {
    let b = tcp_frame_header(640, 480, 307_200, 1000, CompressionKind::Zstd);
    assert_eq!(b.len(), 24);
    assert_eq!(&b[0..4], &FRAME_MAGIC);
    assert_eq!(&b[4..8], &640u32.to_le_bytes());
    assert_eq!(&b[20..24], &1u32.to_le_bytes());
    assert_eq!(&b[..24], &header_with(640, 480, 307_200, 1000, 1).to_bytes_in(ByteOrder::Little)[..24]);
}

fn header_with(w: u32, h: u32, pc: u32, pl: u32, c: u32) -> FrameHeader {
    FrameHeader { magic: FRAME_MAGIC, width: w, height: h, pixel_count: pc, payload_len: pl, compression: c, server_fps: 0 }
}

#[test]
fn frame_requests() {
    assert_eq!(check_frame_request(FRAME_REQUEST), Ok(()));
    assert_eq!(check_frame_request(0x12), Err(RequestError::InvalidMarker { got: 0x12 }));
    assert!(is_frame_request(&[0x88]));
    assert!(!is_frame_request(&[0x88, 0x88]));
    assert!(!is_frame_request(&[]));
    assert!(!is_frame_request(&[0x87]));
}

#[test]
fn tcp_chunks_are_length_prefixed() {
    let chunk = vec![5u8; 300];
    let framed = tcp_chunk(&chunk).unwrap();
    assert_eq!(framed.len(), 302);
    assert_eq!(&framed[..2], &300u16.to_le_bytes());
    assert_eq!(&framed[2..], &chunk[..]);
    let big = vec![0u8; MAX_CHUNK_LEN + 1];
    assert_eq!(tcp_chunk(&big), Err(ChunkError::TooLarge { len: MAX_CHUNK_LEN + 1 }));
    assert_eq!(tcp_chunk(&big[..MAX_CHUNK_LEN]).unwrap().len(), MAX_CHUNK_LEN + 2);
}

#[test]
fn packets_carry_index_and_piece() {
    let data: Vec<u8> = (0..3000u32).map(|i| (i % 251) as u8).collect();
    let packets = frame_packets(&data);
    assert_eq!(packets.len(), 3);
    assert_eq!(packets[0].len(), 4 + MAX_PACKET_SIZE);
    assert_eq!(packets[2].len(), 4 + 200);
    assert_eq!(&packets[1][..4], &1u32.to_le_bytes());
    assert_eq!(&packets[1][4..], &data[1400..2800]);
    assert_eq!(chunk_packet(7, &[1, 2]), vec![7, 0, 0, 0, 1, 2]);
    assert!(frame_packets(&[]).is_empty());
    assert_eq!(frame_packets(&data[..1400]).len(), 1);
}

#[test]
fn packets_reassemble_in_any_order() {
    let data: Vec<u8> = (0..5000u32).map(|i| (i * 7 % 256) as u8).collect();
    let packets = frame_packets(&data);
    let mut frame = vec![0u8; data.len()];
    let mut received = 0;
    for p in packets.iter().rev() {
        received += place_packet(&mut frame, p);
    }
    assert_eq!(received, data.len());
    assert_eq!(frame, data);
}

#[test]
fn packets_that_do_not_fit_are_dropped() {
    let mut frame = vec![0u8; 10];
    assert_eq!(place_packet(&mut frame, &[0, 0, 0, 0]), 0);
    assert_eq!(place_packet(&mut frame, &[1, 0, 0, 0, 9]), 0);
    assert_eq!(place_packet(&mut frame, &[0, 0, 0, 0, 1, 2, 3, 4, 5, 6, 7, 8, 9, 10, 11]), 0);
    assert_eq!(frame, vec![0u8; 10]);
    assert_eq!(place_packet(&mut frame, &[0, 0, 0, 0, 4, 5]), 2);
    assert_eq!(frame, vec![4, 5, 0, 0, 0, 0, 0, 0, 0, 0]);
}

#[test]
fn transport_settings() {
    assert_eq!(TransportMode::from_str(" UDP "), Some(TransportMode::Udp));
    assert_eq!(TransportMode::from_str("tcp"), Some(TransportMode::Tcp));
    assert_eq!(TransportMode::from_str("Both"), Some(TransportMode::Both));
    assert_eq!(TransportMode::from_str("quic"), None);
    assert_eq!(TransportMode::from_env(None), TransportMode::Udp);
    assert_eq!(TransportMode::from_env(Some("quic")), TransportMode::Tcp);
    assert_eq!(TransportMode::from_env(Some("both")), TransportMode::Both);
}

#[test]
fn peer_labels() {
    assert_eq!(peer_label(Some("10.0.0.2:9000")), "10.0.0.2:9000");
    assert_eq!(peer_label(None), "unknown-peer");
}

#[test]
fn pixel_bytes_round_trip() {
    let pixels = vec![0x00112233u32, 0xFFEEDDCC, 0, 1];
    let bytes = pixels_as_le_bytes(&pixels);
    assert_eq!(bytes, vec![0x33, 0x22, 0x11, 0x00, 0xCC, 0xDD, 0xEE, 0xFF, 0, 0, 0, 0, 1, 0, 0, 0]);
    assert_eq!(pixels_from_le_bytes(&bytes), pixels);
    assert_eq!(pixels_from_le_bytes(&[1, 0, 0, 0, 7]), vec![1]);
}

#[test]
fn packet_offsets_in_range() {
    assert!(packet_in_range(&[1, 2, 3]));
    assert!(packet_in_range(&[5, 0, 0, 0, 9, 9]));
    assert!(packet_in_range(&[0xFF, 0xFF, 0xFF, 0xFF, 9]) == (usize::MAX / 1400 >= 0xFFFF_FFFF));
}

#[test]
fn frame_buffer_follows_payload_length() {
    let mut frame = vec![7u8, 7, 7];
    assert!(!begin_frame(&mut frame, 3));
    assert_eq!(frame, vec![7, 7, 7]);
    assert!(begin_frame(&mut frame, 5));
    assert_eq!(frame, vec![7, 7, 7, 0, 0]);
    assert!(begin_frame(&mut frame, 2));
    assert_eq!(frame, vec![7, 7]);
}

#[test]
fn pixel_bytes_in_each_order() {
    let pixels = vec![0x0102_0304u32, 0xA0B0_C0D0];
    let be = pixels_as_bytes(&pixels, ByteOrder::Big);
    assert_eq!(be, vec![1, 2, 3, 4, 0xA0, 0xB0, 0xC0, 0xD0]);
    assert_eq!(pixels_from_bytes(&be, ByteOrder::Big), pixels);
    let le = pixels_as_bytes(&pixels, ByteOrder::Little);
    assert_eq!(le, pixels_as_le_bytes(&pixels));
    let native = pixels_as_bytes(&pixels, native_byte_order());
    assert_eq!(&native[0..4], &pixels[0].to_ne_bytes());
}

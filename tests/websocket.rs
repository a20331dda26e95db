use simple_web_server::frame::{apply_mask, frame_header, read_payload_length};
use simple_web_server::request::Request;
use simple_web_server::server::{head_step, parse_head, wants_websocket, HeadStep, ReadEvent};
use simple_web_server::websocket::{key_to_accept, FrameEvent, WebSocketParser};

const UPGRADE: &str = "GET /chat HTTP/1.1\r\nHost: x\r\nUpgrade: websocket\r\nConnection: Upgrade\r\nSec-WebSocket-Key: dGhlIHNhbXBsZSBub25jZQ==\r\n\r\n";

#[test]
fn accept_key_of_rfc_sample() {
    assert_eq!(key_to_accept(UPGRADE), "s3pPLMBiTxaQ9kYGzzhZRbK+xOo=");
}

#[test]
fn missing_key_gives_empty_accept() {
    assert_eq!(key_to_accept("GET / HTTP/1.1\r\n\r\n"), "");
}

#[test]
fn handshake_writes_switching_protocols() {
    let req = Request::new(UPGRADE).unwrap();
    assert!(wants_websocket(&req));
    let mut ws = WebSocketParser::new(req);
    ws.do_handshake(UPGRADE);
    ws.do_handshake(UPGRADE);
    let out = String::from_utf8(ws.take_output()).unwrap();
    assert_eq!(
        out,
        "HTTP/1.1 101 Switching Protocols\r\nConnection: Upgrade\r\nUpgrade: websocket\r\nSec-WebSocket-Accept: s3pPLMBiTxaQ9kYGzzhZRbK+xOo=\r\n\r\n"
    );
    assert_eq!(ws.path, "/chat");
}

#[test]
fn handshake_without_key_closes() {
    let head = "GET / HTTP/1.1\r\nUpgrade: websocket\r\n\r\n";
    let mut ws = WebSocketParser::new(Request::new(head).unwrap());
    ws.do_handshake(head);
    assert!(!ws.connected());
    assert!(ws.take_output().is_empty());
}

#[test]
fn echoes_masked_text_frame() {
    let mask = [0x37u8, 0xfa, 0x21, 0x3d];
    let masked = apply_mask(b"hello", &mask, 0);
    let mut ws = WebSocketParser::new(Request::new(UPGRADE).unwrap());
    assert_eq!(ws.receive_header(0x81, 0x85, &[], Some(mask)), FrameEvent::Ready);
    assert!(ws.is_string);
    assert_eq!(ws.data_left(), 5);
    let n = ws.read_len(0);
    let text = ws.decode_payload(&masked[..n as usize]);
    assert_eq!(text, b"hello".to_vec());
    assert_eq!(ws.data_left(), 0);
    ws.write_string(std::str::from_utf8(&text).unwrap());
    assert_eq!(ws.take_output(), vec![0x81, 0x05, b'h', b'e', b'l', b'l', b'o']);
}

#[test]
fn ping_is_answered_with_pong() {
    let mut ws = WebSocketParser::new(Request::new(UPGRADE).unwrap());
    assert_eq!(ws.receive_header(0x89, 0x80, &[], Some([1, 2, 3, 4])), FrameEvent::Again);
    assert_eq!(ws.take_output(), vec![0x8a, 0x00]);
    assert_eq!(ws.receive_header(0x89, 0x82, &[], Some([1, 2, 3, 4])), FrameEvent::Discard);
    assert_eq!(ws.data_left(), 2);
}

#[test]
fn close_frame_ends_connection() {
    let mut ws = WebSocketParser::new(Request::new(UPGRADE).unwrap());
    assert_eq!(ws.receive_header(0x88, 0x80, &[], Some([0; 4])), FrameEvent::Close);
    assert!(!ws.connected());
    assert_eq!(ws.data_left(), 0);
}

#[test]
fn continuation_keeps_message_kind() {
    let mut ws = WebSocketParser::new(Request::new(UPGRADE).unwrap());
    assert_eq!(ws.receive_header(0x02, 0x83, &[], Some([0; 4])), FrameEvent::Ready);
    assert!(!ws.is_string && !ws.is_continuation);
    ws.decode_payload(&[1, 2, 3]);
    assert_eq!(ws.receive_header(0x80, 0x81, &[], Some([0; 4])), FrameEvent::Ready);
    assert!(ws.is_continuation);
    assert_eq!(ws.receive_header(0x81, 0x80, &[], Some([0; 4])), FrameEvent::Again);
}

#[test]
fn frame_header_length_forms() {
    assert_eq!(frame_header(125, 1), vec![0x81, 125]);
    assert_eq!(frame_header(126, 2), vec![0x82, 126, 0, 126]);
    assert_eq!(frame_header(65535, 2), vec![0x82, 126, 0xff, 0xff]);
    assert_eq!(frame_header(65536, 2), vec![0x82, 127, 0, 0, 0, 0, 0, 1, 0, 0]);
}

#[test]
fn extended_lengths_read_big_endian() {
    assert_eq!(read_payload_length(0xfe, &[0x01, 0x00]), 256);
    assert_eq!(read_payload_length(0x7f, &[0, 0, 0, 0, 0, 1, 0, 0]), 65536);
    assert_eq!(read_payload_length(0x85, &[]), 5);
}

#[test]
fn unmasking_follows_position() {
    let mask = [1u8, 2, 3, 4];
    assert_eq!(apply_mask(&[0, 0, 0], &mask, 2), vec![3, 4, 1]);
    assert_eq!(apply_mask(&apply_mask(b"abcdef", &mask, 1), &mask, 1), b"abcdef".to_vec());
}

fn feed(head: &mut Vec<u8>, bytes: &[u8]) -> Vec<HeadStep> {
    bytes.iter().map(|b| head_step(head, ReadEvent::Byte(*b))).collect()
}

#[test]
fn keep_alive_reads_requests_in_order() {
    let wire = b"GET /one HTTP/1.1\r\n\r\nGET /two HTTP/1.1\r\n\r\n";
    let mut paths = Vec::new();
    let mut head = Vec::new();
    for b in wire.iter() {
        if head_step(&mut head, ReadEvent::Byte(*b)) == HeadStep::Dispatch {
            let (req, _) = parse_head(&head).unwrap();
            paths.push(req.path.clone());
            head.clear();
        }
    }
    assert_eq!(paths, vec!["/one".to_string(), "/two".to_string()]);
}

#[test]
fn silent_peer_is_not_dispatched() {
    let mut head = Vec::new();
    assert_eq!(head_step(&mut head, ReadEvent::Eof), HeadStep::Close);
    assert_eq!(head_step(&mut head, ReadEvent::WouldBlock { stopped: true }), HeadStep::Close);
    assert_eq!(head_step(&mut head, ReadEvent::WouldBlock { stopped: false }), HeadStep::Wait);
    assert!(head.is_empty());
}

#[test]
fn non_ascii_head_byte_closes() {
    let mut head = Vec::new();
    let steps = feed(&mut head, b"GE");
    assert_eq!(steps, vec![HeadStep::More, HeadStep::More]);
    assert_eq!(head_step(&mut head, ReadEvent::Byte(0xC3)), HeadStep::Close);
    assert_eq!(head_step(&mut head, ReadEvent::Failed), HeadStep::Close);
}

#[test]
fn stop_before_complete_head_closes() {
    let mut head = Vec::new();
    feed(&mut head, b"GET / HTTP/1.1\r\n");
    assert_eq!(head_step(&mut head, ReadEvent::WouldBlock { stopped: true }), HeadStep::Close);
}

#[test]
fn text_continuation_stays_text() {
    let mut ws = WebSocketParser::new(Request::new(UPGRADE).unwrap());
    assert_eq!(ws.receive_header(0x01, 0x82, &[], Some([0; 4])), FrameEvent::Ready);
    assert!(ws.is_string);
    ws.decode_payload(&[b'h', b'e']);
    assert_eq!(ws.receive_header(0x80, 0x83, &[], Some([0; 4])), FrameEvent::Ready);
    assert!(ws.is_continuation && ws.is_string);
    assert_eq!(ws.data_left(), 3);
}

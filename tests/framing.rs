use lsp_inspector::frame::{scan_frame, FrameError, FramePump};
use lsp_inspector::lsp::{message_of, Direction, LspMessage};
use lsp_inspector::classify::{classify, Classification};

fn frame_bytes(body: &str) -> Vec<u8> {
    format!("Content-Length: {}\r\n\r\n{}", body.len(), body).into_bytes()
}

#[test]
fn scan_whole_frame() {
    let input = b"Content-Length: 15\r\n\r\n{\"method\":\"hi\"}".to_vec();
    let frame = scan_frame(&input).unwrap().unwrap();
    assert_eq!(frame.raw, input);
    assert_eq!(frame.body, b"{\"method\":\"hi\"}".to_vec());
}

#[test]
fn scan_plain_line_feed_terminator() {
    let input = b"Content-Length: 2\n\n{}rest".to_vec();
    let frame = scan_frame(&input).unwrap().unwrap();
    assert_eq!(frame.raw, b"Content-Length: 2\n\n{}".to_vec());
    assert_eq!(frame.body, b"{}".to_vec());
}

#[test]
fn scan_needs_more() {
    assert!(scan_frame(b"").unwrap().is_none());
    assert!(scan_frame(b"Content-Len").unwrap().is_none());
    assert!(scan_frame(b"Content-Length: 5\r\n").unwrap().is_none());
    assert!(scan_frame(b"Content-Length: 5\r\n\r\nabc").unwrap().is_none());
}

#[test]
fn scan_bad_headers() {
    assert_eq!(scan_frame(b"Content-Type: 5\r\n\r\nhello").err(), Some(FrameError::BadHeader));
    assert_eq!(scan_frame(b"Content-Length: x5\r\n\r\nhello").err(), Some(FrameError::BadHeader));
    assert_eq!(scan_frame(b"Content-Length: \r\n\r\n").err(), Some(FrameError::BadHeader));
    assert_eq!(scan_frame(b"\r\n").err(), Some(FrameError::BadHeader));
    assert_eq!(
        scan_frame(b"Content-Length: 99999999999999999999999\r\n\r\n").err(),
        Some(FrameError::BadHeader)
    );
}

#[test]
fn empty_body_frame() {
    let input = b"Content-Length: 0\r\n\r\n".to_vec();
    let frame = scan_frame(&input).unwrap().unwrap();
    assert_eq!(frame.raw, input);
    assert!(frame.body.is_empty());
}

#[test]
fn pump_passes_bytes_through_in_order() {
    let bodies = ["{\"id\":1,\"method\":\"a\"}", "{\"id\":2}", "{\"method\":\"b\"}"];
    let mut input = Vec::new();
    for b in bodies.iter() {
        input.extend_from_slice(&frame_bytes(b));
    }
    // Feed one byte at a time: frames come out whole, in order.
    let mut pump = FramePump::new();
    let mut forwarded = Vec::new();
    let mut seen = Vec::new();
    for byte in input.iter() {
        let out = pump.feed(&[*byte]);
        assert!(out.error.is_none());
        for f in out.frames {
            forwarded.extend_from_slice(&f.raw);
            seen.push(String::from_utf8(f.body).unwrap());
        }
    }
    assert_eq!(forwarded, input);
    assert_eq!(seen, bodies.iter().map(|b| b.to_string()).collect::<Vec<_>>());
    assert_eq!(pump.finish(), None);
}

#[test]
fn pump_many_frames_in_one_chunk() {
    let mut input = frame_bytes("{\"id\":1}");
    input.extend_from_slice(&frame_bytes("{\"id\":2}"));
    input.extend_from_slice(b"Content-Length: 4\r\n");
    let mut pump = FramePump::new();
    let out = pump.feed(&input);
    assert_eq!(out.frames.len(), 2);
    assert!(out.error.is_none());
    assert_eq!(pump.finish(), Some(FrameError::Truncated));
    let out = pump.feed(b"\r\nnull");
    assert_eq!(out.frames.len(), 1);
    assert_eq!(out.frames[0].body, b"null".to_vec());
    assert_eq!(pump.finish(), None);
}

#[test]
fn pump_truncated_frame_forwards_nothing() {
    let mut input = b"Content-Length: 50\r\n\r\n".to_vec();
    input.extend_from_slice(b"0123456789");
    let mut pump = FramePump::new();
    let out = pump.feed(&input);
    assert!(out.frames.is_empty());
    assert!(out.error.is_none());
    assert_eq!(pump.finish(), Some(FrameError::Truncated));
}

#[test]
fn pump_stops_on_bad_header_after_good_frame() {
    let mut input = frame_bytes("{}");
    input.extend_from_slice(b"Bogus: 1\r\n\r\nx");
    let mut pump = FramePump::new();
    let out = pump.feed(&input);
    assert_eq!(out.frames.len(), 1);
    assert_eq!(out.frames[0].raw, frame_bytes("{}"));
    assert_eq!(out.error, Some(FrameError::BadHeader));
}

#[test]
fn message_of_invalid_utf8() {
    let input = b"Content-Length: 2\r\n\r\n\xff\xfe".to_vec();
    let frame = scan_frame(&input).unwrap().unwrap();
    assert_eq!(frame.raw, input);
    assert_eq!(message_of(&frame, Direction::ClientToServer).err(), Some(FrameError::InvalidEncoding));
}

#[test]
fn message_of_tags_direction() {
    let frame = scan_frame(&frame_bytes("{\"id\":7}")).unwrap().unwrap();
    let m = message_of(&frame, Direction::ServerToClient).unwrap();
    assert_eq!(m, LspMessage::Server("{\"id\":7}".to_string()));
    assert_eq!(m.direction(), Direction::ServerToClient);
    assert_eq!(m.text(), "{\"id\":7}");
    let m = message_of(&frame, Direction::ClientToServer).unwrap();
    assert_eq!(m, LspMessage::Client("{\"id\":7}".to_string()));
}

#[test]
fn end_to_end_notification() {
    let input = b"Content-Length: 15\r\n\r\n{\"method\":\"hi\"}".to_vec();
    let mut pump = FramePump::new();
    let out = pump.feed(&input);
    assert!(out.error.is_none());
    assert_eq!(out.frames.len(), 1);
    let mut destination = Vec::new();
    destination.extend_from_slice(&out.frames[0].raw);
    assert_eq!(destination, input);
    let m = message_of(&out.frames[0], Direction::ClientToServer).unwrap();
    assert_eq!(m, LspMessage::Client("{\"method\":\"hi\"}".to_string()));
    assert_eq!(classify(m.text()), Classification::Notification { method: "hi".to_string() });
    assert_eq!(pump.finish(), None);
}

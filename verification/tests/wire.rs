//! Frames, pages and connections.

use goz::daemon::connection::{admits, must_stop, Arrival, ConnStep, Connection, MAX_CONNECTIONS};
use goz::proto::frame::frame;
use goz::proto::page::decode_page;
use goz::proto::{push_item, push_results_header, FrameDecoder, FrameError, MAX_CLIENT_FRAME};

#[test]
fn a_frame_is_its_length_and_its_bytes() {
    assert_eq!(frame(b"hello"), b"\x05\0\0\0hello");
    assert_eq!(frame(b""), b"\0\0\0\0");
}

#[test]
fn frames_come_out_however_the_bytes_arrive() {
    let mut bytes = frame(b"first");
    bytes.extend_from_slice(&frame(b"second"));
    for chunk in [1, 3, 7, 100] {
        let mut decoder = FrameDecoder::new(16);
        let mut out = Vec::new();
        for part in bytes.chunks(chunk) {
            decoder.feed(part);
            while let Some(f) = decoder.next_frame().unwrap() {
                out.push(f);
            }
        }
        assert_eq!(out, [b"first".to_vec(), b"second".to_vec()]);
    }
}

#[test]
fn a_frame_that_is_too_long_is_refused() {
    let mut decoder = FrameDecoder::new(4);
    decoder.feed(&frame(b"12345"));
    assert_eq!(
        decoder.next_frame(),
        Err(FrameError::TooLong { len: 5, max: 4 })
    );
}

#[test]
fn a_page_comes_back_as_it_was_sent() {
    let mut page = Vec::new();
    push_results_header(&mut page, 3, 9, true, false, true, 2);
    push_item(&mut page, br"C:\a.txt", false, Some(7), Some(-5));
    push_item(&mut page, br"C:\b", true, None, None);
    let got = decode_page(&page).unwrap();
    assert_eq!(got.total, 3);
    assert_eq!(got.generation, 9);
    assert!(got.more && !got.volumes_incomplete && got.metadata_pending);
    assert_eq!(got.items.len(), 2);
    assert_eq!(got.items[0].path, br"C:\a.txt");
    assert_eq!(got.items[0].size, Some(7));
    assert_eq!(got.items[0].mtime_ft, Some(-5));
    assert!(!got.items[0].is_dir);
    assert!(got.items[1].is_dir);
    assert_eq!(got.items[1].size, None);
    assert_eq!(got.items[1].mtime_ft, None);
}

#[test]
fn bytes_that_are_no_page_are_refused() {
    let mut page = Vec::new();
    push_results_header(&mut page, 1, 0, false, false, false, 1);
    push_item(&mut page, b"x", false, None, None);
    for cut in 0..page.len() {
        assert!(decode_page(&page[..cut]).is_none(), "cut at {cut}");
    }
    page.push(0);
    assert!(decode_page(&page).is_none(), "bytes are left over");
}

#[test]
fn a_connection_hands_out_requests_one_by_one() {
    let mut conn = Connection::new();
    let mut bytes = frame(b"one");
    bytes.extend_from_slice(&frame(b"two"));
    bytes.extend_from_slice(b"\x09\0");
    assert!(conn.on_arrival(Arrival::Bytes(bytes.len()), &bytes));
    for want in [b"one", b"two"] {
        match conn.next_step() {
            ConnStep::Request(r) => assert_eq!(r, want),
            _ => panic!("a request is there"),
        }
    }
    assert!(matches!(conn.next_step(), ConnStep::Wait));
}

#[test]
fn only_what_arrived_of_the_buffer_counts() {
    let mut conn = Connection::new();
    let bytes = frame(b"one");
    assert!(conn.on_arrival(Arrival::Bytes(4), &bytes));
    assert!(matches!(conn.next_step(), ConnStep::Wait));
}

#[test]
fn silent_and_closed_clients_are_let_go() {
    let mut conn = Connection::new();
    assert!(!conn.on_arrival(Arrival::Timeout, &[]));
    assert!(!conn.on_arrival(Arrival::Bytes(0), &[]));
}

#[test]
fn a_client_that_sends_no_frames_is_refused() {
    let mut conn = Connection::new();
    let bytes = (MAX_CLIENT_FRAME + 1).to_le_bytes();
    assert!(conn.on_arrival(Arrival::Bytes(4), &bytes));
    match conn.next_step() {
        ConnStep::Fail(e) => assert_eq!(
            e,
            FrameError::TooLong {
                len: MAX_CLIENT_FRAME + 1,
                max: MAX_CLIENT_FRAME
            }
        ),
        _ => panic!("must fail"),
    }
}

#[test]
fn connections_are_limited_and_the_server_stops_when_told() {
    assert!(admits(0));
    assert!(admits(MAX_CONNECTIONS - 1));
    assert!(!admits(MAX_CONNECTIONS));
    assert!(must_stop(true, false));
    assert!(must_stop(false, true));
    assert!(!must_stop(false, false));
}

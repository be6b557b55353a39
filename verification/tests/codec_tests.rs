use stomp::codec::{decode_transmission, Codec, Scan};
use stomp::frame::{Command, Frame, Transmission};
use stomp::header::{Header, HeaderList};

fn decode_all(bytes: &[u8]) -> (Transmission, usize) {
    match decode_transmission(&bytes.to_vec()) {
        Scan::Found(t, n) => (t, n),
        Scan::More => panic!("expected a complete transmission, got need-more"),
        Scan::Bad => panic!("expected a complete transmission, got a parse error"),
    }
}

#[test]
fn echo_round_trip() {
    let f = Frame::send(b"/q".to_vec(), b"hello".to_vec());
    let encoded = f.write_bytes();
    assert_eq!(encoded, b"SEND\ndestination:/q\ncontent-length:5\n\nhello\x00".to_vec());
    let (t, n) = decode_all(&encoded);
    assert_eq!(n, encoded.len());
    assert_eq!(t, Transmission::CompleteFrame(f));
}

#[test]
fn heartbeat_only_input_consumes_all_bytes() {
    let (t, n) = decode_all(b"\n\n\n");
    assert_eq!(t, Transmission::HeartBeat);
    assert_eq!(n, 3);
}

#[test]
fn heartbeat_crlf_runs() {
    let (t, n) = decode_all(b"\r\n\n\r\n");
    assert_eq!(t, Transmission::HeartBeat);
    assert_eq!(n, 5);
}

#[test]
fn lone_carriage_return_needs_more() {
    assert!(matches!(decode_transmission(&b"\r".to_vec()), Scan::More));
}

#[test]
fn carriage_return_without_newline_is_an_error() {
    assert!(matches!(decode_transmission(&b"\rX".to_vec()), Scan::Bad));
}

#[test]
fn zero_content_length_empty_body() {
    let (t, n) = decode_all(b"MESSAGE\ncontent-length:0\n\n\x00");
    match t {
        Transmission::CompleteFrame(f) => {
            assert_eq!(f.command, Command::Message);
            assert!(f.body.is_empty());
        },
        _ => panic!("expected a frame"),
    }
    assert_eq!(n, b"MESSAGE\ncontent-length:0\n\n\x00".len());
}

#[test]
fn embedded_nuls_with_content_length_decode_losslessly() {
    let mut hl = HeaderList::new();
    hl.push(Header::new_raw(b"content-length".to_vec(), b"5".to_vec()));
    let f = Frame { command: Command::Message, headers: hl, body: b"a\x00b\x00c".to_vec() };
    let encoded = f.write_bytes();
    let (t, n) = decode_all(&encoded);
    assert_eq!(n, encoded.len());
    assert_eq!(t, Transmission::CompleteFrame(f));
}

#[test]
fn without_content_length_body_stops_at_first_nul() {
    // documented policy: no content-length means the body runs to the
    // first NUL; later bytes stay in the buffer
    let bytes = b"MESSAGE\n\na\x00rest";
    let (t, n) = decode_all(bytes);
    match t {
        Transmission::CompleteFrame(f) => assert_eq!(f.body, b"a".to_vec()),
        _ => panic!("expected a frame"),
    }
    assert_eq!(n, bytes.len() - 4);
}

#[test]
fn malformed_content_length_falls_back_to_nul_scan() {
    let bytes = b"MESSAGE\ncontent-length:many\n\nabc\x00";
    let (t, n) = decode_all(bytes);
    match t {
        Transmission::CompleteFrame(f) => assert_eq!(f.body, b"abc".to_vec()),
        _ => panic!("expected a frame"),
    }
    assert_eq!(n, bytes.len());
}

#[test]
fn unknown_command_is_an_error() {
    assert!(matches!(decode_transmission(&b"NONSENSE\n\n\x00".to_vec()), Scan::Bad));
}

#[test]
fn partial_input_at_every_byte_boundary_needs_more() {
    let f = Frame::send(b"/queue/a".to_vec(), b"payload".to_vec());
    let encoded = f.write_bytes();
    for cut in 0..encoded.len() {
        let prefix = encoded[..cut].to_vec();
        assert!(
            matches!(decode_transmission(&prefix), Scan::More),
            "prefix of length {} decoded",
            cut
        );
    }
}

#[test]
fn crlf_line_endings_accepted() {
    let bytes = b"RECEIPT\r\nreceipt-id:7\r\n\r\n\x00";
    let (t, n) = decode_all(bytes);
    match t {
        Transmission::CompleteFrame(f) => {
            assert_eq!(f.command, Command::Receipt);
            assert_eq!(f.headers.get_first(&b"receipt-id".to_vec()), Some(b"7".to_vec()));
        },
        _ => panic!("expected a frame"),
    }
    assert_eq!(n, bytes.len());
}

#[test]
fn writer_emits_exactly_one_nul_per_frame() {
    let f = Frame::send(b"/q".to_vec(), b"hello".to_vec());
    let encoded = f.write_bytes();
    assert_eq!(encoded.iter().filter(|b| **b == 0).count(), 1);
}

#[test]
fn codec_decode_consumes_exactly_one_transmission() {
    let mut codec = Codec;
    let mut buf = bytes::BytesMut::from(&b"\nMESSAGE\nsubscription:0\n\nhi\x00rest"[..]);
    let first = codec.decode(&mut buf).expect("heartbeat");
    assert_eq!(first, Some(Transmission::HeartBeat));
    let second = codec.decode(&mut buf).expect("frame");
    match second {
        Some(Transmission::CompleteFrame(f)) => {
            assert_eq!(f.command, Command::Message);
            assert_eq!(f.body, b"hi".to_vec());
        },
        _ => panic!("expected a frame"),
    }
    assert_eq!(&buf[..], b"rest");
}

#[test]
fn codec_decode_incomplete_leaves_buffer() {
    let mut codec = Codec;
    let mut buf = bytes::BytesMut::from(&b"MESSA"[..]);
    assert_eq!(codec.decode(&mut buf).expect("incomplete"), None);
    assert_eq!(&buf[..], b"MESSA");
}

#[test]
fn codec_decode_error_on_garbage() {
    let mut codec = Codec;
    let mut buf = bytes::BytesMut::from(&b"GARBAGE\n\n\x00"[..]);
    assert!(codec.decode(&mut buf).is_err());
}

#[test]
fn codec_encode_appends_serialization() {
    let mut codec = Codec;
    let mut buf = bytes::BytesMut::new();
    codec.encode(Transmission::HeartBeat, &mut buf);
    let f = Frame::send(b"/q".to_vec(), b"hi".to_vec());
    codec.encode(Transmission::CompleteFrame(f), &mut buf);
    assert_eq!(&buf[..], b"\nSEND\ndestination:/q\ncontent-length:2\n\nhi\x00");
}

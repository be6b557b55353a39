use stomp::codec::{decode_transmission, Scan};
use stomp::frame::{Command, Frame, Transmission};
use stomp::header::{
    escape_bytes, parse_heart_beat_bytes, parse_u32_bytes, u32_to_dec, unescape_bytes, Header,
    HeaderList,
};

#[test]
fn escaping_serializes_colon_and_newline() {
    let escaped = escape_bytes(&b"a:b\nc".to_vec());
    assert_eq!(escaped, b"a\\cb\\nc".to_vec());
    let back = unescape_bytes(&escaped);
    assert_eq!(back, b"a:b\nc".to_vec());
}

#[test]
fn escaping_round_trips_every_special() {
    let raw = b"\\line\r\nwith:all\\specials\\".to_vec();
    let escaped = escape_bytes(&raw);
    assert_eq!(unescape_bytes(&escaped), raw);
}

#[test]
fn escaped_header_value_round_trips_through_a_frame() {
    let mut hl = HeaderList::new();
    hl.push(Header::new_raw(b"subject".to_vec(), b"a:b\nc".to_vec()));
    let f = Frame { command: Command::Message, headers: hl, body: Vec::new() };
    let encoded = f.write_bytes();
    assert_eq!(encoded, b"MESSAGE\nsubject:a\\cb\\nc\n\n\x00".to_vec());
    match decode_transmission(&encoded) {
        Scan::Found(Transmission::CompleteFrame(g), n) => {
            assert_eq!(n, encoded.len());
            assert_eq!(g, f);
        },
        _ => panic!("expected a frame"),
    }
}

#[test]
fn decimal_parse_and_format() {
    assert_eq!(u32_to_dec(0), b"0".to_vec());
    assert_eq!(u32_to_dec(42), b"42".to_vec());
    assert_eq!(u32_to_dec(4294967295), b"4294967295".to_vec());
    assert_eq!(parse_u32_bytes(&b"0".to_vec()), Some(0));
    assert_eq!(parse_u32_bytes(&b"007".to_vec()), Some(7));
    assert_eq!(parse_u32_bytes(&b"4294967295".to_vec()), Some(4294967295));
    assert_eq!(parse_u32_bytes(&b"4294967296".to_vec()), None);
    assert_eq!(parse_u32_bytes(&b"".to_vec()), None);
    assert_eq!(parse_u32_bytes(&b"+5".to_vec()), None);
    assert_eq!(parse_u32_bytes(&b"12a".to_vec()), None);
}

#[test]
fn heart_beat_value_parses_two_numbers() {
    assert_eq!(parse_heart_beat_bytes(&b"1000,2000".to_vec()), Some((1000, 2000)));
    assert_eq!(parse_heart_beat_bytes(&b"0,0".to_vec()), Some((0, 0)));
    assert_eq!(parse_heart_beat_bytes(&b"1000".to_vec()), None);
    assert_eq!(parse_heart_beat_bytes(&b"a,b".to_vec()), None);
    assert_eq!(parse_heart_beat_bytes(&b"1000,2000,3000".to_vec()), None);
    assert_eq!(parse_heart_beat_bytes(&b",5".to_vec()), None);
    assert_eq!(parse_heart_beat_bytes(&b"5,".to_vec()), None);
}

#[test]
fn lookup_prefers_first_occurrence() {
    let mut hl = HeaderList::new();
    hl.push(Header::new_raw(b"k".to_vec(), b"first".to_vec()));
    hl.push(Header::new_raw(b"k".to_vec(), b"second".to_vec()));
    assert_eq!(hl.get_first(&b"k".to_vec()), Some(b"first".to_vec()));
    assert_eq!(hl.get_first(&b"missing".to_vec()), None);
}

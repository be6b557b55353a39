//! Streaming codec: byte-to-transmission decoder and transmission-to-byte
//! encoder, with the round-trip law `decode(encode(f)) == f` for well-formed
//! frames.
//!
//! The decoder is specified by total functions on the remaining input. Each
//! returns `More` when the input is an incomplete prefix, `Bad` when no
//! continuation can make it parse, and `Found(value, n)` when a value is
//! complete in the first `n` bytes.

use vstd::prelude::*;

use crate::frame::cmd_bytes;
use crate::frame::encode_frame;
use crate::frame::encode_header;
use crate::frame::encode_headers;
use crate::frame::encode_transmission;
use crate::frame::lemma_cmd_bytes_clean;
use crate::frame::lemma_token_clean_index;
use crate::frame::Command;
use crate::frame::Frame;
use crate::frame::Transmission;
use crate::frame::FrameView;
use crate::frame::TransmissionView;
use crate::header::escape;
use crate::header::Header;
use crate::header::HeaderList;
use crate::header::escape_byte;
use crate::header::first_match;
use crate::header::is_escape_code;
use crate::header::lemma_escape_clean;
use crate::header::parse_dec_u32;
use crate::header::unescape_code;
use crate::lit::lit_content_length;

verus! {

/// The outcome of a specification-level scan of the remaining input:
/// incomplete, unparseable, or a value complete in `n` bytes.
pub ghost enum SpecScan<T> {
    More,
    Bad,
    Found(T, int),
}

// ---------------------------------------------------------------------------
// The grammar, as total functions on the remaining input
// ---------------------------------------------------------------------------

/// Scans a header name: escaped text up to a colon, which is consumed.
/// A raw LF or CR before the colon is malformed.
pub open spec fn scan_name(s: Seq<u8>) -> SpecScan<Seq<u8>>
    decreases s.len(),
{
    if s.len() == 0 {
        SpecScan::More
    } else if s[0] == 58 {
        SpecScan::Found(Seq::empty(), 1)
    } else if s[0] == 10 || s[0] == 13 {
        SpecScan::Bad
    } else if s[0] == 92 {
        if s.len() == 1 {
            SpecScan::More
        } else if is_escape_code(s[1]) {
            match scan_name(s.skip(2)) {
                SpecScan::More => SpecScan::More,
                SpecScan::Bad => SpecScan::Bad,
                SpecScan::Found(t, n) => SpecScan::Found(seq![unescape_code(s[1])] + t, n + 2),
            }
        } else {
            match scan_name(s.skip(1)) {
                SpecScan::More => SpecScan::More,
                SpecScan::Bad => SpecScan::Bad,
                SpecScan::Found(t, n) => SpecScan::Found(seq![s[0]] + t, n + 1),
            }
        }
    } else {
        match scan_name(s.skip(1)) {
            SpecScan::More => SpecScan::More,
            SpecScan::Bad => SpecScan::Bad,
            SpecScan::Found(t, n) => SpecScan::Found(seq![s[0]] + t, n + 1),
        }
    }
}

/// Scans a header value: escaped text up to a line terminator, which is left
/// in place.
pub open spec fn scan_value(s: Seq<u8>) -> SpecScan<Seq<u8>>
    decreases s.len(),
{
    if s.len() == 0 {
        SpecScan::More
    } else if s[0] == 10 || s[0] == 13 {
        SpecScan::Found(Seq::empty(), 0)
    } else if s[0] == 92 {
        if s.len() == 1 {
            SpecScan::More
        } else if is_escape_code(s[1]) {
            match scan_value(s.skip(2)) {
                SpecScan::More => SpecScan::More,
                SpecScan::Bad => SpecScan::Bad,
                SpecScan::Found(t, n) => SpecScan::Found(seq![unescape_code(s[1])] + t, n + 2),
            }
        } else {
            match scan_value(s.skip(1)) {
                SpecScan::More => SpecScan::More,
                SpecScan::Bad => SpecScan::Bad,
                SpecScan::Found(t, n) => SpecScan::Found(seq![s[0]] + t, n + 1),
            }
        }
    } else {
        match scan_value(s.skip(1)) {
            SpecScan::More => SpecScan::More,
            SpecScan::Bad => SpecScan::Bad,
            SpecScan::Found(t, n) => SpecScan::Found(seq![s[0]] + t, n + 1),
        }
    }
}

/// Consumes one line terminator: LF, or CR LF.
pub open spec fn spec_parse_line_ending(s: Seq<u8>) -> SpecScan<()> {
    if s.len() == 0 {
        SpecScan::More
    } else if s[0] == 10 {
        SpecScan::Found((), 1)
    } else if s[0] == 13 {
        if s.len() == 1 {
            SpecScan::More
        } else if s[1] == 10 {
            SpecScan::Found((), 2)
        } else {
            SpecScan::Bad
        }
    } else {
        SpecScan::Bad
    }
}

/// Scans the command line: raw bytes up to a line terminator, left in place.
pub open spec fn scan_cmd_line(s: Seq<u8>) -> SpecScan<Seq<u8>>
    decreases s.len(),
{
    if s.len() == 0 {
        SpecScan::More
    } else if s[0] == 10 || s[0] == 13 {
        SpecScan::Found(Seq::empty(), 0)
    } else {
        match scan_cmd_line(s.skip(1)) {
            SpecScan::More => SpecScan::More,
            SpecScan::Bad => SpecScan::Bad,
            SpecScan::Found(t, n) => SpecScan::Found(seq![s[0]] + t, n + 1),
        }
    }
}

/// Which command a complete command line names, if any.
pub open spec fn token_to_command(line: Seq<u8>) -> Option<Command> {
    if line == cmd_bytes(Command::Connected) {
        Some(Command::Connected)
    } else if line == cmd_bytes(Command::Connect) {
        Some(Command::Connect)
    } else if line == cmd_bytes(Command::Send) {
        Some(Command::Send)
    } else if line == cmd_bytes(Command::Subscribe) {
        Some(Command::Subscribe)
    } else if line == cmd_bytes(Command::Unsubscribe) {
        Some(Command::Unsubscribe)
    } else if line == cmd_bytes(Command::Ack) {
        Some(Command::Ack)
    } else if line == cmd_bytes(Command::Nack) {
        Some(Command::Nack)
    } else if line == cmd_bytes(Command::Begin) {
        Some(Command::Begin)
    } else if line == cmd_bytes(Command::Commit) {
        Some(Command::Commit)
    } else if line == cmd_bytes(Command::Abort) {
        Some(Command::Abort)
    } else if line == cmd_bytes(Command::Disconnect) {
        Some(Command::Disconnect)
    } else if line == cmd_bytes(Command::Message) {
        Some(Command::Message)
    } else if line == cmd_bytes(Command::Receipt) {
        Some(Command::Receipt)
    } else if line == cmd_bytes(Command::Error) {
        Some(Command::Error)
    } else {
        None
    }
}

/// Parses the command and its line terminator. An unrecognized complete
/// command line is malformed.
pub open spec fn spec_parse_command(s: Seq<u8>) -> SpecScan<Command> {
    match scan_cmd_line(s) {
        SpecScan::More => SpecScan::More,
        SpecScan::Bad => SpecScan::Bad,
        SpecScan::Found(line, n) => match token_to_command(line) {
            None => SpecScan::Bad,
            Some(c) => match spec_parse_line_ending(s.skip(n)) {
                SpecScan::More => SpecScan::More,
                SpecScan::Bad => SpecScan::Bad,
                SpecScan::Found(_, k) => SpecScan::Found(c, n + k),
            },
        },
    }
}

/// Parses one header line: name, colon, value, line terminator.
pub open spec fn spec_parse_header(s: Seq<u8>) -> SpecScan<(Seq<u8>, Seq<u8>)> {
    match scan_name(s) {
        SpecScan::More => SpecScan::More,
        SpecScan::Bad => SpecScan::Bad,
        SpecScan::Found(name, n) => match scan_value(s.skip(n)) {
            SpecScan::More => SpecScan::More,
            SpecScan::Bad => SpecScan::Bad,
            SpecScan::Found(value, m) => match spec_parse_line_ending(s.skip(n + m)) {
                SpecScan::More => SpecScan::More,
                SpecScan::Bad => SpecScan::Bad,
                SpecScan::Found(_, k) => SpecScan::Found((name, value), n + m + k),
            },
        },
    }
}

/// Parses the header block and the blank line that ends it.
pub open spec fn spec_parse_headers(s: Seq<u8>) -> SpecScan<Seq<(Seq<u8>, Seq<u8>)>>
    decreases s.len(),
{
    if s.len() == 0 {
        SpecScan::More
    } else if s[0] == 10 {
        SpecScan::Found(Seq::empty(), 1)
    } else if s[0] == 13 {
        if s.len() == 1 {
            SpecScan::More
        } else if s[1] == 10 {
            SpecScan::Found(Seq::empty(), 2)
        } else {
            SpecScan::Bad
        }
    } else {
        match spec_parse_header(s) {
            SpecScan::More => SpecScan::More,
            SpecScan::Bad => SpecScan::Bad,
            SpecScan::Found(h, n) => if 1 <= n <= s.len() {
                match spec_parse_headers(s.skip(n)) {
                    SpecScan::More => SpecScan::More,
                    SpecScan::Bad => SpecScan::Bad,
                    SpecScan::Found(hs, m) => SpecScan::Found(seq![h] + hs, n + m),
                }
            } else {
                SpecScan::Bad
            },
        }
    }
}

/// Scans a NUL-terminated body; the NUL is consumed.
pub open spec fn scan_body_nul(s: Seq<u8>) -> SpecScan<Seq<u8>>
    decreases s.len(),
{
    if s.len() == 0 {
        SpecScan::More
    } else if s[0] == 0 {
        SpecScan::Found(Seq::empty(), 1)
    } else {
        match scan_body_nul(s.skip(1)) {
            SpecScan::More => SpecScan::More,
            SpecScan::Bad => SpecScan::Bad,
            SpecScan::Found(t, n) => SpecScan::Found(seq![s[0]] + t, n + 1),
        }
    }
}

/// The body length fixed by the first `content-length` header, when that
/// header is present and parses; a malformed value is ignored.
pub open spec fn content_length_of(hs: Seq<(Seq<u8>, Seq<u8>)>) -> Option<u32> {
    match first_match(hs, lit_content_length()) {
        None => None,
        Some(v) => parse_dec_u32(v),
    }
}

/// Parses the body and the frame's final NUL. With a usable `content-length`
/// the body is exactly that many bytes and may hold NULs; otherwise it runs
/// to the first NUL.
pub open spec fn spec_parse_body(s: Seq<u8>, hs: Seq<(Seq<u8>, Seq<u8>)>) -> SpecScan<Seq<u8>> {
    match content_length_of(hs) {
        Some(n) => if s.len() < n + 1 {
            SpecScan::More
        } else if s[n as int] == 0 {
            SpecScan::Found(s.take(n as int), n + 1)
        } else {
            SpecScan::Bad
        },
        None => scan_body_nul(s),
    }
}

/// Parses one complete frame.
pub open spec fn spec_parse_frame(s: Seq<u8>) -> SpecScan<FrameView> {
    match spec_parse_command(s) {
        SpecScan::More => SpecScan::More,
        SpecScan::Bad => SpecScan::Bad,
        SpecScan::Found(c, n1) => match spec_parse_headers(s.skip(n1)) {
            SpecScan::More => SpecScan::More,
            SpecScan::Bad => SpecScan::Bad,
            SpecScan::Found(hs, n2) => match spec_parse_body(s.skip(n1 + n2), hs) {
                SpecScan::More => SpecScan::More,
                SpecScan::Bad => SpecScan::Bad,
                SpecScan::Found(body, n3) => SpecScan::Found(
                    FrameView { command: c, headers: hs, body },
                    n1 + n2 + n3,
                ),
            },
        },
    }
}

/// The length of the maximal leading run of line terminators.
pub open spec fn hb_len(s: Seq<u8>) -> int
    decreases s.len(),
{
    if s.len() >= 1 && s[0] == 10 {
        1 + hb_len(s.skip(1))
    } else if s.len() >= 2 && s[0] == 13 && s[1] == 10 {
        2 + hb_len(s.skip(2))
    } else {
        0
    }
}

pub proof fn lemma_hb_len_nonneg(s: Seq<u8>)
    ensures
        hb_len(s) >= 0,
    decreases s.len(),
{
    if s.len() >= 1 && s[0] == 10 {
        lemma_hb_len_nonneg(s.skip(1));
    } else if s.len() >= 2 && s[0] == 13 && s[1] == 10 {
        lemma_hb_len_nonneg(s.skip(2));
    }
}

/// Parses one transmission: a heartbeat run, or a complete frame.
pub open spec fn spec_parse_transmission(s: Seq<u8>) -> SpecScan<TransmissionView> {
    if s.len() == 0 {
        SpecScan::More
    } else if s[0] == 10 {
        SpecScan::Found(TransmissionView::HeartBeat, hb_len(s))
    } else if s[0] == 13 {
        if s.len() == 1 {
            SpecScan::More
        } else if s[1] == 10 {
            SpecScan::Found(TransmissionView::HeartBeat, hb_len(s))
        } else {
            SpecScan::Bad
        }
    } else {
        match spec_parse_frame(s) {
            SpecScan::More => SpecScan::More,
            SpecScan::Bad => SpecScan::Bad,
            SpecScan::Found(f, n) => SpecScan::Found(TransmissionView::CompleteFrame(f), n),
        }
    }
}

// ---------------------------------------------------------------------------
// Well-formed frames and the round-trip law
// ---------------------------------------------------------------------------

/// A frame whose serialization decodes back to itself: a usable
/// `content-length` header must match the body length, and a body without one
/// must hold no NUL.
pub open spec fn wf_frame(f: FrameView) -> bool {
    match content_length_of(f.headers) {
        Some(n) => f.body.len() == n,
        None => forall|i: int| 0 <= i < f.body.len() ==> f.body[i] != 0,
    }
}

/// Scanning a clean line followed by a terminator finds exactly that line.
proof fn lemma_scan_cmd_line_enc(p: Seq<u8>, tail: Seq<u8>)
    requires
        forall|i: int| 0 <= i < p.len() ==> p[i] != 10 && p[i] != 13,
        tail.len() >= 1,
        tail[0] == 10 || tail[0] == 13,
    ensures
        scan_cmd_line(p + tail) == SpecScan::Found(p, p.len() as int),
    decreases p.len(),
{
    let s = p + tail;
    if p.len() == 0 {
        assert(s =~= tail);
        assert(scan_cmd_line(s) == SpecScan::Found(Seq::<u8>::empty(), 0));
        assert(p =~= Seq::<u8>::empty());
    } else {
        assert(s[0] == p[0]);
        assert(s.skip(1) =~= p.skip(1) + tail);
        assert(forall|i: int| 0 <= i < p.skip(1).len() ==> p.skip(1)[i] == p[i + 1]);
        lemma_scan_cmd_line_enc(p.skip(1), tail);
        assert(seq![p[0]] + p.skip(1) =~= p);
    }
}

/// The lengths of the command tokens.
proof fn lemma_cmd_lens()
    ensures
        cmd_bytes(Command::Connected).len() == 9,
        cmd_bytes(Command::Connect).len() == 7,
        cmd_bytes(Command::Send).len() == 4,
        cmd_bytes(Command::Subscribe).len() == 9,
        cmd_bytes(Command::Unsubscribe).len() == 11,
        cmd_bytes(Command::Ack).len() == 3,
        cmd_bytes(Command::Nack).len() == 4,
        cmd_bytes(Command::Begin).len() == 5,
        cmd_bytes(Command::Commit).len() == 6,
        cmd_bytes(Command::Abort).len() == 5,
        cmd_bytes(Command::Disconnect).len() == 10,
        cmd_bytes(Command::Message).len() == 7,
        cmd_bytes(Command::Receipt).len() == 7,
        cmd_bytes(Command::Error).len() == 5,
{
}

/// Each command's token names that command.
proof fn lemma_token_of_cmd(c: Command)
    ensures
        token_to_command(cmd_bytes(c)) == Some(c),
{
    lemma_cmd_lens();
    match c {
        Command::Connected => {
        },
        Command::Connect => {
        },
        Command::Send => {
        },
        Command::Subscribe => {
            assert(cmd_bytes(Command::Subscribe)[0] != cmd_bytes(Command::Connected)[0]);
        },
        Command::Unsubscribe => {
        },
        Command::Ack => {
        },
        Command::Nack => {
            assert(cmd_bytes(Command::Nack)[0] != cmd_bytes(Command::Send)[0]);
        },
        Command::Begin => {
        },
        Command::Commit => {
        },
        Command::Abort => {
            assert(cmd_bytes(Command::Abort)[0] != cmd_bytes(Command::Begin)[0]);
        },
        Command::Disconnect => {
        },
        Command::Message => {
            assert(cmd_bytes(Command::Message)[0] != cmd_bytes(Command::Connect)[0]);
        },
        Command::Receipt => {
            assert(cmd_bytes(Command::Receipt)[0] != cmd_bytes(Command::Connect)[0]);
            assert(cmd_bytes(Command::Receipt)[0] != cmd_bytes(Command::Message)[0]);
        },
        Command::Error => {
            assert(cmd_bytes(Command::Error)[0] != cmd_bytes(Command::Begin)[0]);
            assert(cmd_bytes(Command::Error)[0] != cmd_bytes(Command::Abort)[0]);
        },
    }
}

/// An encoded command line parses to its command, consuming token and LF.
proof fn lemma_parse_command_enc(c: Command, rest: Seq<u8>)
    requires
        rest.len() >= 1,
        rest[0] == 10,
    ensures
        spec_parse_command(cmd_bytes(c) + rest) == SpecScan::Found(
            c,
            cmd_bytes(c).len() + 1 as int,
        ),
{
    let s = cmd_bytes(c) + rest;
    lemma_cmd_bytes_clean(c);
    lemma_token_clean_index(cmd_bytes(c));
    lemma_scan_cmd_line_enc(cmd_bytes(c), rest);
    lemma_token_of_cmd(c);
    assert(s.skip(cmd_bytes(c).len() as int) =~= rest);
    assert(spec_parse_line_ending(rest) == SpecScan::Found((), 1));
}

/// Scanning an escaped name followed by a colon finds exactly that name.
proof fn lemma_scan_name_enc(name: Seq<u8>, tail: Seq<u8>)
    requires
        tail.len() >= 1,
        tail[0] == 58,
    ensures
        scan_name(escape(name) + tail) == SpecScan::Found(name, escape(name).len() + 1 as int),
    decreases name.len(),
{
    let s = escape(name) + tail;
    if name.len() == 0 {
        assert(escape(name) =~= Seq::<u8>::empty());
        assert(s =~= tail);
        assert(scan_name(s) == SpecScan::Found(Seq::<u8>::empty(), 1));
        assert(name =~= Seq::<u8>::empty());
    } else {
        let b = name[0];
        let hd = escape_byte(b);
        let tl = escape(name.skip(1));
        assert(escape(name) == hd + tl);
        assert(s =~= hd + (tl + tail));
        lemma_scan_name_enc(name.skip(1), tail);
        if b == 10 || b == 13 || b == 58 || b == 92 {
            assert(hd.len() == 2 && hd[0] == 92 && is_escape_code(hd[1]) && unescape_code(hd[1])
                == b);
            assert(s[0] == 92);
            assert(s[1] == hd[1]);
            assert(s.len() >= 2);
            assert(s.skip(2) =~= tl + tail);
            assert(scan_name(s.skip(2)) == SpecScan::Found(name.skip(1), tl.len() + 1 as int));
            assert(seq![b] + name.skip(1) =~= name);
            assert(escape(name).len() == 2 + tl.len());
        } else {
            assert(hd =~= seq![b]);
            assert(s[0] == b);
            assert(b != 58 && b != 10 && b != 13 && b != 92);
            assert(s.skip(1) =~= tl + tail);
            assert(scan_name(s.skip(1)) == SpecScan::Found(name.skip(1), tl.len() + 1 as int));
            assert(seq![b] + name.skip(1) =~= name);
            assert(escape(name).len() == 1 + tl.len());
        }
    }
}

/// Scanning an escaped value followed by a line terminator finds exactly
/// that value, leaving the terminator.
proof fn lemma_scan_value_enc(value: Seq<u8>, tail: Seq<u8>)
    requires
        tail.len() >= 1,
        tail[0] == 10 || tail[0] == 13,
    ensures
        scan_value(escape(value) + tail) == SpecScan::Found(value, escape(value).len() as int),
    decreases value.len(),
{
    let s = escape(value) + tail;
    if value.len() == 0 {
        assert(escape(value) =~= Seq::<u8>::empty());
        assert(s =~= tail);
        assert(scan_value(s) == SpecScan::Found(Seq::<u8>::empty(), 0));
        assert(value =~= Seq::<u8>::empty());
    } else {
        let b = value[0];
        let hd = escape_byte(b);
        let tl = escape(value.skip(1));
        assert(escape(value) == hd + tl);
        assert(s =~= hd + (tl + tail));
        lemma_scan_value_enc(value.skip(1), tail);
        if b == 10 || b == 13 || b == 58 || b == 92 {
            assert(hd.len() == 2 && hd[0] == 92 && is_escape_code(hd[1]) && unescape_code(hd[1])
                == b);
            assert(s[0] == 92);
            assert(s[1] == hd[1]);
            assert(s.len() >= 2);
            assert(s.skip(2) =~= tl + tail);
            assert(scan_value(s.skip(2)) == SpecScan::Found(value.skip(1), tl.len() as int));
            assert(seq![b] + value.skip(1) =~= value);
            assert(escape(value).len() == 2 + tl.len());
        } else {
            assert(hd =~= seq![b]);
            assert(s[0] == b);
            assert(b != 10 && b != 13 && b != 92);
            assert(s.skip(1) =~= tl + tail);
            assert(scan_value(s.skip(1)) == SpecScan::Found(value.skip(1), tl.len() as int));
            assert(seq![b] + value.skip(1) =~= value);
            assert(escape(value).len() == 1 + tl.len());
        }
    }
}

/// An encoded header line parses to its header, whatever follows.
proof fn lemma_parse_header_enc(h: (Seq<u8>, Seq<u8>), rest: Seq<u8>)
    ensures
        spec_parse_header(encode_header(h) + rest) == SpecScan::Found(
            h,
            encode_header(h).len() as int,
        ),
        encode_header(h).len() >= 2,
{
    let s = encode_header(h) + rest;
    let en = escape(h.0);
    let ev = escape(h.1);
    assert(encode_header(h) == en + seq![58u8] + ev + seq![10u8]);
    assert(s =~= en + (seq![58u8] + ev + seq![10u8] + rest));
    lemma_scan_name_enc(h.0, seq![58u8] + ev + seq![10u8] + rest);
    assert((seq![58u8] + ev + seq![10u8] + rest)[0] == 58);
    assert(scan_name(s) == SpecScan::Found(h.0, en.len() + 1 as int));
    assert(s.skip(en.len() + 1 as int) =~= ev + (seq![10u8] + rest));
    lemma_scan_value_enc(h.1, seq![10u8] + rest);
    assert((seq![10u8] + rest)[0] == 10);
    assert(scan_value(s.skip(en.len() + 1 as int)) == SpecScan::Found(h.1, ev.len() as int));
    assert(s.skip(en.len() + 1 + ev.len() as int) =~= seq![10u8] + rest);
    assert((seq![10u8] + rest)[0] == 10);
    assert(spec_parse_line_ending(seq![10u8] + rest) == SpecScan::Found((), 1));
    assert(encode_header(h).len() == en.len() + 1 + ev.len() + 1);
}

/// An encoded header block followed by its blank line parses to exactly
/// those headers.
proof fn lemma_parse_headers_enc(hs: Seq<(Seq<u8>, Seq<u8>)>, rest: Seq<u8>)
    ensures
        spec_parse_headers(encode_headers(hs) + seq![10u8] + rest) == SpecScan::Found(
            hs,
            encode_headers(hs).len() + 1 as int,
        ),
    decreases hs.len(),
{
    let s = encode_headers(hs) + seq![10u8] + rest;
    if hs.len() == 0 {
        assert(encode_headers(hs) =~= Seq::<u8>::empty());
        assert(s =~= seq![10u8] + rest);
        assert(s[0] == 10);
        assert(hs =~= Seq::<(Seq<u8>, Seq<u8>)>::empty());
    } else {
        let h0 = hs[0];
        let eh = encode_header(h0);
        let tlhs = encode_headers(hs.skip(1));
        assert(encode_headers(hs) == eh + tlhs);
        assert(s =~= eh + (tlhs + seq![10u8] + rest));
        lemma_parse_header_enc(h0, tlhs + seq![10u8] + rest);
        assert(spec_parse_header(s) == SpecScan::Found(h0, eh.len() as int));
        // the first byte of an encoded header line is never a line terminator
        assert(s.len() > 0);
        if escape(h0.0).len() == 0 {
            assert(eh =~= seq![58u8] + escape(h0.1) + seq![10u8]);
            assert(s[0] == 58);
        } else {
            lemma_escape_clean(h0.0);
            assert(eh[0] == escape(h0.0)[0]);
            assert(s[0] == eh[0]);
        }
        assert(s[0] != 10 && s[0] != 13);
        assert(1 <= eh.len() <= s.len());
        assert(s.skip(eh.len() as int) =~= tlhs + seq![10u8] + rest);
        lemma_parse_headers_enc(hs.skip(1), rest);
        assert(spec_parse_headers(s.skip(eh.len() as int)) == SpecScan::Found(
            hs.skip(1),
            tlhs.len() + 1 as int,
        ));
        assert(seq![h0] + hs.skip(1) =~= hs);
        assert(encode_headers(hs).len() == eh.len() + tlhs.len());
    }
}

/// Scanning a NUL-free body followed by NUL finds exactly that body.
proof fn lemma_scan_body_nul_enc(body: Seq<u8>, rest: Seq<u8>)
    requires
        forall|i: int| 0 <= i < body.len() ==> body[i] != 0,
    ensures
        scan_body_nul(body + seq![0u8] + rest) == SpecScan::Found(body, body.len() + 1 as int),
    decreases body.len(),
{
    let s = body + seq![0u8] + rest;
    if body.len() == 0 {
        assert(s =~= seq![0u8] + rest);
        assert(s[0] == 0);
        assert(body =~= Seq::<u8>::empty());
    } else {
        assert(s[0] == body[0]);
        assert(s.skip(1) =~= body.skip(1) + seq![0u8] + rest);
        assert(forall|i: int| 0 <= i < body.skip(1).len() ==> body.skip(1)[i] == body[i + 1]);
        lemma_scan_body_nul_enc(body.skip(1), rest);
        assert(seq![body[0]] + body.skip(1) =~= body);
    }
}

/// The body of a well-formed frame, followed by NUL, parses to that body.
proof fn lemma_parse_body_enc(f: FrameView, rest: Seq<u8>)
    requires
        wf_frame(f),
    ensures
        spec_parse_body(f.body + seq![0u8] + rest, f.headers) == SpecScan::Found(
            f.body,
            f.body.len() + 1 as int,
        ),
{
    let s = f.body + seq![0u8] + rest;
    match content_length_of(f.headers) {
        Some(n) => {
            assert(s.len() >= n + 1);
            assert(s[n as int] == 0);
            assert(s.take(n as int) =~= f.body);
        },
        None => {
            lemma_scan_body_nul_enc(f.body, rest);
        },
    }
}

/// The round-trip law on frames: the serialization of a well-formed frame
/// decodes to exactly that frame, consuming exactly the serialization.
pub proof fn lemma_decode_encode(f: FrameView)
    requires
        wf_frame(f),
    ensures
        spec_parse_transmission(encode_frame(f)) == SpecScan::Found(
            TransmissionView::CompleteFrame(f),
            encode_frame(f).len() as int,
        ),
{
    let cmd = cmd_bytes(f.command);
    let eh = encode_headers(f.headers);
    let s = encode_frame(f);
    assert(s == cmd + seq![10u8] + eh + seq![10u8] + f.body + seq![0u8]);
    let rest1 = seq![10u8] + (eh + seq![10u8] + f.body + seq![0u8]);
    assert(s =~= cmd + rest1);
    assert(rest1[0] == 10);
    lemma_parse_command_enc(f.command, rest1);
    assert(spec_parse_command(s) == SpecScan::Found(f.command, cmd.len() + 1 as int));
    let n1 = cmd.len() + 1 as int;
    assert(s.skip(n1) =~= eh + seq![10u8] + (f.body + seq![0u8]));
    lemma_parse_headers_enc(f.headers, f.body + seq![0u8]);
    assert(spec_parse_headers(s.skip(n1)) == SpecScan::Found(f.headers, eh.len() + 1 as int));
    let n2 = eh.len() + 1 as int;
    assert(s.skip(n1 + n2) =~= f.body + seq![0u8] + Seq::<u8>::empty());
    lemma_parse_body_enc(f, Seq::<u8>::empty());
    assert(spec_parse_body(s.skip(n1 + n2), f.headers) == SpecScan::Found(
        f.body,
        f.body.len() + 1 as int,
    ));
    assert(spec_parse_frame(s) == SpecScan::Found(f, n1 + n2 + f.body.len() + 1 as int));
    lemma_cmd_bytes_clean(f.command);
    lemma_token_clean_index(cmd);
    assert(s[0] == cmd[0]);
    assert(s[0] != 10 && s[0] != 13);
    assert(s.len() == n1 + n2 + f.body.len() + 1);
}

/// A lone LF is a complete heartbeat transmission.
pub proof fn lemma_heartbeat_roundtrip()
    ensures
        spec_parse_transmission(seq![10u8]) == SpecScan::Found(TransmissionView::HeartBeat, 1),
{
    let s = seq![10u8];
    assert(s.skip(1) =~= Seq::<u8>::empty());
    assert(hb_len(s.skip(1)) == 0);
    assert(hb_len(s) == 1);
}

/// Heartbeat-only input decodes as a heartbeat consuming every byte.
pub proof fn lemma_heartbeat_run_consumes_all(s: Seq<u8>)
    requires
        s.len() >= 1,
        forall|i: int| 0 <= i < s.len() ==> s[i] == 10,
    ensures
        spec_parse_transmission(s) == SpecScan::Found(TransmissionView::HeartBeat, s.len() as int),
    decreases s.len(),
{
    assert(hb_len(s) == s.len()) by {
        lemma_hb_len_all_lf(s);
    }
}

proof fn lemma_hb_len_all_lf(s: Seq<u8>)
    requires
        forall|i: int| 0 <= i < s.len() ==> s[i] == 10,
    ensures
        hb_len(s) == s.len(),
    decreases s.len(),
{
    if s.len() > 0 {
        assert(forall|i: int| 0 <= i < s.skip(1).len() ==> s.skip(1)[i] == s[i + 1]);
        lemma_hb_len_all_lf(s.skip(1));
    }
}

// ---------------------------------------------------------------------------
// The executable decoder
// ---------------------------------------------------------------------------

/// The outcome of an executable scan: incomplete input, malformed input, or
/// a value complete at absolute position `j`.
pub enum Scan<T> {
    More,
    Bad,
    Found(T, usize),
}

/// Prepends already-scanned text and already-consumed bytes to a scan
/// outcome.
pub open spec fn pre_scan(acc: Seq<u8>, d: int, g: SpecScan<Seq<u8>>) -> SpecScan<Seq<u8>> {
    match g {
        SpecScan::More => SpecScan::More,
        SpecScan::Bad => SpecScan::Bad,
        SpecScan::Found(t, n) => SpecScan::Found(acc + t, d + n),
    }
}

proof fn lemma_pre_scan_step(acc: Seq<u8>, d: int, b: u8, k: int, g: SpecScan<Seq<u8>>)
    ensures
        pre_scan(
            acc,
            d,
            match g {
                SpecScan::More => SpecScan::More,
                SpecScan::Bad => SpecScan::Bad,
                SpecScan::Found(t, n) => SpecScan::Found(seq![b] + t, n + k),
            },
        ) == pre_scan(acc.push(b), d + k, g),
{
    match g {
        SpecScan::Found(t, n) => {
            assert(acc + (seq![b] + t) =~= acc.push(b) + t);
        },
        _ => {},
    }
}

/// Scans a header name starting at `i0`.
fn scan_name_at(v: &Vec<u8>, i0: usize) -> (r: Scan<Vec<u8>>)
    requires
        i0 <= v@.len(),
    ensures
        (match scan_name(v@.skip(i0 as int)) {
            SpecScan::More => r is More,
            SpecScan::Bad => r is Bad,
            SpecScan::Found(t, n) => r matches Scan::Found(out, j) && out@ == t && j == i0 + n
                && i0 < j <= v@.len(),
        }),
{
    let ghost s0 = v@.skip(i0 as int);
    let mut i: usize = i0;
    let mut acc: Vec<u8> = Vec::new();
    proof {
        match scan_name(s0) {
            SpecScan::Found(t, n) => {
                assert(Seq::<u8>::empty() + t =~= t);
            },
            _ => {},
        }
    }
    loop
        invariant
            i0 <= i <= v@.len(),
            scan_name(s0) == pre_scan(acc@, i - i0, scan_name(v@.skip(i as int))),
            s0 == v@.skip(i0 as int),
        decreases v@.len() - i,
    {
        let ghost si = v@.skip(i as int);
        if i == v.len() {
            assert(si.len() == 0);
            return Scan::More;
        }
        let b = v[i];
        assert(si[0] == b);
        if b == 58 {
            assert(scan_name(si) == SpecScan::Found(Seq::<u8>::empty(), 1));
            assert(acc@ + Seq::<u8>::empty() =~= acc@);
            return Scan::Found(acc, i + 1);
        } else if b == 10 || b == 13 {
            return Scan::Bad;
        } else if b == 92 {
            if i + 1 == v.len() {
                assert(si.len() == 1);
                return Scan::More;
            }
            let c = v[i + 1];
            assert(si[1] == c);
            if c == 110 || c == 114 || c == 99 || c == 92 {
                let u = if c == 110 {
                    10
                } else if c == 114 {
                    13
                } else if c == 99 {
                    58
                } else {
                    92
                };
                assert(u == unescape_code(c));
                proof {
                    assert(si.skip(2) =~= v@.skip(i + 2));
                    lemma_pre_scan_step(acc@, i - i0, u, 2, scan_name(v@.skip(i + 2)));
                }
                acc.push(u);
                i = i + 2;
            } else {
                proof {
                    assert(si.skip(1) =~= v@.skip(i + 1));
                    lemma_pre_scan_step(acc@, i - i0, b, 1, scan_name(v@.skip(i + 1)));
                }
                acc.push(b);
                i = i + 1;
            }
        } else {
            proof {
                assert(si.skip(1) =~= v@.skip(i + 1));
                lemma_pre_scan_step(acc@, i - i0, b, 1, scan_name(v@.skip(i + 1)));
            }
            acc.push(b);
            i = i + 1;
        }
    }
}

/// Scans a header value starting at `i0`.
fn scan_value_at(v: &Vec<u8>, i0: usize) -> (r: Scan<Vec<u8>>)
    requires
        i0 <= v@.len(),
    ensures
        (match scan_value(v@.skip(i0 as int)) {
            SpecScan::More => r is More,
            SpecScan::Bad => r is Bad,
            SpecScan::Found(t, n) => r matches Scan::Found(out, j) && out@ == t && j == i0 + n
                && i0 <= j <= v@.len(),
        }),
{
    let ghost s0 = v@.skip(i0 as int);
    let mut i: usize = i0;
    let mut acc: Vec<u8> = Vec::new();
    proof {
        match scan_value(s0) {
            SpecScan::Found(t, n) => {
                assert(Seq::<u8>::empty() + t =~= t);
            },
            _ => {},
        }
    }
    loop
        invariant
            i0 <= i <= v@.len(),
            scan_value(s0) == pre_scan(acc@, i - i0, scan_value(v@.skip(i as int))),
            s0 == v@.skip(i0 as int),
        decreases v@.len() - i,
    {
        let ghost si = v@.skip(i as int);
        if i == v.len() {
            assert(si.len() == 0);
            return Scan::More;
        }
        let b = v[i];
        assert(si[0] == b);
        if b == 10 || b == 13 {
            assert(scan_value(si) == SpecScan::Found(Seq::<u8>::empty(), 0));
            assert(acc@ + Seq::<u8>::empty() =~= acc@);
            return Scan::Found(acc, i);
        } else if b == 92 {
            if i + 1 == v.len() {
                assert(si.len() == 1);
                return Scan::More;
            }
            let c = v[i + 1];
            assert(si[1] == c);
            if c == 110 || c == 114 || c == 99 || c == 92 {
                let u = if c == 110 {
                    10
                } else if c == 114 {
                    13
                } else if c == 99 {
                    58
                } else {
                    92
                };
                assert(u == unescape_code(c));
                proof {
                    assert(si.skip(2) =~= v@.skip(i + 2));
                    lemma_pre_scan_step(acc@, i - i0, u, 2, scan_value(v@.skip(i + 2)));
                }
                acc.push(u);
                i = i + 2;
            } else {
                proof {
                    assert(si.skip(1) =~= v@.skip(i + 1));
                    lemma_pre_scan_step(acc@, i - i0, b, 1, scan_value(v@.skip(i + 1)));
                }
                acc.push(b);
                i = i + 1;
            }
        } else {
            proof {
                assert(si.skip(1) =~= v@.skip(i + 1));
                lemma_pre_scan_step(acc@, i - i0, b, 1, scan_value(v@.skip(i + 1)));
            }
            acc.push(b);
            i = i + 1;
        }
    }
}

/// Scans the command line starting at `i0`.
fn scan_cmd_line_at(v: &Vec<u8>, i0: usize) -> (r: Scan<Vec<u8>>)
    requires
        i0 <= v@.len(),
    ensures
        (match scan_cmd_line(v@.skip(i0 as int)) {
            SpecScan::More => r is More,
            SpecScan::Bad => r is Bad,
            SpecScan::Found(t, n) => r matches Scan::Found(out, j) && out@ == t && j == i0 + n
                && i0 <= j <= v@.len(),
        }),
{
    let ghost s0 = v@.skip(i0 as int);
    let mut i: usize = i0;
    let mut acc: Vec<u8> = Vec::new();
    proof {
        match scan_cmd_line(s0) {
            SpecScan::Found(t, n) => {
                assert(Seq::<u8>::empty() + t =~= t);
            },
            _ => {},
        }
    }
    loop
        invariant
            i0 <= i <= v@.len(),
            scan_cmd_line(s0) == pre_scan(acc@, i - i0, scan_cmd_line(v@.skip(i as int))),
            s0 == v@.skip(i0 as int),
        decreases v@.len() - i,
    {
        let ghost si = v@.skip(i as int);
        if i == v.len() {
            assert(si.len() == 0);
            return Scan::More;
        }
        let b = v[i];
        assert(si[0] == b);
        if b == 10 || b == 13 {
            assert(scan_cmd_line(si) == SpecScan::Found(Seq::<u8>::empty(), 0));
            assert(acc@ + Seq::<u8>::empty() =~= acc@);
            return Scan::Found(acc, i);
        } else {
            proof {
                assert(si.skip(1) =~= v@.skip(i + 1));
                lemma_pre_scan_step(acc@, i - i0, b, 1, scan_cmd_line(v@.skip(i + 1)));
            }
            acc.push(b);
            i = i + 1;
        }
    }
}

/// Scans a NUL-terminated body starting at `i0`.
fn scan_body_nul_at(v: &Vec<u8>, i0: usize) -> (r: Scan<Vec<u8>>)
    requires
        i0 <= v@.len(),
    ensures
        (match scan_body_nul(v@.skip(i0 as int)) {
            SpecScan::More => r is More,
            SpecScan::Bad => r is Bad,
            SpecScan::Found(t, n) => r matches Scan::Found(out, j) && out@ == t && j == i0 + n
                && i0 < j <= v@.len(),
        }),
{
    let ghost s0 = v@.skip(i0 as int);
    let mut i: usize = i0;
    let mut acc: Vec<u8> = Vec::new();
    proof {
        match scan_body_nul(s0) {
            SpecScan::Found(t, n) => {
                assert(Seq::<u8>::empty() + t =~= t);
            },
            _ => {},
        }
    }
    loop
        invariant
            i0 <= i <= v@.len(),
            scan_body_nul(s0) == pre_scan(acc@, i - i0, scan_body_nul(v@.skip(i as int))),
            s0 == v@.skip(i0 as int),
        decreases v@.len() - i,
    {
        let ghost si = v@.skip(i as int);
        if i == v.len() {
            assert(si.len() == 0);
            return Scan::More;
        }
        let b = v[i];
        assert(si[0] == b);
        if b == 0 {
            assert(scan_body_nul(si) == SpecScan::Found(Seq::<u8>::empty(), 1));
            assert(acc@ + Seq::<u8>::empty() =~= acc@);
            return Scan::Found(acc, i + 1);
        } else {
            proof {
                assert(si.skip(1) =~= v@.skip(i + 1));
                lemma_pre_scan_step(acc@, i - i0, b, 1, scan_body_nul(v@.skip(i + 1)));
            }
            acc.push(b);
            i = i + 1;
        }
    }
}

/// Consumes one line terminator starting at `i0`.
fn parse_line_ending_at(v: &Vec<u8>, i0: usize) -> (r: Scan<()>)
    requires
        i0 <= v@.len(),
    ensures
        (match spec_parse_line_ending(v@.skip(i0 as int)) {
            SpecScan::More => r is More,
            SpecScan::Bad => r is Bad,
            SpecScan::Found(t, n) => r matches Scan::Found(_, j) && j == i0 + n && i0 < j
                <= v@.len(),
        }),
{
    let ghost s = v@.skip(i0 as int);
    if i0 == v.len() {
        assert(s.len() == 0);
        return Scan::More;
    }
    let b = v[i0];
    assert(s[0] == b);
    if b == 10 {
        Scan::Found((), i0 + 1)
    } else if b == 13 {
        if i0 + 1 == v.len() {
            assert(s.len() == 1);
            Scan::More
        } else {
            assert(s[1] == v@[i0 + 1]);
            if v[i0 + 1] == 10 {
                Scan::Found((), i0 + 2)
            } else {
                Scan::Bad
            }
        }
    } else {
        Scan::Bad
    }
}

/// Matches a complete command line against the command tokens.
fn command_of_line(line: &Vec<u8>) -> (r: Option<Command>)
    ensures
        r == token_to_command(line@),
{
    if crate::header::bytes_eq(line, &crate::frame::cmd_bytes_vec(Command::Connected)) {
        Some(Command::Connected)
    } else if crate::header::bytes_eq(line, &crate::frame::cmd_bytes_vec(Command::Connect)) {
        Some(Command::Connect)
    } else if crate::header::bytes_eq(line, &crate::frame::cmd_bytes_vec(Command::Send)) {
        Some(Command::Send)
    } else if crate::header::bytes_eq(line, &crate::frame::cmd_bytes_vec(Command::Subscribe)) {
        Some(Command::Subscribe)
    } else if crate::header::bytes_eq(line, &crate::frame::cmd_bytes_vec(Command::Unsubscribe)) {
        Some(Command::Unsubscribe)
    } else if crate::header::bytes_eq(line, &crate::frame::cmd_bytes_vec(Command::Ack)) {
        Some(Command::Ack)
    } else if crate::header::bytes_eq(line, &crate::frame::cmd_bytes_vec(Command::Nack)) {
        Some(Command::Nack)
    } else if crate::header::bytes_eq(line, &crate::frame::cmd_bytes_vec(Command::Begin)) {
        Some(Command::Begin)
    } else if crate::header::bytes_eq(line, &crate::frame::cmd_bytes_vec(Command::Commit)) {
        Some(Command::Commit)
    } else if crate::header::bytes_eq(line, &crate::frame::cmd_bytes_vec(Command::Abort)) {
        Some(Command::Abort)
    } else if crate::header::bytes_eq(line, &crate::frame::cmd_bytes_vec(Command::Disconnect)) {
        Some(Command::Disconnect)
    } else if crate::header::bytes_eq(line, &crate::frame::cmd_bytes_vec(Command::Message)) {
        Some(Command::Message)
    } else if crate::header::bytes_eq(line, &crate::frame::cmd_bytes_vec(Command::Receipt)) {
        Some(Command::Receipt)
    } else if crate::header::bytes_eq(line, &crate::frame::cmd_bytes_vec(Command::Error)) {
        Some(Command::Error)
    } else {
        None
    }
}

/// Parses the command and its line terminator starting at `i0`.
fn parse_command_at(v: &Vec<u8>, i0: usize) -> (r: Scan<Command>)
    requires
        i0 <= v@.len(),
    ensures
        (match spec_parse_command(v@.skip(i0 as int)) {
            SpecScan::More => r is More,
            SpecScan::Bad => r is Bad,
            SpecScan::Found(c, n) => r matches Scan::Found(out, j) && out == c && j == i0 + n
                && i0 < j <= v@.len(),
        }),
{
    let ghost s = v@.skip(i0 as int);
    match scan_cmd_line_at(v, i0) {
        Scan::More => Scan::More,
        Scan::Bad => Scan::Bad,
        Scan::Found(line, j1) => {
            match command_of_line(&line) {
                None => Scan::Bad,
                Some(c) => {
                    proof {
                        assert(v@.skip(j1 as int) =~= s.skip(j1 - i0));
                    }
                    match parse_line_ending_at(v, j1) {
                        Scan::More => Scan::More,
                        Scan::Bad => Scan::Bad,
                        Scan::Found(_, j2) => Scan::Found(c, j2),
                    }
                },
            }
        },
    }
}

/// Parses one header line starting at `i0`.
fn parse_header_at(v: &Vec<u8>, i0: usize) -> (r: Scan<Header>)
    requires
        i0 <= v@.len(),
    ensures
        (match spec_parse_header(v@.skip(i0 as int)) {
            SpecScan::More => r is More,
            SpecScan::Bad => r is Bad,
            SpecScan::Found(h, n) => r matches Scan::Found(out, j) && out@ == h && j == i0 + n
                && i0 < j <= v@.len(),
        }),
{
    let ghost s = v@.skip(i0 as int);
    match scan_name_at(v, i0) {
        Scan::More => Scan::More,
        Scan::Bad => Scan::Bad,
        Scan::Found(name, j1) => {
            proof {
                assert(v@.skip(j1 as int) =~= s.skip(j1 - i0));
            }
            match scan_value_at(v, j1) {
                Scan::More => Scan::More,
                Scan::Bad => Scan::Bad,
                Scan::Found(value, j2) => {
                    proof {
                        assert(v@.skip(j2 as int) =~= s.skip(j2 - i0));
                    }
                    match parse_line_ending_at(v, j2) {
                        Scan::More => Scan::More,
                        Scan::Bad => Scan::Bad,
                        Scan::Found(_, j3) => Scan::Found(Header { name, value }, j3),
                    }
                },
            }
        },
    }
}

/// Parses the header block and its blank line starting at `i0`.
fn parse_headers_at(v: &Vec<u8>, i0: usize) -> (r: Scan<Vec<Header>>)
    requires
        i0 <= v@.len(),
    ensures
        (match spec_parse_headers(v@.skip(i0 as int)) {
            SpecScan::More => r is More,
            SpecScan::Bad => r is Bad,
            SpecScan::Found(hs, n) => r matches Scan::Found(out, j) && out.deep_view() == hs && j
                == i0 + n && i0 < j <= v@.len(),
        }),
    decreases v@.len() - i0,
{
    let ghost s = v@.skip(i0 as int);
    if i0 == v.len() {
        assert(s.len() == 0);
        return Scan::More;
    }
    let b = v[i0];
    assert(s[0] == b);
    if b == 10 {
        let out: Vec<Header> = Vec::new();
        proof {
            assert(out.deep_view() =~= Seq::<(Seq<u8>, Seq<u8>)>::empty());
        }
        return Scan::Found(out, i0 + 1);
    }
    if b == 13 {
        if i0 + 1 == v.len() {
            assert(s.len() == 1);
            return Scan::More;
        }
        assert(s[1] == v@[i0 + 1]);
        if v[i0 + 1] == 10 {
            let out: Vec<Header> = Vec::new();
            proof {
                assert(out.deep_view() =~= Seq::<(Seq<u8>, Seq<u8>)>::empty());
            }
            return Scan::Found(out, i0 + 2);
        } else {
            return Scan::Bad;
        }
    }
    match parse_header_at(v, i0) {
        Scan::More => Scan::More,
        Scan::Bad => Scan::Bad,
        Scan::Found(h, j1) => {
            let ghost hv = h@;
            proof {
                assert(v@.skip(j1 as int) =~= s.skip(j1 - i0));
            }
            match parse_headers_at(v, j1) {
                Scan::More => Scan::More,
                Scan::Bad => Scan::Bad,
                Scan::Found(rest, j2) => {
                    let ghost restv = rest.deep_view();
                    let mut out = rest;
                    out.insert(0, h);
                    proof {
                        assert(out.deep_view() =~= seq![hv] + restv);
                    }
                    Scan::Found(out, j2)
                },
            }
        },
    }
}

/// Looks up the body length fixed by the first `content-length` header.
pub fn content_length_of_list(hl: &HeaderList) -> (r: Option<u32>)
    ensures
        r == content_length_of(hl@),
{
    match hl.get_first(&crate::lit::name_content_length()) {
        None => None,
        Some(value) => crate::header::parse_u32_bytes(&value),
    }
}

/// Parses the body and the final NUL starting at `i0`.
fn parse_body_at(v: &Vec<u8>, i0: usize, hl: &HeaderList) -> (r: Scan<Vec<u8>>)
    requires
        i0 <= v@.len(),
    ensures
        (match spec_parse_body(v@.skip(i0 as int), hl@) {
            SpecScan::More => r is More,
            SpecScan::Bad => r is Bad,
            SpecScan::Found(t, n) => r matches Scan::Found(out, j) && out@ == t && j == i0 + n
                && i0 < j <= v@.len(),
        }),
{
    let ghost s = v@.skip(i0 as int);
    match content_length_of_list(hl) {
        Some(n) => {
            let nn = n as usize;
            if v.len() - i0 <= nn {
                assert(s.len() < n + 1);
                return Scan::More;
            }
            assert(s[n as int] == v@[i0 + n]);
            if v[i0 + nn] != 0 {
                return Scan::Bad;
            }
            let mut out: Vec<u8> = Vec::new();
            let mut k: usize = 0;
            let vl: usize = v.len();
            assert(i0 + nn < vl);
            while k < nn
                invariant
                    k <= nn,
                    vl == v@.len(),
                    i0 + nn < vl,
                    out@ == v@.skip(i0 as int).take(k as int),
                decreases nn - k,
            {
                assert(i0 + k < vl);
                out.push(v[i0 + k]);
                proof {
                    assert(v@.skip(i0 as int)[k as int] == v@[i0 + k]);
                    assert(out@ =~= v@.skip(i0 as int).take(k + 1));
                }
                k = k + 1;
            }
            Scan::Found(out, i0 + nn + 1)
        },
        None => scan_body_nul_at(v, i0),
    }
}

/// Parses one complete frame starting at `i0`.
fn parse_frame_at(v: &Vec<u8>, i0: usize) -> (r: Scan<Frame>)
    requires
        i0 <= v@.len(),
    ensures
        (match spec_parse_frame(v@.skip(i0 as int)) {
            SpecScan::More => r is More,
            SpecScan::Bad => r is Bad,
            SpecScan::Found(f, n) => r matches Scan::Found(out, j) && out@ == f && j == i0 + n
                && i0 < j <= v@.len(),
        }),
{
    let ghost s = v@.skip(i0 as int);
    match parse_command_at(v, i0) {
        Scan::More => Scan::More,
        Scan::Bad => Scan::Bad,
        Scan::Found(c, j1) => {
            proof {
                assert(v@.skip(j1 as int) =~= s.skip(j1 - i0));
            }
            match parse_headers_at(v, j1) {
                Scan::More => Scan::More,
                Scan::Bad => Scan::Bad,
                Scan::Found(hs, j2) => {
                    let hl = HeaderList { headers: hs };
                    proof {
                        assert(v@.skip(j2 as int) =~= s.skip(j2 - i0));
                    }
                    match parse_body_at(v, j2, &hl) {
                        Scan::More => Scan::More,
                        Scan::Bad => Scan::Bad,
                        Scan::Found(body, j3) => Scan::Found(
                            Frame { command: c, headers: hl, body },
                            j3,
                        ),
                    }
                },
            }
        },
    }
}

/// Parses one transmission from the head of `v`.
pub fn decode_transmission(v: &Vec<u8>) -> (r: Scan<Transmission>)
    ensures
        (match spec_parse_transmission(v@) {
            SpecScan::More => r is More,
            SpecScan::Bad => r is Bad,
            SpecScan::Found(t, n) => r matches Scan::Found(out, j) && out@ == t && j == n && 0 < j
                <= v@.len(),
        }),
{
    proof {
        assert(v@.skip(0) =~= v@);
    }
    if v.len() == 0 {
        return Scan::More;
    }
    let b0 = v[0];
    if b0 == 13 {
        if v.len() == 1 {
            return Scan::More;
        }
        if v[1] != 10 {
            return Scan::Bad;
        }
    }
    if b0 == 10 || b0 == 13 {
        // a heartbeat: consume the maximal run of line terminators
        let mut i: usize = 0;
        loop
            invariant
                i <= v@.len(),
                hb_len(v@) == i + hb_len(v@.skip(i as int)),
            ensures
                hb_len(v@) == i,
            decreases v@.len() - i,
        {
            let ghost si = v@.skip(i as int);
            if i == v.len() {
                assert(si.len() == 0);
                assert(hb_len(si) == 0);
                break;
            }
            assert(si[0] == v@[i as int]);
            if v[i] == 10 {
                proof {
                    assert(si.skip(1) =~= v@.skip(i + 1));
                }
                i = i + 1;
            } else if v[i] == 13 && i + 1 < v.len() && v[i + 1] == 10 {
                assert(si[1] == v@[i + 1]);
                proof {
                    assert(si.skip(2) =~= v@.skip(i + 2));
                }
                i = i + 2;
            } else {
                proof {
                    if si.len() >= 2 {
                        assert(si[1] == v@[i + 1]);
                    }
                    assert(hb_len(si) == 0);
                }
                break;
            }
        }
        assert(hb_len(v@) == i);
        proof {
            if b0 == 10 {
                lemma_hb_len_nonneg(v@.skip(1));
                assert(hb_len(v@) >= 1);
            } else {
                assert(v@[1] == 10);
                lemma_hb_len_nonneg(v@.skip(2));
                assert(hb_len(v@) >= 2);
            }
        }
        return Scan::Found(Transmission::HeartBeat, i);
    }
    match parse_frame_at(v, 0) {
        Scan::More => Scan::More,
        Scan::Bad => Scan::Bad,
        Scan::Found(f, j) => Scan::Found(Transmission::CompleteFrame(f), j),
    }
}


// ---------------------------------------------------------------------------
// The codec over a byte buffer
// ---------------------------------------------------------------------------

#[verifier::external_type_specification]
#[verifier::external_body]
pub struct ExBytesMut(bytes::BytesMut);

/// The bytes a buffer holds, oldest first.
pub uninterp spec fn buf_bytes(b: bytes::BytesMut) -> Seq<u8>;

/// Relies on `BytesMut`'s `Deref<Target = [u8]>`: the buffer's bytes in
/// order.
#[verifier::external_body]
fn buf_to_vec(b: &bytes::BytesMut) -> (r: Vec<u8>)
    ensures
        r@ == buf_bytes(*b),
{
    b[..].to_vec()
}

/// Relies on `BytesMut::split_to`: removes the first `n` bytes, keeping the
/// rest; panics if `n` exceeds the length, which the precondition rules out.
#[verifier::external_body]
fn buf_split_to(b: &mut bytes::BytesMut, n: usize)
    requires
        n <= buf_bytes(*old(b)).len(),
    ensures
        buf_bytes(*final(b)) == buf_bytes(*old(b)).skip(n as int),
{
    let _ = b.split_to(n);
}

/// Relies on `BytesMut::extend_from_slice`: appends the bytes at the end.
#[verifier::external_body]
fn buf_put(b: &mut bytes::BytesMut, s: &Vec<u8>)
    ensures
        buf_bytes(*final(b)) == buf_bytes(*old(b)) + s@,
{
    b.extend_from_slice(s.as_slice())
}

/// The decoder's error: the buffer's head can form no transmission.
#[derive(PartialEq, Eq, Debug)]
pub enum DecodeError {
    ParseFailed,
}

/// The streaming codec over a byte buffer.
pub struct Codec;

impl Codec {
    /// Serializes a transmission onto the end of the buffer.
    pub fn encode(&mut self, item: Transmission, buffer: &mut bytes::BytesMut)
        ensures
            buf_bytes(*final(buffer)) == buf_bytes(*old(buffer)) + encode_transmission(item@),
    {
        let ghost iv = item@;
        match item {
            Transmission::HeartBeat => {
                let v: Vec<u8> = vec![10u8];
                assert(v@ =~= seq![10u8]);
                buf_put(buffer, &v);
            },
            Transmission::CompleteFrame(f) => {
                let v = f.write_bytes();
                buf_put(buffer, &v);
            },
        }
    }

    /// Decodes one transmission from the head of the buffer. Incomplete
    /// input yields `Ok(None)` and leaves the buffer untouched; a complete
    /// transmission is returned with its bytes removed; bytes that can form
    /// no transmission yield an error and leave the buffer untouched.
    pub fn decode(&mut self, src: &mut bytes::BytesMut) -> (r: Result<
        Option<Transmission>,
        DecodeError,
    >)
        ensures
            (match spec_parse_transmission(buf_bytes(*old(src))) {
                SpecScan::More => r matches Ok(o) && o is None && buf_bytes(*final(src))
                    == buf_bytes(*old(src)),
                SpecScan::Bad => r is Err && buf_bytes(*final(src)) == buf_bytes(*old(src)),
                SpecScan::Found(t, n) => r matches Ok(Some(out)) && out@ == t && buf_bytes(
                    *final(src),
                ) == buf_bytes(*old(src)).skip(n),
            }),
    {
        let v = buf_to_vec(src);
        match decode_transmission(&v) {
            Scan::More => Ok(None),
            Scan::Bad => Err(DecodeError::ParseFailed),
            Scan::Found(t, j) => {
                buf_split_to(src, j);
                Ok(Some(t))
            },
        }
    }
}


// ---------------------------------------------------------------------------
// Partial input
// ---------------------------------------------------------------------------

/// A clean line prefix without its terminator is incomplete.
proof fn lemma_scan_cmd_line_more(p: Seq<u8>)
    requires
        forall|i: int| 0 <= i < p.len() ==> p[i] != 10 && p[i] != 13,
    ensures
        scan_cmd_line(p) == SpecScan::<Seq<u8>>::More,
    decreases p.len(),
{
    if p.len() > 0 {
        assert(forall|i: int| 0 <= i < p.skip(1).len() ==> p.skip(1)[i] == p[i + 1]);
        lemma_scan_cmd_line_more(p.skip(1));
    }
}

/// A prefix of an escaped name without its colon is incomplete.
proof fn lemma_scan_name_prefix_more(name: Seq<u8>, k: int)
    requires
        0 <= k <= escape(name).len(),
    ensures
        scan_name(escape(name).take(k)) == SpecScan::<Seq<u8>>::More,
    decreases name.len(),
{
    let q = escape(name).take(k);
    if k == 0 {
        assert(q.len() == 0);
    } else {
        let b = name[0];
        let hd = escape_byte(b);
        let tl = escape(name.skip(1));
        assert(escape(name) == hd + tl);
        if b == 10 || b == 13 || b == 58 || b == 92 {
            assert(hd.len() == 2 && hd[0] == 92 && is_escape_code(hd[1]));
            assert(q[0] == 92);
            if k == 1 {
                assert(q.len() == 1);
            } else {
                assert(q[1] == hd[1]);
                assert(q.skip(2) =~= tl.take(k - 2));
                lemma_scan_name_prefix_more(name.skip(1), k - 2);
            }
        } else {
            assert(hd =~= seq![b]);
            assert(q[0] == b);
            assert(b != 58 && b != 10 && b != 13 && b != 92);
            assert(q.skip(1) =~= tl.take(k - 1));
            lemma_scan_name_prefix_more(name.skip(1), k - 1);
        }
    }
}

/// A prefix of an escaped value without its line terminator is incomplete.
proof fn lemma_scan_value_prefix_more(value: Seq<u8>, k: int)
    requires
        0 <= k <= escape(value).len(),
    ensures
        scan_value(escape(value).take(k)) == SpecScan::<Seq<u8>>::More,
    decreases value.len(),
{
    let q = escape(value).take(k);
    if k == 0 {
        assert(q.len() == 0);
    } else {
        let b = value[0];
        let hd = escape_byte(b);
        let tl = escape(value.skip(1));
        assert(escape(value) == hd + tl);
        if b == 10 || b == 13 || b == 58 || b == 92 {
            assert(hd.len() == 2 && hd[0] == 92 && is_escape_code(hd[1]));
            assert(q[0] == 92);
            if k == 1 {
                assert(q.len() == 1);
            } else {
                assert(q[1] == hd[1]);
                assert(q.skip(2) =~= tl.take(k - 2));
                lemma_scan_value_prefix_more(value.skip(1), k - 2);
            }
        } else {
            assert(hd =~= seq![b]);
            assert(q[0] == b);
            assert(b != 10 && b != 13 && b != 92);
            assert(q.skip(1) =~= tl.take(k - 1));
            lemma_scan_value_prefix_more(value.skip(1), k - 1);
        }
    }
}

/// A prefix of a NUL-free body without its NUL is incomplete.
proof fn lemma_scan_body_nul_more(body: Seq<u8>, j: int)
    requires
        forall|i: int| 0 <= i < body.len() ==> body[i] != 0,
        0 <= j <= body.len(),
    ensures
        scan_body_nul(body.take(j)) == SpecScan::<Seq<u8>>::More,
    decreases j,
{
    let q = body.take(j);
    if j > 0 {
        assert(q[0] == body[0]);
        assert(q.skip(1) =~= body.skip(1).take(j - 1));
        assert(forall|i: int| 0 <= i < body.skip(1).len() ==> body.skip(1)[i] == body[i + 1]);
        lemma_scan_body_nul_more(body.skip(1), j - 1);
    }
}

/// A proper prefix of an encoded header line is incomplete.
proof fn lemma_parse_header_prefix_more(h: (Seq<u8>, Seq<u8>), k: int)
    requires
        0 <= k < encode_header(h).len(),
    ensures
        spec_parse_header(encode_header(h).take(k)) == SpecScan::<(Seq<u8>, Seq<u8>)>::More,
{
    let en = escape(h.0);
    let ev = escape(h.1);
    assert(encode_header(h) == en + seq![58u8] + ev + seq![10u8]);
    let q = encode_header(h).take(k);
    if k <= en.len() {
        assert(q =~= en.take(k));
        lemma_scan_name_prefix_more(h.0, k);
    } else {
        assert(q =~= en + (seq![58u8] + ev.take(k - en.len() - 1)));
        lemma_scan_name_enc(h.0, seq![58u8] + ev.take(k - en.len() - 1));
        assert((seq![58u8] + ev.take(k - en.len() - 1))[0] == 58);
        assert(scan_name(q) == SpecScan::Found(h.0, en.len() + 1 as int));
        assert(q.skip(en.len() + 1 as int) =~= ev.take(k - en.len() - 1));
        assert(k - en.len() - 1 <= ev.len());
        lemma_scan_value_prefix_more(h.1, k - en.len() - 1);
    }
}

/// A prefix of the header block that has not yet reached its blank line is
/// incomplete.
proof fn lemma_parse_headers_prefix_more(hs: Seq<(Seq<u8>, Seq<u8>)>, m: int)
    requires
        0 <= m <= encode_headers(hs).len(),
    ensures
        spec_parse_headers((encode_headers(hs) + seq![10u8]).take(m)) == SpecScan::<Seq<(Seq<u8>, Seq<u8>)>>::More,
    decreases hs.len(),
{
    let q = (encode_headers(hs) + seq![10u8]).take(m);
    if m == 0 {
        assert(q.len() == 0);
    } else {
        assert(hs.len() > 0) by {
            if hs.len() == 0 {
                assert(encode_headers(hs).len() == 0);
            }
        }
        let h0 = hs[0];
        let eh = encode_header(h0);
        let tlhs = encode_headers(hs.skip(1));
        assert(encode_headers(hs) == eh + tlhs);
        lemma_parse_header_enc(h0, tlhs + seq![10u8]);
        assert(q[0] == eh[0]);
        if escape(h0.0).len() == 0 {
            assert(eh =~= seq![58u8] + escape(h0.1) + seq![10u8]);
            assert(eh[0] == 58);
        } else {
            lemma_escape_clean(h0.0);
            assert(eh[0] == escape(h0.0)[0]);
        }
        assert(q[0] != 10 && q[0] != 13);
        if m < eh.len() {
            assert(q =~= eh.take(m));
            lemma_parse_header_prefix_more(h0, m);
        } else {
            assert(q =~= eh + (tlhs + seq![10u8]).take(m - eh.len()));
            lemma_parse_header_enc(h0, (tlhs + seq![10u8]).take(m - eh.len()));
            assert(spec_parse_header(q) == SpecScan::Found(h0, eh.len() as int));
            assert(1 <= eh.len() <= q.len());
            assert(q.skip(eh.len() as int) =~= (tlhs + seq![10u8]).take(m - eh.len()));
            lemma_parse_headers_prefix_more(hs.skip(1), m - eh.len());
        }
    }
}

/// Partial input at any byte boundary: every proper prefix of a well-formed
/// frame's serialization decodes as "need more"; the decoder consumes no
/// bytes until the frame is complete.
pub proof fn lemma_partial_input_needs_more(f: FrameView, n: int)
    requires
        wf_frame(f),
        0 <= n < encode_frame(f).len(),
    ensures
        spec_parse_transmission(encode_frame(f).take(n)) == SpecScan::<TransmissionView>::More,
{
    let cmd = cmd_bytes(f.command);
    let eh = encode_headers(f.headers);
    let s = encode_frame(f);
    let p = s.take(n);
    lemma_cmd_bytes_clean(f.command);
    lemma_token_clean_index(cmd);
    assert(s == cmd + seq![10u8] + eh + seq![10u8] + f.body + seq![0u8]);
    let b1 = cmd.len() + 1 as int;
    let b2 = b1 + eh.len() + 1;
    if n == 0 {
        assert(p.len() == 0);
    } else if n <= cmd.len() {
        assert(p =~= cmd.take(n));
        assert(forall|i: int| 0 <= i < p.len() ==> p[i] == cmd[i]);
        lemma_scan_cmd_line_more(p);
        assert(p[0] == cmd[0]);
        assert(p[0] != 10 && p[0] != 13);
    } else {
        // the whole command line is present
        assert(p[0] == cmd[0]);
        assert(p[0] != 10 && p[0] != 13);
        if n < b2 {
            let m = n - b1;
            assert(p =~= cmd + (seq![10u8] + (eh + seq![10u8]).take(m)));
            lemma_scan_cmd_line_enc(cmd, seq![10u8] + (eh + seq![10u8]).take(m));
            lemma_token_of_cmd(f.command);
            assert(p.skip(cmd.len() as int) =~= seq![10u8] + (eh + seq![10u8]).take(m));
            assert(spec_parse_line_ending(seq![10u8] + (eh + seq![10u8]).take(m))
                == SpecScan::Found((), 1));
            assert(spec_parse_command(p) == SpecScan::Found(f.command, b1));
            assert(p.skip(b1) =~= (eh + seq![10u8]).take(m));
            assert(0 <= m <= eh.len());
            lemma_parse_headers_prefix_more(f.headers, m);
        } else {
            // command line and header block are complete; the body is short
            let j = n - b2;
            assert(p =~= cmd + (seq![10u8] + (eh + (seq![10u8] + f.body.take(j)))));
            let rest1 = seq![10u8] + (eh + (seq![10u8] + f.body.take(j)));
            lemma_scan_cmd_line_enc(cmd, rest1);
            lemma_token_of_cmd(f.command);
            assert(p.skip(cmd.len() as int) =~= rest1);
            assert(rest1[0] == 10);
            assert(spec_parse_command(p) == SpecScan::Found(f.command, b1));
            assert(p.skip(b1) =~= eh + seq![10u8] + f.body.take(j));
            lemma_parse_headers_enc(f.headers, f.body.take(j));
            assert(spec_parse_headers(p.skip(b1)) == SpecScan::Found(
                f.headers,
                eh.len() + 1 as int,
            ));
            assert(p.skip(b1 + (eh.len() + 1)) =~= f.body.take(j));
            assert(0 <= j <= f.body.len());
            match content_length_of(f.headers) {
                Some(cl) => {
                    assert(f.body.len() == cl);
                    assert(f.body.take(j).len() < cl + 1);
                },
                None => {
                    lemma_scan_body_nul_more(f.body, j);
                },
            }
        }
    }
}

} // verus!

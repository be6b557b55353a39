//! Connection negotiation: the CONNECT frame, the CONNECTED reply, and the
//! effective heartbeat intervals.
//!
//! Opening the TCP stream and exchanging the two frames is I/O and lives in
//! the surrounding program; everything it decides with is computed here.

use vstd::prelude::*;

use crate::frame::Command;
use crate::frame::Frame;
use crate::header::dec_rep;
use crate::header::first_match;
use crate::header::parse_heart_beat;
use crate::header::parse_heart_beat_bytes;
use crate::header::u32_to_dec;
use crate::header::Header;
use crate::header::HeaderList;
use crate::lit::lit_accept_version;
use crate::lit::lit_heart_beat;
use crate::lit::lit_host;
use crate::lit::lit_login;
use crate::lit::lit_passcode;
use crate::lit::lit_version_12;
use crate::lit::name_accept_version;
use crate::lit::name_heart_beat;
use crate::lit::name_host;
use crate::lit::name_login;
use crate::lit::name_passcode;
use crate::lit::name_version_12;

verus! {

/// What ends the handshake: a first reply that is not CONNECTED, or a
/// `heart-beat` header that is not two comma-separated numbers.
#[derive(Clone, Copy, PartialEq, Eq, Structural, Debug)]
pub enum NegotiationError {
    NotConnected,
    MalformedHeartBeat,
}

/// One effective interval: zero when either side disables the direction,
/// else the larger of the two wishes.
pub open spec fn effective_interval(ours: u32, theirs: u32) -> u32 {
    if ours == 0 || theirs == 0 {
        0u32
    } else if ours >= theirs {
        ours
    } else {
        theirs
    }
}

/// The effective heartbeat intervals: the send interval from the client's
/// offer `cx` and the server's tolerance `sy`, the receive interval from the
/// client's tolerance `cy` and the server's offer `sx`.
pub fn negotiate_heartbeat(cx: u32, cy: u32, sx: u32, sy: u32) -> (r: (u32, u32))
    ensures
        r.0 == effective_interval(cx, sy),
        r.1 == effective_interval(cy, sx),
{
    let tx = if cx == 0 || sy == 0 {
        0
    } else if cx >= sy {
        cx
    } else {
        sy
    };
    let rx = if cy == 0 || sx == 0 {
        0
    } else if cy >= sx {
        cy
    } else {
        sx
    };
    (tx, rx)
}

/// The wire value of a heartbeat offer: `cx,cy`.
pub open spec fn heart_beat_value(cx: u32, cy: u32) -> Seq<u8> {
    dec_rep(cx as nat) + seq![44u8] + dec_rep(cy as nat)
}

/// Writes a heartbeat offer.
pub fn heart_beat_bytes(cx: u32, cy: u32) -> (r: Vec<u8>)
    ensures
        r@ == heart_beat_value(cx, cy),
{
    let mut out = u32_to_dec(cx);
    out.push(44);
    let tail = u32_to_dec(cy);
    crate::frame::push_all(&mut out, &tail);
    proof {
        assert(out@ =~= heart_beat_value(cx, cy));
    }
    out
}

/// The CONNECT frame: protocol version, host, heartbeat offer, and the
/// credentials when given.
pub fn connect_frame(host: Vec<u8>, cx: u32, cy: u32, credentials: Option<(Vec<u8>, Vec<u8>)>) -> (r:
    Frame)
    ensures
        r@.command == Command::Connect,
        r@.body == Seq::<u8>::empty(),
        (match credentials {
            Option::None => r@.headers == seq![
                (lit_accept_version(), lit_version_12()),
                (lit_host(), host@),
                (lit_heart_beat(), heart_beat_value(cx, cy)),
            ],
            Option::Some(c) => r@.headers == seq![
                (lit_accept_version(), lit_version_12()),
                (lit_host(), host@),
                (lit_heart_beat(), heart_beat_value(cx, cy)),
                (lit_login(), c.0@),
                (lit_passcode(), c.1@),
            ],
        }),
{
    let mut headers = HeaderList::new();
    headers.push(Header::new_raw(name_accept_version(), name_version_12()));
    headers.push(Header::new_raw(name_host(), host));
    headers.push(Header::new_raw(name_heart_beat(), heart_beat_bytes(cx, cy)));
    match credentials {
        None => {
            let r = Frame { command: Command::Connect, headers, body: Vec::new() };
            proof {
                assert(r@.body =~= Seq::<u8>::empty());
                assert(r@.headers =~= seq![
                    (lit_accept_version(), lit_version_12()),
                    (lit_host(), r@.headers[1].1),
                    (lit_heart_beat(), heart_beat_value(cx, cy)),
                ]);
            }
            r
        },
        Some((login, passcode)) => {
            let ghost lv = login@;
            let ghost pv = passcode@;
            headers.push(Header::new_raw(name_login(), login));
            headers.push(Header::new_raw(name_passcode(), passcode));
            let r = Frame { command: Command::Connect, headers, body: Vec::new() };
            proof {
                assert(r@.body =~= Seq::<u8>::empty());
                assert(r@.headers =~= seq![
                    (lit_accept_version(), lit_version_12()),
                    (lit_host(), r@.headers[1].1),
                    (lit_heart_beat(), heart_beat_value(cx, cy)),
                    (lit_login(), lv),
                    (lit_passcode(), pv),
                ]);
            }
            r
        },
    }
}

/// Reads the server's heartbeat offer from the first reply: the reply must
/// be CONNECTED; a missing `heart-beat` header means `0,0`; a present one
/// must parse.
pub fn read_connected_heart_beat(frame: &Frame) -> (r: Result<(u32, u32), NegotiationError>)
    ensures
        frame@.command != Command::Connected ==> r == Err::<(u32, u32), NegotiationError>(
            NegotiationError::NotConnected,
        ),
        frame@.command == Command::Connected ==> (match first_match(
            frame@.headers,
            lit_heart_beat(),
        ) {
            Option::None => r == Ok::<(u32, u32), NegotiationError>((0u32, 0u32)),
            Option::Some(v) => (match parse_heart_beat(v) {
                Option::Some(p) => r == Ok::<(u32, u32), NegotiationError>(p),
                Option::None => r == Err::<(u32, u32), NegotiationError>(
                    NegotiationError::MalformedHeartBeat,
                ),
            }),
        }),
{
    match frame.command {
        Command::Connected => {
            match frame.headers.get_first(&name_heart_beat()) {
                None => Ok((0, 0)),
                Some(v) => {
                    match parse_heart_beat_bytes(&v) {
                        Some(p) => Ok(p),
                        None => Err(NegotiationError::MalformedHeartBeat),
                    }
                },
            }
        },
        _ => Err(NegotiationError::NotConnected),
    }
}

/// What the reader's heartbeat watchdog observes within one grace period:
/// bytes arrived, or the period elapsed with nothing received.
#[derive(Clone, Copy, PartialEq, Eq, Structural, Debug)]
pub enum ReaderEvent {
    BytesReceived,
    GraceExpired,
}

/// What the reader does next: carry on, log a missed heartbeat, or close
/// the session.
#[derive(Clone, Copy, PartialEq, Eq, Structural, Debug)]
pub enum HeartbeatAction {
    Proceed,
    LogMiss,
    CloseSession,
}

/// The receive-heartbeat policy: arriving bytes reset the miss count; one
/// elapsed grace period is a logged miss; a second consecutive miss closes
/// the session.
pub fn heartbeat_step(misses: u32, event: ReaderEvent) -> (r: (u32, HeartbeatAction))
    ensures
        event == ReaderEvent::BytesReceived ==> r == (0u32, HeartbeatAction::Proceed),
        event == ReaderEvent::GraceExpired && misses == 0 ==> r == (
            1u32,
            HeartbeatAction::LogMiss,
        ),
        event == ReaderEvent::GraceExpired && misses >= 1 ==> r == (
            misses,
            HeartbeatAction::CloseSession,
        ),
{
    match event {
        ReaderEvent::BytesReceived => (0, HeartbeatAction::Proceed),
        ReaderEvent::GraceExpired => {
            if misses == 0 {
                (1, HeartbeatAction::LogMiss)
            } else {
                (misses, HeartbeatAction::CloseSession)
            }
        },
    }
}

} // verus!

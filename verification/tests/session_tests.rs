use std::cell::Cell;
use std::rc::Rc;

use stomp::codec::{decode_transmission, Scan};
use stomp::connection::{
    heartbeat_step, negotiate_heartbeat, read_connected_heart_beat, HeartbeatAction,
    NegotiationError, ReaderEvent,
};
use stomp::frame::{Command, Frame, Transmission};
use stomp::session::{
    DispatchOutcome, FrameHandler, ReceiptHandler, Session, SessionError, TransactionState,
};
use stomp::subscription::{AckMode, AckOrNack, MessageHandler};

#[derive(Clone)]
struct Counting {
    fired: Rc<Cell<u32>>,
}

impl FrameHandler for Counting {
    fn on_frame(&mut self, _frame: &Frame) {
        self.fired.set(self.fired.get() + 1);
    }
}

struct AlwaysAck {
    seen: Rc<Cell<u32>>,
}

impl MessageHandler for AlwaysAck {
    fn on_message(&mut self, _frame: &Frame) -> AckOrNack {
        self.seen.set(self.seen.get() + 1);
        AckOrNack::Ack
    }
}

fn new_session() -> Session<Counting, Counting, AlwaysAck> {
    Session::new(Counting { fired: Rc::new(Cell::new(0)) })
}

fn frame_of(bytes: &[u8]) -> Frame {
    match decode_transmission(&bytes.to_vec()) {
        Scan::Found(Transmission::CompleteFrame(f), _) => f,
        _ => panic!("test input did not decode as a frame"),
    }
}

#[test]
fn issued_ids_strictly_increase() {
    let mut s = new_session();
    let a = s.generate_subscription_id();
    let b = s.generate_subscription_id();
    let t = s.generate_transaction_id();
    let r = s.generate_receipt_id();
    let c = s.generate_subscription_id();
    assert_eq!((a, b, c), (0, 1, 2));
    assert_eq!(t, 0);
    assert_eq!(r, 0);
    assert!(a < b && b < c);
}

#[test]
fn heartbeat_negotiation() {
    // the client offers 1000,2000; the server answers 500,1500
    let (tx, rx) = negotiate_heartbeat(1000, 2000, 500, 1500);
    assert_eq!(tx, 1500);
    assert_eq!(rx, 2000);
    let (tx0, rx0) = negotiate_heartbeat(0, 2000, 500, 1500);
    assert_eq!((tx0, rx0), (0, 2000));
}

#[test]
fn connected_reply_heart_beat() {
    let f = frame_of(b"CONNECTED\nheart-beat:500,1500\n\n\x00");
    assert_eq!(read_connected_heart_beat(&f), Ok((500, 1500)));
    let none = frame_of(b"CONNECTED\n\n\x00");
    assert_eq!(read_connected_heart_beat(&none), Ok((0, 0)));
    let bad = frame_of(b"CONNECTED\nheart-beat:fast\n\n\x00");
    assert_eq!(read_connected_heart_beat(&bad), Err(NegotiationError::MalformedHeartBeat));
    let wrong = frame_of(b"ERROR\n\n\x00");
    assert_eq!(read_connected_heart_beat(&wrong), Err(NegotiationError::NotConnected));
}

#[test]
fn receipt_handler_fires_once_and_is_removed() {
    let mut s = new_session();
    let fired = Rc::new(Cell::new(0));
    let rid = s
        .message(b"/q".to_vec(), b"hello".to_vec())
        .with_receipt(Counting { fired: fired.clone() })
        .send(&mut s);
    assert_eq!(rid, Some(b"0".to_vec()));
    assert_eq!(s.outstanding_receipts(), vec![b"0".to_vec()]);
    // the enqueued SEND carries receipt:0
    let sent = s.outbound.last().expect("SEND enqueued");
    assert_eq!(sent.headers.get_first(&b"receipt".to_vec()), Some(b"0".to_vec()));
    // the broker confirms
    let receipt = frame_of(b"RECEIPT\nreceipt-id:0\n\n\x00");
    assert_eq!(s.dispatch(receipt), Ok(DispatchOutcome::ReceiptFired));
    assert_eq!(fired.get(), 1);
    assert!(s.outstanding_receipts().is_empty());
    // a second confirmation with the same id is a protocol error
    let again = frame_of(b"RECEIPT\nreceipt-id:0\n\n\x00");
    assert_eq!(s.dispatch(again), Err(SessionError::UnknownReceipt));
    assert_eq!(fired.get(), 1);
}

#[test]
fn receipt_without_id_is_a_protocol_error() {
    let mut s = new_session();
    let receipt = frame_of(b"RECEIPT\n\n\x00");
    assert_eq!(s.dispatch(receipt), Err(SessionError::ReceiptWithoutId));
}

#[test]
fn client_ack_mode_answers_with_ack_frame() {
    let mut s = new_session();
    let seen = Rc::new(Cell::new(0));
    let id = s
        .subscription(b"/topic".to_vec(), AlwaysAck { seen: seen.clone() })
        .with_ack_mode(AckMode::Client)
        .start(&mut s);
    assert_eq!(id, b"0".to_vec());
    let before = s.outbound.len();
    let msg = frame_of(b"MESSAGE\nsubscription:0\nack:42\n\nx\x00");
    assert_eq!(s.dispatch(msg), Ok(DispatchOutcome::MessageDelivered(AckOrNack::Ack)));
    assert_eq!(seen.get(), 1);
    assert_eq!(s.outbound.len(), before + 1);
    let answer = s.outbound.last().expect("ACK enqueued");
    assert_eq!(answer.write_bytes(), b"ACK\nid:42\n\n\x00".to_vec());
}

#[test]
fn auto_ack_mode_sends_nothing() {
    let mut s = new_session();
    let seen = Rc::new(Cell::new(0));
    let _ = s.subscription(b"/topic".to_vec(), AlwaysAck { seen: seen.clone() }).start(&mut s);
    let before = s.outbound.len();
    let msg = frame_of(b"MESSAGE\nsubscription:0\nack:42\n\nx\x00");
    assert_eq!(s.dispatch(msg), Ok(DispatchOutcome::MessageDelivered(AckOrNack::Ack)));
    assert_eq!(seen.get(), 1);
    assert_eq!(s.outbound.len(), before);
}

#[test]
fn unknown_subscription_terminates_listen() {
    let mut s = new_session();
    let before = s.outbound.len();
    let msg = frame_of(b"MESSAGE\nsubscription:9\nack:1\n\nx\x00");
    assert_eq!(s.listen(vec![msg]), Err(SessionError::UnknownSubscription));
    assert_eq!(s.outbound.len(), before);
}

#[test]
fn error_frames_go_to_the_error_callback() {
    let fired = Rc::new(Cell::new(0));
    let mut s: Session<Counting, Counting, AlwaysAck> =
        Session::new(Counting { fired: fired.clone() });
    let err = frame_of(b"ERROR\nmessage:bad\n\n\x00");
    assert_eq!(s.dispatch(err), Ok(DispatchOutcome::ErrorDelivered));
    assert_eq!(fired.get(), 1);
}

#[test]
fn unexpected_command_is_a_protocol_error() {
    let mut s = new_session();
    let f = frame_of(b"CONNECTED\n\n\x00");
    assert_eq!(s.dispatch(f), Err(SessionError::UnexpectedCommand));
}

#[test]
fn unsubscribe_unknown_id_is_reported_without_sending() {
    let mut s = new_session();
    let before = s.outbound.len();
    assert_eq!(s.unsubscribe(&b"7".to_vec()), Err(SessionError::UnknownSubscription));
    assert_eq!(s.outbound.len(), before);
}

#[test]
fn unsubscribe_known_id_sends_frame() {
    let mut s = new_session();
    let seen = Rc::new(Cell::new(0));
    let id = s.subscription(b"/q".to_vec(), AlwaysAck { seen }).start(&mut s);
    assert_eq!(s.unsubscribe(&id), Ok(()));
    let f = s.outbound.last().expect("UNSUBSCRIBE enqueued");
    assert_eq!(f.write_bytes(), b"UNSUBSCRIBE\nid:0\n\n\x00".to_vec());
    // the table no longer knows the id
    assert_eq!(s.unsubscribe(&id), Err(SessionError::UnknownSubscription));
}

#[test]
fn transactions_commit_once() {
    let mut s = new_session();
    let mut tx = s.begin_transaction();
    assert_eq!(tx.id, b"0".to_vec());
    assert_eq!(tx.state, TransactionState::Open);
    let begin = s.outbound.last().expect("BEGIN enqueued");
    assert_eq!(begin.write_bytes(), b"BEGIN\ntransaction:0\n\n\x00".to_vec());
    assert_eq!(s.commit_transaction(&mut tx), Ok(()));
    assert_eq!(tx.state, TransactionState::Committed);
    let commit = s.outbound.last().expect("COMMIT enqueued");
    assert_eq!(commit.write_bytes(), b"COMMIT\ntransaction:0\n\n\x00".to_vec());
    let before = s.outbound.len();
    assert_eq!(s.commit_transaction(&mut tx), Err(SessionError::TransactionClosed));
    assert_eq!(s.abort_transaction(&mut tx), Err(SessionError::TransactionClosed));
    assert_eq!(s.outbound.len(), before);
}

#[test]
fn disconnect_enqueues_headerless_frame() {
    let mut s = new_session();
    assert_eq!(s.disconnect(), Ok(()));
    let f = s.outbound.last().expect("DISCONNECT enqueued");
    assert_eq!(f.write_bytes(), b"DISCONNECT\n\n\x00".to_vec());
}

#[test]
fn suppressed_content_length_is_omitted() {
    let mut s = new_session();
    let rid = s
        .message(b"/q".to_vec(), b"text".to_vec())
        .with_suppressed_content_length()
        .send(&mut s);
    assert_eq!(rid, None);
    let f = s.outbound.last().expect("SEND enqueued");
    assert_eq!(f.write_bytes(), b"SEND\ndestination:/q\n\ntext\x00".to_vec());
}

#[test]
fn receipt_handler_new_keeps_handler() {
    let fired = Rc::new(Cell::new(0));
    let rh = ReceiptHandler::new(Counting { fired: fired.clone() });
    let mut inner = rh.handler;
    inner.on_frame(&frame_of(b"RECEIPT\nreceipt-id:0\n\n\x00"));
    assert_eq!(fired.get(), 1);
}

#[test]
fn connect_frame_carries_negotiation_headers() {
    let f = stomp::connection::connect_frame(b"host".to_vec(), 1000, 2000, None);
    assert_eq!(f.command, Command::Connect);
    assert_eq!(f.headers.get_first(&b"accept-version".to_vec()), Some(b"1.2".to_vec()));
    assert_eq!(f.headers.get_first(&b"heart-beat".to_vec()), Some(b"1000,2000".to_vec()));
    let g = stomp::connection::connect_frame(
        b"host".to_vec(),
        0,
        0,
        Some((b"user".to_vec(), b"letmein".to_vec())),
    );
    assert_eq!(g.headers.get_first(&b"login".to_vec()), Some(b"user".to_vec()));
    assert_eq!(g.headers.get_first(&b"passcode".to_vec()), Some(b"letmein".to_vec()));
}

#[test]
fn subscribe_frame_constructor_serializes_canonically() {
    let f = Frame::subscribe(
        b"0".to_vec(),
        b"/q".to_vec(),
        stomp::subscription::ack_mode_bytes(AckMode::Client),
    );
    assert_eq!(f.write_bytes(), b"SUBSCRIBE\nid:0\ndestination:/q\nack:client\n\n\x00".to_vec());
}

#[test]
fn send_enqueues_in_order() {
    let mut s = new_session();
    s.send(Frame::disconnect());
    s.send(Frame::ack(b"9".to_vec()));
    assert_eq!(s.outbound.len(), 2);
    assert_eq!(s.outbound[0].command, Command::Disconnect);
    assert_eq!(s.outbound[1].command, Command::Ack);
}

#[test]
fn on_error_replaces_the_callback() {
    let mut s = new_session();
    let fired = Rc::new(Cell::new(0));
    s.on_error(Counting { fired: fired.clone() });
    let err = frame_of(b"ERROR\n\n\x00");
    assert_eq!(s.dispatch(err), Ok(DispatchOutcome::ErrorDelivered));
    assert_eq!(fired.get(), 1);
}

#[test]
fn listen_with_no_input_returns_ok() {
    let mut s = new_session();
    assert_eq!(s.listen(Vec::new()), Ok(()));
}

#[test]
fn message_without_subscription_header_is_a_protocol_error() {
    let mut s = new_session();
    let msg = frame_of(b"MESSAGE\n\nx\x00");
    assert_eq!(s.dispatch(msg), Err(SessionError::MessageWithoutSubscription));
}

#[test]
fn client_mode_message_without_ack_header_is_a_protocol_error() {
    let mut s = new_session();
    let seen = Rc::new(Cell::new(0));
    let _ = s
        .subscription(b"/topic".to_vec(), AlwaysAck { seen: seen.clone() })
        .with_ack_mode(AckMode::ClientIndividual)
        .start(&mut s);
    let before = s.outbound.len();
    let msg = frame_of(b"MESSAGE\nsubscription:0\n\nx\x00");
    assert_eq!(s.dispatch(msg), Err(SessionError::MessageWithoutAck));
    // the handler did run; no acknowledgement was written
    assert_eq!(seen.get(), 1);
    assert_eq!(s.outbound.len(), before);
}

struct AlwaysNack {
    seen: Rc<Cell<u32>>,
}

impl MessageHandler for AlwaysNack {
    fn on_message(&mut self, _frame: &Frame) -> AckOrNack {
        self.seen.set(self.seen.get() + 1);
        AckOrNack::Nack
    }
}

#[test]
fn client_mode_nack_verdict_sends_nack_frame() {
    let seen = Rc::new(Cell::new(0));
    let mut s: Session<Counting, Counting, AlwaysNack> =
        Session::new(Counting { fired: Rc::new(Cell::new(0)) });
    let _ = s
        .subscription(b"/topic".to_vec(), AlwaysNack { seen: seen.clone() })
        .with_ack_mode(AckMode::Client)
        .start(&mut s);
    let msg = frame_of(b"MESSAGE\nsubscription:0\nack:42\n\nx\x00");
    assert_eq!(s.dispatch(msg), Ok(DispatchOutcome::MessageDelivered(AckOrNack::Nack)));
    assert_eq!(seen.get(), 1);
    let answer = s.outbound.last().expect("NACK enqueued");
    assert_eq!(answer.write_bytes(), b"NACK\nid:42\n\n\x00".to_vec());
}

#[test]
fn heartbeat_misses_close_only_when_sustained() {
    assert_eq!(heartbeat_step(0, ReaderEvent::GraceExpired), (1, HeartbeatAction::LogMiss));
    assert_eq!(heartbeat_step(1, ReaderEvent::GraceExpired), (1, HeartbeatAction::CloseSession));
    assert_eq!(heartbeat_step(1, ReaderEvent::BytesReceived), (0, HeartbeatAction::Proceed));
    assert_eq!(heartbeat_step(0, ReaderEvent::BytesReceived), (0, HeartbeatAction::Proceed));
}

//! The session state machine: identifier allocation, subscription and
//! receipt tables, the outbound frame queue, and the dispatcher that routes
//! inbound frames to handlers.
//!
//! The session owns no socket. It enqueues outbound frames on `outbound`;
//! the surrounding program drains that queue onto the wire and feeds decoded
//! inbound frames to `dispatch` (or a batch to `listen`).

use vstd::prelude::*;

use crate::frame::Command;
use crate::frame::Frame;
use crate::frame::FrameView;
use crate::header::dec_rep;
use crate::header::first_match;
use crate::header::lemma_dec_rep_injective;
use crate::header::u32_to_dec;
use crate::header::Header;
use crate::lit::lit_ack;
use crate::lit::lit_id;
use crate::lit::lit_receipt_id;
use crate::lit::lit_subscription;
use crate::lit::name_ack;
use crate::lit::name_receipt_id;
use crate::lit::name_subscription;
use crate::subscription::AckMode;
use crate::subscription::AckOrNack;
use crate::subscription::MessageHandler;
use crate::subscription::Subscription;
use crate::header::HeaderList;
use crate::table::Table;

verus! {

/// A handler for whole frames: receipt confirmations and broker errors.
pub trait FrameHandler {
    fn on_frame(&mut self, frame: &Frame);
}

/// Anything that yields a frame handler.
pub trait ToFrameHandler {
    type Handler: FrameHandler;

    fn to_frame_handler(self) -> Self::Handler;
}

impl<T: FrameHandler> ToFrameHandler for T {
    type Handler = T;

    fn to_frame_handler(self) -> (r: T)
        ensures
            r == self,
    {
        self
    }
}

/// A one-shot handler registered under a receipt id.
pub struct ReceiptHandler<T: FrameHandler> {
    pub handler: T,
}

impl<T: FrameHandler> ReceiptHandler<T> {
    pub fn new(val: T) -> (r: ReceiptHandler<T>)
        ensures
            r.handler == val,
    {
        ReceiptHandler { handler: val }
    }
}

/// The errors a session operation reports without touching the wire, and
/// the protocol violations that end a session.
#[derive(Clone, Copy, PartialEq, Eq, Structural, Debug)]
pub enum SessionError {
    ReceiptWithoutId,
    UnknownReceipt,
    MessageWithoutSubscription,
    UnknownSubscription,
    MessageWithoutAck,
    UnexpectedCommand,
    TransactionClosed,
}

/// What the dispatcher did with an inbound frame; a delivered message
/// carries the handler's verdict.
#[derive(Clone, Copy, PartialEq, Eq, Structural, Debug)]
pub enum DispatchOutcome {
    ErrorDelivered,
    ReceiptFired,
    MessageDelivered(AckOrNack),
}

/// The state of one transaction handle.
#[derive(Clone, Copy, PartialEq, Eq, Structural, Debug)]
pub enum TransactionState {
    Open,
    Committed,
    Aborted,
}

/// A transaction: its wire id and its local state.
pub struct Transaction {
    pub id: Vec<u8>,
    pub state: TransactionState,
}

/// The ACK frame the dispatcher sends for `ack id`.
pub open spec fn ack_frame_view(aid: Seq<u8>) -> FrameView {
    FrameView {
        command: Command::Ack,
        headers: seq![(lit_id(), aid)],
        body: Seq::empty(),
    }
}

/// The NACK frame the dispatcher sends for `ack id`.
pub open spec fn nack_frame_view(aid: Seq<u8>) -> FrameView {
    FrameView {
        command: Command::Nack,
        headers: seq![(lit_id(), aid)],
        body: Seq::empty(),
    }
}

/// A session: three monotonically increasing counters, the subscription and
/// receipt tables, the error callback, and the outbound frame queue.
pub struct Session<E: FrameHandler, R: FrameHandler, M: MessageHandler> {
    pub next_transaction_id: u32,
    pub next_subscription_id: u32,
    pub next_receipt_id: u32,
    pub subscriptions: Table<Subscription<M>>,
    pub receipt_handlers: Table<R>,
    pub error_callback: E,
    pub outbound: Vec<Frame>,
}

impl<E: FrameHandler, R: FrameHandler, M: MessageHandler> Session<E, R, M> {
    /// Both tables keep their keys distinct.
    pub open spec fn wf(&self) -> bool {
        self.subscriptions.wf() && self.receipt_handlers.wf()
    }

    /// No session operation ever decreases a counter.
    pub open spec fn counters_nondecreasing(pre: Self, post: Self) -> bool {
        &&& post.next_transaction_id >= pre.next_transaction_id
        &&& post.next_subscription_id >= pre.next_subscription_id
        &&& post.next_receipt_id >= pre.next_receipt_id
    }

    /// The three counters, unchanged.
    pub open spec fn same_counters(pre: Self, post: Self) -> bool {
        &&& post.next_transaction_id == pre.next_transaction_id
        &&& post.next_subscription_id == pre.next_subscription_id
        &&& post.next_receipt_id == pre.next_receipt_id
    }

    /// Tables and queue, unchanged.
    pub open spec fn same_tables(pre: Self, post: Self) -> bool {
        &&& post.subscriptions@ == pre.subscriptions@
        &&& post.receipt_handlers@ == pre.receipt_handlers@
        &&& post.outbound@ == pre.outbound@
    }

    /// A fresh session: counters at zero, empty tables, empty queue.
    pub fn new(error_callback: E) -> (r: Session<E, R, M>)
        ensures
            r.next_transaction_id == 0,
            r.next_subscription_id == 0,
            r.next_receipt_id == 0,
            r.subscriptions@ == Map::<Seq<u8>, Subscription<M>>::empty(),
            r.receipt_handlers@ == Map::<Seq<u8>, R>::empty(),
            r.outbound@ == Seq::<Frame>::empty(),
            r.error_callback == error_callback,
            r.wf(),
    {
        let r = Session {
            next_transaction_id: 0,
            next_subscription_id: 0,
            next_receipt_id: 0,
            subscriptions: Table::new(),
            receipt_handlers: Table::new(),
            error_callback,
            outbound: Vec::new(),
        };
        proof {
            assert(r.outbound@ =~= Seq::<Frame>::empty());
        }
        r
    }

    /// Replaces the error callback with what the argument converts to;
    /// everything else is untouched.
    pub fn on_error<T>(&mut self, handler_convertible: T) where T: ToFrameHandler<Handler = E>
        ensures
            call_ensures(T::to_frame_handler, (handler_convertible,), final(self).error_callback),
            Self::same_counters(*old(self), *final(self)),
            Self::same_tables(*old(self), *final(self)),
            Self::counters_nondecreasing(*old(self), *final(self)),
            old(self).wf() ==> final(self).wf(),
    {
        let handler = handler_convertible.to_frame_handler();
        self.error_callback = handler;
    }

    /// The receipt ids with a handler still waiting, in table order.
    pub fn outstanding_receipts(&self) -> (r: Vec<Vec<u8>>)
        ensures
            r@.len() == self.receipt_handlers.entries@.len(),
            forall|i: int|
                0 <= i < r@.len() ==> #[trigger] r@[i]@ == self.receipt_handlers.entries@[i].0@,
            forall|i: int|
                0 <= i < r@.len() ==> self.receipt_handlers@.contains_key(#[trigger] r@[i]@),
    {
        self.receipt_handlers.keys()
    }

    /// Issues the next transaction id; ids never repeat within a session.
    pub fn generate_transaction_id(&mut self) -> (r: u32)
        requires
            old(self).next_transaction_id < u32::MAX,
        ensures
            r == old(self).next_transaction_id,
            final(self).next_transaction_id == old(self).next_transaction_id + 1,
            final(self).next_subscription_id == old(self).next_subscription_id,
            final(self).next_receipt_id == old(self).next_receipt_id,
            Self::same_tables(*old(self), *final(self)),
            Self::counters_nondecreasing(*old(self), *final(self)),
            final(self).error_callback == old(self).error_callback,
            old(self).wf() ==> final(self).wf(),
    {
        let id = self.next_transaction_id;
        self.next_transaction_id = self.next_transaction_id + 1;
        id
    }

    /// Issues the next subscription id; ids never repeat within a session.
    pub fn generate_subscription_id(&mut self) -> (r: u32)
        requires
            old(self).next_subscription_id < u32::MAX,
        ensures
            r == old(self).next_subscription_id,
            final(self).next_subscription_id == old(self).next_subscription_id + 1,
            final(self).next_transaction_id == old(self).next_transaction_id,
            final(self).next_receipt_id == old(self).next_receipt_id,
            Self::same_tables(*old(self), *final(self)),
            Self::counters_nondecreasing(*old(self), *final(self)),
            final(self).error_callback == old(self).error_callback,
            old(self).wf() ==> final(self).wf(),
    {
        let id = self.next_subscription_id;
        self.next_subscription_id = self.next_subscription_id + 1;
        id
    }

    /// Issues the next receipt id; ids never repeat within a session.
    pub fn generate_receipt_id(&mut self) -> (r: u32)
        requires
            old(self).next_receipt_id < u32::MAX,
        ensures
            r == old(self).next_receipt_id,
            final(self).next_receipt_id == old(self).next_receipt_id + 1,
            final(self).next_transaction_id == old(self).next_transaction_id,
            final(self).next_subscription_id == old(self).next_subscription_id,
            Self::same_tables(*old(self), *final(self)),
            Self::counters_nondecreasing(*old(self), *final(self)),
            final(self).error_callback == old(self).error_callback,
            old(self).wf() ==> final(self).wf(),
    {
        let id = self.next_receipt_id;
        self.next_receipt_id = self.next_receipt_id + 1;
        id
    }

    /// Enqueues a frame for the writer; frames leave in the order enqueued.
    pub fn send(&mut self, frame: Frame)
        ensures
            final(self).outbound@ == old(self).outbound@.push(frame),
            final(self).subscriptions@ == old(self).subscriptions@,
            final(self).receipt_handlers@ == old(self).receipt_handlers@,
            Self::same_counters(*old(self), *final(self)),
            Self::counters_nondecreasing(*old(self), *final(self)),
            final(self).error_callback == old(self).error_callback,
            old(self).wf() ==> final(self).wf(),
    {
        self.outbound.push(frame);
    }

    /// Removes a subscription and sends UNSUBSCRIBE; an unknown id is
    /// reported without touching the wire.
    pub fn unsubscribe(&mut self, sub_id: &Vec<u8>) -> (r: Result<(), SessionError>)
        requires
            old(self).wf(),
        ensures
            final(self).wf(),
            Self::same_counters(*old(self), *final(self)),
            Self::counters_nondecreasing(*old(self), *final(self)),
            final(self).receipt_handlers@ == old(self).receipt_handlers@,
            (if old(self).subscriptions@.contains_key(sub_id@) {
                r == Ok::<(), SessionError>(()) && final(self).subscriptions@ == old(self).subscriptions@.remove(sub_id@) && final(self).outbound@.len() == old(self).outbound@.len() + 1 && final(self).outbound@.last()@ == FrameView {
                    command: Command::Unsubscribe,
                    headers: seq![(lit_id(), sub_id@)],
                    body: Seq::<u8>::empty(),
                } && final(self).outbound@.take(old(self).outbound@.len() as int) == old(self).outbound@
            } else {
                r == Err::<(), SessionError>(SessionError::UnknownSubscription) && final(self).subscriptions@ == old(self).subscriptions@ && final(self).outbound@ == old(self).outbound@
            }),
    {
        match self.subscriptions.remove(sub_id) {
            None => Err(SessionError::UnknownSubscription),
            Some(_) => {
                let f = Frame::unsubscribe(crate::header::copy_bytes(sub_id));
                self.outbound.push(f);
                proof {
                    assert(self.outbound@.take(old(self).outbound@.len() as int) =~= old(self).outbound@);
                }
                Ok(())
            },
        }
    }

    /// Enqueues the header-less DISCONNECT frame.
    pub fn disconnect(&mut self) -> (r: Result<(), SessionError>)
        ensures
            r == Ok::<(), SessionError>(()),
            final(self).outbound@.len() == old(self).outbound@.len() + 1,
            (final(self).outbound@.last()@ == FrameView {
                command: Command::Disconnect,
                headers: Seq::<(Seq<u8>, Seq<u8>)>::empty(),
                body: Seq::<u8>::empty(),
            }),
            final(self).outbound@.take(old(self).outbound@.len() as int) == old(self).outbound@,
            final(self).subscriptions@ == old(self).subscriptions@,
            final(self).receipt_handlers@ == old(self).receipt_handlers@,
            Self::same_counters(*old(self), *final(self)),
            Self::counters_nondecreasing(*old(self), *final(self)),
            old(self).wf() ==> final(self).wf(),
    {
        let f = Frame::disconnect();
        self.outbound.push(f);
        proof {
            assert(self.outbound@.take(old(self).outbound@.len() as int) =~= old(self).outbound@);
        }
        Ok(())
    }

    /// Opens a transaction: allocates its id and enqueues BEGIN.
    pub fn begin_transaction(&mut self) -> (r: Transaction)
        requires
            old(self).next_transaction_id < u32::MAX,
        ensures
            r.id@ == dec_rep(old(self).next_transaction_id as nat),
            r.state == TransactionState::Open,
            final(self).next_transaction_id == old(self).next_transaction_id + 1,
            final(self).next_subscription_id == old(self).next_subscription_id,
            final(self).next_receipt_id == old(self).next_receipt_id,
            final(self).outbound@.len() == old(self).outbound@.len() + 1,
            (final(self).outbound@.last()@ == FrameView {
                command: Command::Begin,
                headers: seq![
                    (crate::lit::lit_transaction(), dec_rep(old(self).next_transaction_id as nat)),
                ],
                body: Seq::<u8>::empty(),
            }),
            final(self).outbound@.take(old(self).outbound@.len() as int) == old(self).outbound@,
            final(self).subscriptions@ == old(self).subscriptions@,
            final(self).receipt_handlers@ == old(self).receipt_handlers@,
            Self::counters_nondecreasing(*old(self), *final(self)),
            old(self).wf() ==> final(self).wf(),
    {
        let n = self.generate_transaction_id();
        let id = u32_to_dec(n);
        let f = Frame::begin(crate::header::copy_bytes(&id));
        self.outbound.push(f);
        proof {
            assert(self.outbound@.take(old(self).outbound@.len() as int) =~= old(self).outbound@);
        }
        Transaction { id, state: TransactionState::Open }
    }

    /// Commits an open transaction; a closed one is reported without
    /// touching the wire.
    pub fn commit_transaction(&mut self, tx: &mut Transaction) -> (r: Result<(), SessionError>)
        ensures
            Self::same_counters(*old(self), *final(self)),
            Self::counters_nondecreasing(*old(self), *final(self)),
            final(self).subscriptions@ == old(self).subscriptions@,
            final(self).receipt_handlers@ == old(self).receipt_handlers@,
            old(self).wf() ==> final(self).wf(),
            (if old(tx).state == TransactionState::Open {
                r == Ok::<(), SessionError>(()) && final(tx).state == TransactionState::Committed
                    && final(tx).id@ == old(tx).id@ && final(self).outbound@.len() == old(self).outbound@.len() + 1 && final(self).outbound@.last()@ == FrameView {
                    command: Command::Commit,
                    headers: seq![(crate::lit::lit_transaction(), old(tx).id@)],
                    body: Seq::<u8>::empty(),
                } && final(self).outbound@.take(old(self).outbound@.len() as int) == old(self).outbound@
            } else {
                r == Err::<(), SessionError>(SessionError::TransactionClosed) && *final(tx) == *old(tx) && final(self).outbound@ == old(self).outbound@
            }),
    {
        match tx.state {
            TransactionState::Open => {
                let f = Frame::commit(crate::header::copy_bytes(&tx.id));
                self.outbound.push(f);
                tx.state = TransactionState::Committed;
                proof {
                    assert(self.outbound@.take(old(self).outbound@.len() as int) =~= old(self).outbound@);
                }
                Ok(())
            },
            _ => Err(SessionError::TransactionClosed),
        }
    }

    /// Aborts an open transaction; a closed one is reported without
    /// touching the wire.
    pub fn abort_transaction(&mut self, tx: &mut Transaction) -> (r: Result<(), SessionError>)
        ensures
            Self::same_counters(*old(self), *final(self)),
            Self::counters_nondecreasing(*old(self), *final(self)),
            final(self).subscriptions@ == old(self).subscriptions@,
            final(self).receipt_handlers@ == old(self).receipt_handlers@,
            old(self).wf() ==> final(self).wf(),
            (if old(tx).state == TransactionState::Open {
                r == Ok::<(), SessionError>(()) && final(tx).state == TransactionState::Aborted
                    && final(tx).id@ == old(tx).id@ && final(self).outbound@.len() == old(self).outbound@.len() + 1 && final(self).outbound@.last()@ == FrameView {
                    command: Command::Abort,
                    headers: seq![(crate::lit::lit_transaction(), old(tx).id@)],
                    body: Seq::<u8>::empty(),
                } && final(self).outbound@.take(old(self).outbound@.len() as int) == old(self).outbound@
            } else {
                r == Err::<(), SessionError>(SessionError::TransactionClosed) && *final(tx) == *old(tx) && final(self).outbound@ == old(self).outbound@
            }),
    {
        match tx.state {
            TransactionState::Open => {
                let f = Frame::abort(crate::header::copy_bytes(&tx.id));
                self.outbound.push(f);
                tx.state = TransactionState::Aborted;
                proof {
                    assert(self.outbound@.take(old(self).outbound@.len() as int) =~= old(self).outbound@);
                }
                Ok(())
            },
            _ => Err(SessionError::TransactionClosed),
        }
    }

    /// Begins a SEND frame for `destination` with `body`.
    pub fn message(&mut self, destination: Vec<u8>, body: Vec<u8>) -> (r: MessageBuilder<R>)
        ensures
            *final(self) == *old(self),
            r.destination == destination,
            r.body == body,
            r.extra_headers@ == Seq::<Header>::empty(),
            r.suppress_content_length == false,
            r.receipt_handler is None,
    {
        let r = MessageBuilder {
            destination,
            body,
            extra_headers: Vec::new(),
            suppress_content_length: false,
            receipt_handler: None,
        };
        proof {
            assert(r.extra_headers@ =~= Seq::<Header>::empty());
        }
        r
    }

    /// Begins a subscription to `destination` handled by `handler`; the
    /// acknowledgement mode starts at Auto.
    pub fn subscription(&mut self, destination: Vec<u8>, handler: M) -> (r: SubscriptionBuilder<M>)
        ensures
            *final(self) == *old(self),
            r.destination == destination,
            r.ack_mode == AckMode::Auto,
            r.handler == handler,
            r.extra_headers@ == Seq::<Header>::empty(),
    {
        let r = SubscriptionBuilder {
            destination,
            ack_mode: AckMode::Auto,
            handler,
            extra_headers: Vec::new(),
        };
        proof {
            assert(r.extra_headers@ =~= Seq::<Header>::empty());
        }
        r
    }

    /// What `dispatch` guarantees: the transition from `pre` to `post` on
    /// inbound frame `f` with result `r`.
    pub open spec fn dispatch_post(
        pre: Self,
        f: FrameView,
        post: Self,
        r: Result<DispatchOutcome, SessionError>,
    ) -> bool {
        &&& Self::same_counters(pre, post)
        &&& post.subscriptions.wf()
        &&& post.receipt_handlers.wf()
        &&& match f.command {
            Command::Error => {
                &&& post.subscriptions@ == pre.subscriptions@
                &&& post.receipt_handlers@ == pre.receipt_handlers@
                &&& post.outbound@ == pre.outbound@
                &&& r == Ok::<DispatchOutcome, SessionError>(DispatchOutcome::ErrorDelivered)
            },
            Command::Receipt => {
                match first_match(f.headers, lit_receipt_id()) {
                    None => Self::same_tables(pre, post) && r == Err::<
                        DispatchOutcome,
                        SessionError,
                    >(SessionError::ReceiptWithoutId),
                    Some(rid) => if pre.receipt_handlers@.contains_key(rid) {
                        &&& post.receipt_handlers@ == pre.receipt_handlers@.remove(rid)
                        &&& post.subscriptions@ == pre.subscriptions@
                        &&& post.outbound@ == pre.outbound@
                        &&& r == Ok::<DispatchOutcome, SessionError>(DispatchOutcome::ReceiptFired)
                    } else {
                        Self::same_tables(pre, post) && r == Err::<DispatchOutcome, SessionError>(
                            SessionError::UnknownReceipt,
                        )
                    },
                }
            },
            Command::Message => {
                match first_match(f.headers, lit_subscription()) {
                    None => Self::same_tables(pre, post) && r == Err::<
                        DispatchOutcome,
                        SessionError,
                    >(SessionError::MessageWithoutSubscription),
                    Some(sid) => if !pre.subscriptions@.contains_key(sid) {
                        Self::same_tables(pre, post) && r == Err::<DispatchOutcome, SessionError>(
                            SessionError::UnknownSubscription,
                        )
                    } else {
                        &&& post.receipt_handlers@ == pre.receipt_handlers@
                        &&& post.subscriptions@.dom() == pre.subscriptions@.dom()
                        &&& forall|k: Seq<u8>|
                            pre.subscriptions@.contains_key(k) && k != sid
                                ==> post.subscriptions@[k] == pre.subscriptions@[k]
                        &&& post.subscriptions@[sid].destination@
                            == pre.subscriptions@[sid].destination@
                        &&& post.subscriptions@[sid].ack_mode == pre.subscriptions@[sid].ack_mode
                        &&& match pre.subscriptions@[sid].ack_mode {
                            AckMode::Auto => post.outbound@ == pre.outbound@ && (r == Ok::<
                                DispatchOutcome,
                                SessionError,
                            >(DispatchOutcome::MessageDelivered(AckOrNack::Ack)) || r == Ok::<
                                DispatchOutcome,
                                SessionError,
                            >(DispatchOutcome::MessageDelivered(AckOrNack::Nack))),
                            _ => match first_match(f.headers, lit_ack()) {
                                None => post.outbound@ == pre.outbound@ && r == Err::<
                                    DispatchOutcome,
                                    SessionError,
                                >(SessionError::MessageWithoutAck),
                                Some(aid) => {
                                    &&& (post.outbound@ == pre.outbound@.push(
                                        post.outbound@.last(),
                                    ))
                                    &&& ((r == Ok::<DispatchOutcome, SessionError>(
                                        DispatchOutcome::MessageDelivered(AckOrNack::Ack),
                                    ) && post.outbound@.last()@ == ack_frame_view(aid)) || (r
                                        == Ok::<DispatchOutcome, SessionError>(
                                        DispatchOutcome::MessageDelivered(AckOrNack::Nack),
                                    ) && post.outbound@.last()@ == nack_frame_view(aid)))
                                },
                            },
                        }
                    },
                }
            },
            _ => Self::same_tables(pre, post) && r == Err::<DispatchOutcome, SessionError>(
                SessionError::UnexpectedCommand,
            ),
        }
    }

    /// Routes one inbound frame: ERROR to the error callback; RECEIPT to the
    /// matching one-shot handler, which is removed before it runs; MESSAGE to
    /// its subscription's handler. In Client modes the handler's verdict,
    /// which the outcome carries, decides whether ACK or NACK is enqueued
    /// with the frame's `ack` value. Anything else is a protocol error.
    pub fn dispatch(&mut self, frame: Frame) -> (r: Result<DispatchOutcome, SessionError>)
        requires
            old(self).wf(),
        ensures
            Self::dispatch_post(*old(self), frame@, *final(self), r),
            Self::counters_nondecreasing(*old(self), *final(self)),
            final(self).wf(),
    {
        let ghost pre = *self;
        match frame.command {
            Command::Error => {
                self.error_callback.on_frame(&frame);
                Ok(DispatchOutcome::ErrorDelivered)
            },
            Command::Receipt => {
                match frame.headers.get_first(&name_receipt_id()) {
                    None => Err(SessionError::ReceiptWithoutId),
                    Some(rid) => {
                        match self.receipt_handlers.remove(&rid) {
                            None => Err(SessionError::UnknownReceipt),
                            Some(mut h) => {
                                h.on_frame(&frame);
                                Ok(DispatchOutcome::ReceiptFired)
                            },
                        }
                    },
                }
            },
            Command::Message => {
                match frame.headers.get_first(&name_subscription()) {
                    None => Err(SessionError::MessageWithoutSubscription),
                    Some(sid) => {
                        match self.subscriptions.remove(&sid) {
                            None => Err(SessionError::UnknownSubscription),
                            Some(mut sub) => {
                                let verdict = sub.handler.on_message(&frame);
                                let ack_mode = sub.ack_mode;
                                let ghost sidv = sid@;
                                self.subscriptions.insert(sid, sub);
                                proof {
                                    assert(self.subscriptions@.dom()
                                        =~= pre.subscriptions@.dom());
                                }
                                match ack_mode {
                                    AckMode::Auto => Ok(DispatchOutcome::MessageDelivered(verdict)),
                                    _ => {
                                        match frame.headers.get_first(&name_ack()) {
                                            None => Err(SessionError::MessageWithoutAck),
                                            Some(aid) => {
                                                let ghost aidv = aid@;
                                                let out = match verdict {
                                                    AckOrNack::Ack => Frame::ack(aid),
                                                    AckOrNack::Nack => Frame::nack(aid),
                                                };
                                                self.outbound.push(out);
                                                Ok(DispatchOutcome::MessageDelivered(verdict))
                                            },
                                        }
                                    },
                                }
                            },
                        }
                    },
                }
            },
            _ => Err(SessionError::UnexpectedCommand),
        }
    }

    /// What `listen` guarantees: the frames were dispatched in order, each
    /// step a `dispatch` transition, stopping at the first protocol error,
    /// which is the reported cause of exit.
    pub open spec fn listen_rel(
        pre: Self,
        frames: Seq<Frame>,
        post: Self,
        r: Result<(), SessionError>,
    ) -> bool
        decreases frames.len(),
    {
        if frames.len() == 0 {
            post == pre && r == Ok::<(), SessionError>(())
        } else {
            exists|mid: Self, r0: Result<DispatchOutcome, SessionError>|
                {
                    &&& #[trigger] Self::dispatch_post(pre, frames[0]@, mid, r0)
                    &&& match r0 {
                        Ok(_) => Self::listen_rel(mid, frames.skip(1), post, r),
                        Err(e) => post == mid && r == Err::<(), SessionError>(e),
                    }
                }
        }
    }

    /// Dispatches a batch of inbound frames in order, stopping at the first
    /// protocol error, which it reports as `listen`'s cause of exit.
    pub fn listen(&mut self, inbound: Vec<Frame>) -> (r: Result<(), SessionError>)
        requires
            old(self).wf(),
        ensures
            final(self).wf(),
            Self::counters_nondecreasing(*old(self), *final(self)),
            Self::listen_rel(*old(self), inbound@, *final(self), r),
    {
        let mut frames = inbound;
        let mut i: usize = 0;
        let n = frames.len();
        while i < n
            invariant
                self.wf(),
                i <= n,
                n == inbound@.len(),
                frames@.len() + i == n,
                frames@ =~= inbound@.skip(i as int),
                Self::counters_nondecreasing(*old(self), *self),
                forall|q: Self, rr: Result<(), SessionError>|
                    #[trigger] Self::listen_rel(*self, inbound@.skip(i as int), q, rr)
                        ==> Self::listen_rel(*old(self), inbound@, q, rr),
            decreases n - i,
        {
            let ghost cur = *self;
            let ghost rem = inbound@.skip(i as int);
            let f = frames.remove(0);
            assert(f == rem[0]);
            let r0 = self.dispatch(f);
            let ghost next = *self;
            match r0 {
                Ok(_) => {},
                Err(e) => {
                    proof {
                        assert(Self::dispatch_post(cur, rem[0]@, next, r0));
                        assert(Self::listen_rel(cur, rem, next, Err(e)));
                    }
                    return Err(e);
                },
            }
            proof {
                assert(Self::dispatch_post(cur, rem[0]@, next, r0));
                assert(inbound@.skip(i + 1) =~= rem.skip(1));
                assert forall|q: Self, rr: Result<(), SessionError>|
                    #[trigger] Self::listen_rel(next, rem.skip(1), q, rr) implies Self::listen_rel(
                    *old(self),
                    inbound@,
                    q,
                    rr,
                ) by {
                    assert(Self::listen_rel(cur, rem, q, rr));
                }
            }
            i = i + 1;
        }
        proof {
            assert(inbound@.skip(n as int).len() == 0);
            assert(Self::listen_rel(*self, inbound@.skip(n as int), *self, Ok(())));
        }
        Ok(())
    }
}

/// Issued identifiers are strictly increasing per counter and never repeat:
/// if one id is drawn when a counter stands at `id1`, the counter moves past
/// it, never decreases, and a later draw `id2` is therefore strictly larger,
/// with a distinct decimal representation.
pub proof fn lemma_issued_ids_increase(id1: u32, after1: u32, before2: u32, id2: u32)
    requires
        id1 < u32::MAX,
        after1 == id1 + 1,
        after1 <= before2,
        id2 == before2,
    ensures
        id1 < id2,
        dec_rep(id1 as nat) != dec_rep(id2 as nat),
{
    lemma_dec_rep_injective(id1 as nat, id2 as nat);
}

/// The header list of a SEND frame: `destination`, `content-length` unless
/// suppressed, the caller's extra headers in order, and `receipt` when one
/// was requested.
pub open spec fn send_headers(
    dest: Seq<u8>,
    body_len: nat,
    suppress: bool,
    extras: Seq<(Seq<u8>, Seq<u8>)>,
    rid: Option<Seq<u8>>,
) -> Seq<(Seq<u8>, Seq<u8>)> {
    seq![(crate::lit::lit_destination(), dest)] + (if suppress {
        Seq::<(Seq<u8>, Seq<u8>)>::empty()
    } else {
        seq![(crate::lit::lit_content_length(), dec_rep(body_len))]
    }) + extras + (match rid {
        Option::None => Seq::<(Seq<u8>, Seq<u8>)>::empty(),
        Option::Some(r) => seq![(crate::lit::lit_receipt(), r)],
    })
}

/// The header list of a SUBSCRIBE frame: `id`, `destination`, `ack`, then
/// the caller's extra headers in order.
pub open spec fn subscribe_headers(
    id: Seq<u8>,
    dest: Seq<u8>,
    mode: AckMode,
    extras: Seq<(Seq<u8>, Seq<u8>)>,
) -> Seq<(Seq<u8>, Seq<u8>)> {
    seq![
        (lit_id(), id),
        (crate::lit::lit_destination(), dest),
        (lit_ack(), crate::subscription::ack_mode_lit(mode)),
    ] + extras
}

/// A fluent constructor for one SEND frame.
pub struct MessageBuilder<R: FrameHandler> {
    pub destination: Vec<u8>,
    pub body: Vec<u8>,
    pub extra_headers: Vec<Header>,
    pub suppress_content_length: bool,
    pub receipt_handler: Option<R>,
}

impl<R: FrameHandler> MessageBuilder<R> {
    /// Appends a raw header.
    pub fn with_header(self, name: Vec<u8>, value: Vec<u8>) -> (r: MessageBuilder<R>)
        ensures
            r.destination == self.destination,
            r.body == self.body,
            r.extra_headers.deep_view() == self.extra_headers.deep_view().push((name@, value@)),
            r.suppress_content_length == self.suppress_content_length,
            r.receipt_handler == self.receipt_handler,
    {
        let mut b = self;
        let ghost pre = b.extra_headers.deep_view();
        b.extra_headers.push(Header::new_raw(name, value));
        proof {
            assert(b.extra_headers.deep_view() =~= pre.push((name@, value@)));
        }
        b
    }

    /// Sets `content-type`.
    pub fn with_content_type(self, value: Vec<u8>) -> (r: MessageBuilder<R>)
        ensures
            r.destination == self.destination,
            r.body == self.body,
            r.extra_headers.deep_view() == self.extra_headers.deep_view().push(
                (crate::lit::lit_content_type(), value@),
            ),
            r.suppress_content_length == self.suppress_content_length,
            r.receipt_handler == self.receipt_handler,
    {
        self.with_header(crate::lit::name_content_type(), value)
    }

    /// Omits the default `content-length` header.
    pub fn with_suppressed_content_length(self) -> (r: MessageBuilder<R>)
        ensures
            r.destination == self.destination,
            r.body == self.body,
            r.extra_headers == self.extra_headers,
            r.suppress_content_length == true,
            r.receipt_handler == self.receipt_handler,
    {
        let mut b = self;
        b.suppress_content_length = true;
        b
    }

    /// Asks for a broker receipt, handled once by `handler`.
    pub fn with_receipt(self, handler: R) -> (r: MessageBuilder<R>)
        ensures
            r.destination == self.destination,
            r.body == self.body,
            r.extra_headers == self.extra_headers,
            r.suppress_content_length == self.suppress_content_length,
            r.receipt_handler == Some(handler),
    {
        let mut b = self;
        b.receipt_handler = Some(handler);
        b
    }

    /// Builds the SEND frame and enqueues it. With a receipt requested, the
    /// next receipt id is issued, the handler recorded under it before the
    /// frame is enqueued, and the id returned.
    pub fn send<E: FrameHandler, M: MessageHandler>(
        self,
        session: &mut Session<E, R, M>,
    ) -> (r: Option<Vec<u8>>)
        requires
            old(session).wf(),
            self.body@.len() <= u32::MAX,
            self.receipt_handler is Some ==> old(session).next_receipt_id < u32::MAX,
        ensures
            final(session).wf(),
            Session::<E, R, M>::counters_nondecreasing(*old(session), *final(session)),
            final(session).subscriptions@ == old(session).subscriptions@,
            final(session).next_transaction_id == old(session).next_transaction_id,
            final(session).next_subscription_id == old(session).next_subscription_id,
            final(session).outbound@.len() == old(session).outbound@.len() + 1,
            final(session).outbound@.take(old(session).outbound@.len() as int) == old(
                session,
            ).outbound@,
            (match self.receipt_handler {
                Option::None => {
                    &&& r is None
                    &&& final(session).receipt_handlers@ == old(session).receipt_handlers@
                    &&& final(session).next_receipt_id == old(session).next_receipt_id
                    &&& final(session).outbound@.last()@ == (FrameView {
                        command: Command::Send,
                        headers: send_headers(
                            self.destination@,
                            self.body@.len() as nat,
                            self.suppress_content_length,
                            self.extra_headers.deep_view(),
                            Option::None,
                        ),
                        body: self.body@,
                    })
                },
                Option::Some(h) => {
                    &&& r matches Some(rv) && rv@ == dec_rep(old(session).next_receipt_id as nat)
                        && final(session).receipt_handlers@ == old(
                        session,
                    ).receipt_handlers@.insert(rv@, h) && final(session).outbound@.last()@ == (
                    FrameView {
                        command: Command::Send,
                        headers: send_headers(
                            self.destination@,
                            self.body@.len() as nat,
                            self.suppress_content_length,
                            self.extra_headers.deep_view(),
                            Option::Some(rv@),
                        ),
                        body: self.body@,
                    })
                    &&& final(session).next_receipt_id == old(session).next_receipt_id + 1
                },
            }),
    {
        let MessageBuilder {
            destination,
            body,
            extra_headers,
            suppress_content_length,
            receipt_handler,
        } = self;
        let ghost extrasv = extra_headers.deep_view();
        let ghost destv = destination@;
        let mut headers = HeaderList::new();
        headers.push(Header::new_raw(crate::lit::name_destination(), destination));
        if !suppress_content_length {
            let len32: u32 = body.len() as u32;
            headers.push(
                Header::new_raw(crate::lit::name_content_length(), u32_to_dec(len32)),
            );
        }
        headers.append(extra_headers);
        let mut rid: Option<Vec<u8>> = None;
        match receipt_handler {
            None => {},
            Some(h) => {
                let n = session.generate_receipt_id();
                let idv = u32_to_dec(n);
                headers.push(
                    Header::new_raw(crate::lit::name_receipt(), crate::header::copy_bytes(&idv)),
                );
                session.receipt_handlers.set(crate::header::copy_bytes(&idv), h);
                rid = Some(idv);
            },
        }
        let f = Frame { command: Command::Send, headers, body };
        let ghost fv = f@;
        session.outbound.push(f);
        proof {
            assert(session.outbound@.take(old(session).outbound@.len() as int) =~= old(
                session,
            ).outbound@);
            match &rid {
                Option::None => {
                    assert(fv.headers =~= send_headers(
                        destv,
                        fv.body.len() as nat,
                        suppress_content_length,
                        extrasv,
                        Option::<Seq<u8>>::None,
                    ));
                },
                Option::Some(x) => {
                    assert(fv.headers =~= send_headers(
                        destv,
                        fv.body.len() as nat,
                        suppress_content_length,
                        extrasv,
                        Option::Some(x@),
                    ));
                },
            }
        }
        rid
    }
}

/// A fluent constructor for one subscription.
pub struct SubscriptionBuilder<M: MessageHandler> {
    pub destination: Vec<u8>,
    pub ack_mode: AckMode,
    pub handler: M,
    pub extra_headers: Vec<Header>,
}

impl<M: MessageHandler> SubscriptionBuilder<M> {
    /// Sets the acknowledgement mode.
    pub fn with_ack_mode(self, mode: AckMode) -> (r: SubscriptionBuilder<M>)
        ensures
            r.destination == self.destination,
            r.ack_mode == mode,
            r.handler == self.handler,
            r.extra_headers == self.extra_headers,
    {
        let mut b = self;
        b.ack_mode = mode;
        b
    }

    /// Appends a raw header.
    pub fn with_header(self, name: Vec<u8>, value: Vec<u8>) -> (r: SubscriptionBuilder<M>)
        ensures
            r.destination == self.destination,
            r.ack_mode == self.ack_mode,
            r.handler == self.handler,
            r.extra_headers.deep_view() == self.extra_headers.deep_view().push((name@, value@)),
    {
        let mut b = self;
        let ghost pre = b.extra_headers.deep_view();
        b.extra_headers.push(Header::new_raw(name, value));
        proof {
            assert(b.extra_headers.deep_view() =~= pre.push((name@, value@)));
        }
        b
    }

    /// Issues the next subscription id, records the handler under it before
    /// the frame is enqueued, enqueues SUBSCRIBE, and returns the id.
    pub fn start<E: FrameHandler, R: FrameHandler>(
        self,
        session: &mut Session<E, R, M>,
    ) -> (r: Vec<u8>)
        requires
            old(session).wf(),
            old(session).next_subscription_id < u32::MAX,
        ensures
            final(session).wf(),
            Session::<E, R, M>::counters_nondecreasing(*old(session), *final(session)),
            r@ == dec_rep(old(session).next_subscription_id as nat),
            final(session).next_subscription_id == old(session).next_subscription_id + 1,
            final(session).next_transaction_id == old(session).next_transaction_id,
            final(session).next_receipt_id == old(session).next_receipt_id,
            final(session).receipt_handlers@ == old(session).receipt_handlers@,
            final(session).subscriptions@.contains_key(r@),
            final(session).subscriptions@[r@].destination@ == self.destination@,
            final(session).subscriptions@[r@].ack_mode == self.ack_mode,
            final(session).subscriptions@[r@].handler == self.handler,
            final(session).subscriptions@ == old(session).subscriptions@.insert(
                r@,
                final(session).subscriptions@[r@],
            ),
            final(session).outbound@.len() == old(session).outbound@.len() + 1,
            final(session).outbound@.take(old(session).outbound@.len() as int) == old(
                session,
            ).outbound@,
            (final(session).outbound@.last()@ == FrameView {
                command: Command::Subscribe,
                headers: subscribe_headers(
                    r@,
                    self.destination@,
                    self.ack_mode,
                    self.extra_headers.deep_view(),
                ),
                body: Seq::<u8>::empty(),
            }),
    {
        let SubscriptionBuilder { destination, ack_mode, handler, extra_headers } = self;
        let ghost extrasv = extra_headers.deep_view();
        let ghost destv = destination@;
        let n = session.generate_subscription_id();
        let idv = u32_to_dec(n);
        let sub = Subscription {
            destination: crate::header::copy_bytes(&destination),
            ack_mode,
            handler,
        };
        session.subscriptions.set(crate::header::copy_bytes(&idv), sub);
        let mut headers = HeaderList::new();
        headers.push(Header::new_raw(crate::lit::name_id(), crate::header::copy_bytes(&idv)));
        headers.push(Header::new_raw(crate::lit::name_destination(), destination));
        headers.push(
            Header::new_raw(crate::lit::name_ack(), crate::subscription::ack_mode_bytes(ack_mode)),
        );
        headers.append(extra_headers);
        let f = Frame { command: Command::Subscribe, headers, body: Vec::new() };
        let ghost fv = f@;
        session.outbound.push(f);
        proof {
            assert(session.outbound@.take(old(session).outbound@.len() as int) =~= old(
                session,
            ).outbound@);
            assert(fv.headers =~= subscribe_headers(
                dec_rep(old(session).next_subscription_id as nat),
                destv,
                ack_mode,
                extrasv,
            ));
            assert(fv.body =~= Seq::<u8>::empty());
        }
        idv
    }
}

/// A receipt handler fires at most once: once `dispatch` has fired it, the
/// handler is gone from the table, and a second RECEIPT with the same id is
/// a protocol error.
pub proof fn lemma_receipt_fires_at_most_once<
    E: FrameHandler,
    R: FrameHandler,
    M: MessageHandler,
>(
    pre: Session<E, R, M>,
    f: FrameView,
    mid: Session<E, R, M>,
    post: Session<E, R, M>,
    r2: Result<DispatchOutcome, SessionError>,
)
    requires
        f.command == Command::Receipt,
        Session::<E, R, M>::dispatch_post(
            pre,
            f,
            mid,
            Ok::<DispatchOutcome, SessionError>(DispatchOutcome::ReceiptFired),
        ),
        Session::<E, R, M>::dispatch_post(mid, f, post, r2),
    ensures
        r2 == Err::<DispatchOutcome, SessionError>(SessionError::UnknownReceipt),
{
    match first_match(f.headers, lit_receipt_id()) {
        Option::None => {
            assert(false);
        },
        Option::Some(rid) => {
            assert(pre.receipt_handlers@.contains_key(rid));
            assert(mid.receipt_handlers@ == pre.receipt_handlers@.remove(rid));
            assert(!mid.receipt_handlers@.contains_key(rid));
        },
    }
}

} // verus!

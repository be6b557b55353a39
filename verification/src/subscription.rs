//! Subscriptions: acknowledgement modes, the message handler shape, and the
//! per-subscription record the session keeps.

use vstd::prelude::*;

use crate::frame::Frame;
use crate::lit::lit_auto;
use crate::lit::lit_client;
use crate::lit::lit_client_individual;
use crate::lit::name_auto;
use crate::lit::name_client;
use crate::lit::name_client_individual;

verus! {

/// Whether and how the client acknowledges each delivered message.
#[derive(Clone, Copy, PartialEq, Eq, Structural, Debug)]
pub enum AckMode {
    Auto,
    Client,
    ClientIndividual,
}

/// What a message handler asks the session to send back.
#[derive(Clone, Copy, PartialEq, Eq, Structural, Debug)]
pub enum AckOrNack {
    Ack,
    Nack,
}

/// A handler for MESSAGE frames delivered to one subscription. The session
/// calls it once per delivered frame and sends ACK or NACK as it answers.
pub trait MessageHandler {
    fn on_message(&mut self, frame: &Frame) -> AckOrNack;
}

/// The wire value of an acknowledgement mode.
pub open spec fn ack_mode_lit(m: AckMode) -> Seq<u8> {
    match m {
        AckMode::Auto => lit_auto(),
        AckMode::Client => lit_client(),
        AckMode::ClientIndividual => lit_client_individual(),
    }
}

/// Writes the wire value of an acknowledgement mode.
pub fn ack_mode_bytes(m: AckMode) -> (r: Vec<u8>)
    ensures
        r@ == ack_mode_lit(m),
{
    match m {
        AckMode::Auto => name_auto(),
        AckMode::Client => name_client(),
        AckMode::ClientIndividual => name_client_individual(),
    }
}

/// What the session keeps per subscription.
pub struct Subscription<M> {
    pub destination: Vec<u8>,
    pub ack_mode: AckMode,
    pub handler: M,
}

} // verus!

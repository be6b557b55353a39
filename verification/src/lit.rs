//! The byte-string literals of the protocol: header names, acknowledgement
//! modes and the protocol version.

use vstd::prelude::*;

verus! {

/// The bytes of `destination`.
pub open spec fn lit_destination() -> Seq<u8> {
    seq![100u8, 101, 115, 116, 105, 110, 97, 116, 105, 111, 110]
}

/// Writes the bytes of `destination`.
pub fn name_destination() -> (r: Vec<u8>)
    ensures
        r@ == lit_destination(),
{
    let r: Vec<u8> = vec![100u8, 101, 115, 116, 105, 110, 97, 116, 105, 111, 110];
    proof {
        assert(r@ =~= lit_destination());
    }
    r
}

/// The bytes of `content-length`.
pub open spec fn lit_content_length() -> Seq<u8> {
    seq![99u8, 111, 110, 116, 101, 110, 116, 45, 108, 101, 110, 103, 116, 104]
}

/// Writes the bytes of `content-length`.
pub fn name_content_length() -> (r: Vec<u8>)
    ensures
        r@ == lit_content_length(),
{
    let r: Vec<u8> = vec![99u8, 111, 110, 116, 101, 110, 116, 45, 108, 101, 110, 103, 116, 104];
    proof {
        assert(r@ =~= lit_content_length());
    }
    r
}

/// The bytes of `id`.
pub open spec fn lit_id() -> Seq<u8> {
    seq![105u8, 100]
}

/// Writes the bytes of `id`.
pub fn name_id() -> (r: Vec<u8>)
    ensures
        r@ == lit_id(),
{
    let r: Vec<u8> = vec![105u8, 100];
    proof {
        assert(r@ =~= lit_id());
    }
    r
}

/// The bytes of `ack`.
pub open spec fn lit_ack() -> Seq<u8> {
    seq![97u8, 99, 107]
}

/// Writes the bytes of `ack`.
pub fn name_ack() -> (r: Vec<u8>)
    ensures
        r@ == lit_ack(),
{
    let r: Vec<u8> = vec![97u8, 99, 107];
    proof {
        assert(r@ =~= lit_ack());
    }
    r
}

/// The bytes of `subscription`.
pub open spec fn lit_subscription() -> Seq<u8> {
    seq![115u8, 117, 98, 115, 99, 114, 105, 112, 116, 105, 111, 110]
}

/// Writes the bytes of `subscription`.
pub fn name_subscription() -> (r: Vec<u8>)
    ensures
        r@ == lit_subscription(),
{
    let r: Vec<u8> = vec![115u8, 117, 98, 115, 99, 114, 105, 112, 116, 105, 111, 110];
    proof {
        assert(r@ =~= lit_subscription());
    }
    r
}

/// The bytes of `receipt`.
pub open spec fn lit_receipt() -> Seq<u8> {
    seq![114u8, 101, 99, 101, 105, 112, 116]
}

/// Writes the bytes of `receipt`.
pub fn name_receipt() -> (r: Vec<u8>)
    ensures
        r@ == lit_receipt(),
{
    let r: Vec<u8> = vec![114u8, 101, 99, 101, 105, 112, 116];
    proof {
        assert(r@ =~= lit_receipt());
    }
    r
}

/// The bytes of `receipt-id`.
pub open spec fn lit_receipt_id() -> Seq<u8> {
    seq![114u8, 101, 99, 101, 105, 112, 116, 45, 105, 100]
}

/// Writes the bytes of `receipt-id`.
pub fn name_receipt_id() -> (r: Vec<u8>)
    ensures
        r@ == lit_receipt_id(),
{
    let r: Vec<u8> = vec![114u8, 101, 99, 101, 105, 112, 116, 45, 105, 100];
    proof {
        assert(r@ =~= lit_receipt_id());
    }
    r
}

/// The bytes of `transaction`.
pub open spec fn lit_transaction() -> Seq<u8> {
    seq![116u8, 114, 97, 110, 115, 97, 99, 116, 105, 111, 110]
}

/// Writes the bytes of `transaction`.
pub fn name_transaction() -> (r: Vec<u8>)
    ensures
        r@ == lit_transaction(),
{
    let r: Vec<u8> = vec![116u8, 114, 97, 110, 115, 97, 99, 116, 105, 111, 110];
    proof {
        assert(r@ =~= lit_transaction());
    }
    r
}

/// The bytes of `heart-beat`.
pub open spec fn lit_heart_beat() -> Seq<u8> {
    seq![104u8, 101, 97, 114, 116, 45, 98, 101, 97, 116]
}

/// Writes the bytes of `heart-beat`.
pub fn name_heart_beat() -> (r: Vec<u8>)
    ensures
        r@ == lit_heart_beat(),
{
    let r: Vec<u8> = vec![104u8, 101, 97, 114, 116, 45, 98, 101, 97, 116];
    proof {
        assert(r@ =~= lit_heart_beat());
    }
    r
}

/// The bytes of `host`.
pub open spec fn lit_host() -> Seq<u8> {
    seq![104u8, 111, 115, 116]
}

/// Writes the bytes of `host`.
pub fn name_host() -> (r: Vec<u8>)
    ensures
        r@ == lit_host(),
{
    let r: Vec<u8> = vec![104u8, 111, 115, 116];
    proof {
        assert(r@ =~= lit_host());
    }
    r
}

/// The bytes of `login`.
pub open spec fn lit_login() -> Seq<u8> {
    seq![108u8, 111, 103, 105, 110]
}

/// Writes the bytes of `login`.
pub fn name_login() -> (r: Vec<u8>)
    ensures
        r@ == lit_login(),
{
    let r: Vec<u8> = vec![108u8, 111, 103, 105, 110];
    proof {
        assert(r@ =~= lit_login());
    }
    r
}

/// The bytes of `passcode`.
pub open spec fn lit_passcode() -> Seq<u8> {
    seq![112u8, 97, 115, 115, 99, 111, 100, 101]
}

/// Writes the bytes of `passcode`.
pub fn name_passcode() -> (r: Vec<u8>)
    ensures
        r@ == lit_passcode(),
{
    let r: Vec<u8> = vec![112u8, 97, 115, 115, 99, 111, 100, 101];
    proof {
        assert(r@ =~= lit_passcode());
    }
    r
}

/// The bytes of `accept-version`.
pub open spec fn lit_accept_version() -> Seq<u8> {
    seq![97u8, 99, 99, 101, 112, 116, 45, 118, 101, 114, 115, 105, 111, 110]
}

/// Writes the bytes of `accept-version`.
pub fn name_accept_version() -> (r: Vec<u8>)
    ensures
        r@ == lit_accept_version(),
{
    let r: Vec<u8> = vec![97u8, 99, 99, 101, 112, 116, 45, 118, 101, 114, 115, 105, 111, 110];
    proof {
        assert(r@ =~= lit_accept_version());
    }
    r
}

/// The bytes of `content-type`.
pub open spec fn lit_content_type() -> Seq<u8> {
    seq![99u8, 111, 110, 116, 101, 110, 116, 45, 116, 121, 112, 101]
}

/// Writes the bytes of `content-type`.
pub fn name_content_type() -> (r: Vec<u8>)
    ensures
        r@ == lit_content_type(),
{
    let r: Vec<u8> = vec![99u8, 111, 110, 116, 101, 110, 116, 45, 116, 121, 112, 101];
    proof {
        assert(r@ =~= lit_content_type());
    }
    r
}

/// The bytes of `auto`.
pub open spec fn lit_auto() -> Seq<u8> {
    seq![97u8, 117, 116, 111]
}

/// Writes the bytes of `auto`.
pub fn name_auto() -> (r: Vec<u8>)
    ensures
        r@ == lit_auto(),
{
    let r: Vec<u8> = vec![97u8, 117, 116, 111];
    proof {
        assert(r@ =~= lit_auto());
    }
    r
}

/// The bytes of `client`.
pub open spec fn lit_client() -> Seq<u8> {
    seq![99u8, 108, 105, 101, 110, 116]
}

/// Writes the bytes of `client`.
pub fn name_client() -> (r: Vec<u8>)
    ensures
        r@ == lit_client(),
{
    let r: Vec<u8> = vec![99u8, 108, 105, 101, 110, 116];
    proof {
        assert(r@ =~= lit_client());
    }
    r
}

/// The bytes of `client-individual`.
pub open spec fn lit_client_individual() -> Seq<u8> {
    seq![99u8, 108, 105, 101, 110, 116, 45, 105, 110, 100, 105, 118, 105, 100, 117, 97, 108]
}

/// Writes the bytes of `client-individual`.
pub fn name_client_individual() -> (r: Vec<u8>)
    ensures
        r@ == lit_client_individual(),
{
    let r: Vec<u8> = vec![99u8, 108, 105, 101, 110, 116, 45, 105, 110, 100, 105, 118, 105, 100, 117, 97, 108];
    proof {
        assert(r@ =~= lit_client_individual());
    }
    r
}

/// The bytes of `1.2`.
pub open spec fn lit_version_12() -> Seq<u8> {
    seq![49u8, 46, 50]
}

/// Writes the bytes of `1.2`.
pub fn name_version_12() -> (r: Vec<u8>)
    ensures
        r@ == lit_version_12(),
{
    let r: Vec<u8> = vec![49u8, 46, 50];
    proof {
        assert(r@ =~= lit_version_12());
    }
    r
}

} // verus!
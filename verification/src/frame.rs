//! Frame model: protocol commands, frames, transmissions, canonical
//! serialization, and the constructors for each client command.

use vstd::prelude::*;

use crate::header::dec_rep;
use crate::header::escape;
use crate::header::u32_to_dec;
use crate::header::Header;
use crate::header::HeaderList;
use crate::lit::lit_ack;
use crate::lit::lit_content_length;
use crate::lit::lit_destination;
use crate::lit::lit_id;
use crate::lit::lit_transaction;
use crate::lit::name_ack;
use crate::lit::name_content_length;
use crate::lit::name_destination;
use crate::lit::name_id;
use crate::lit::name_transaction;

verus! {

/// The commands of the wire protocol, client- and server-originated.
#[derive(Clone, Copy, PartialEq, Eq, Structural, Debug)]
pub enum Command {
    Connected,
    Connect,
    Send,
    Subscribe,
    Unsubscribe,
    Ack,
    Nack,
    Begin,
    Commit,
    Abort,
    Disconnect,
    Message,
    Receipt,
    Error,
}

/// The wire token of each command.
pub open spec fn cmd_bytes(c: Command) -> Seq<u8> {
    match c {
        Command::Connected => seq![67u8, 79, 78, 78, 69, 67, 84, 69, 68],
        Command::Connect => seq![67u8, 79, 78, 78, 69, 67, 84],
        Command::Send => seq![83u8, 69, 78, 68],
        Command::Subscribe => seq![83u8, 85, 66, 83, 67, 82, 73, 66, 69],
        Command::Unsubscribe => seq![85u8, 78, 83, 85, 66, 83, 67, 82, 73, 66, 69],
        Command::Ack => seq![65u8, 67, 75],
        Command::Nack => seq![78u8, 65, 67, 75],
        Command::Begin => seq![66u8, 69, 71, 73, 78],
        Command::Commit => seq![67u8, 79, 77, 77, 73, 84],
        Command::Abort => seq![65u8, 66, 79, 82, 84],
        Command::Disconnect => seq![68u8, 73, 83, 67, 79, 78, 78, 69, 67, 84],
        Command::Message => seq![77u8, 69, 83, 83, 65, 71, 69],
        Command::Receipt => seq![82u8, 69, 67, 69, 73, 80, 84],
        Command::Error => seq![69u8, 82, 82, 79, 82],
    }
}

/// Writes the wire token of a command.
pub fn cmd_bytes_vec(c: Command) -> (r: Vec<u8>)
    ensures
        r@ == cmd_bytes(c),
{
    let r: Vec<u8> = match c {
        Command::Connected => vec![67u8, 79, 78, 78, 69, 67, 84, 69, 68],
        Command::Connect => vec![67u8, 79, 78, 78, 69, 67, 84],
        Command::Send => vec![83u8, 69, 78, 68],
        Command::Subscribe => vec![83u8, 85, 66, 83, 67, 82, 73, 66, 69],
        Command::Unsubscribe => vec![85u8, 78, 83, 85, 66, 83, 67, 82, 73, 66, 69],
        Command::Ack => vec![65u8, 67, 75],
        Command::Nack => vec![78u8, 65, 67, 75],
        Command::Begin => vec![66u8, 69, 71, 73, 78],
        Command::Commit => vec![67u8, 79, 77, 77, 73, 84],
        Command::Abort => vec![65u8, 66, 79, 82, 84],
        Command::Disconnect => vec![68u8, 73, 83, 67, 79, 78, 78, 69, 67, 84],
        Command::Message => vec![77u8, 69, 83, 83, 65, 71, 69],
        Command::Receipt => vec![82u8, 69, 67, 69, 73, 80, 84],
        Command::Error => vec![69u8, 82, 82, 79, 82],
    };
    proof {
        assert(r@ =~= cmd_bytes(c));
    }
    r
}


// ---------------------------------------------------------------------------
// Frames and transmissions
// ---------------------------------------------------------------------------

/// The mathematical shape of a frame.
pub ghost struct FrameView {
    pub command: Command,
    pub headers: Seq<(Seq<u8>, Seq<u8>)>,
    pub body: Seq<u8>,
}

/// A frame: a command, an ordered header list, and an opaque body.
#[derive(PartialEq, Eq, Debug)]
pub struct Frame {
    pub command: Command,
    pub headers: HeaderList,
    pub body: Vec<u8>,
}

impl View for Frame {
    type V = FrameView;

    open spec fn view(&self) -> FrameView {
        FrameView { command: self.command, headers: self.headers@, body: self.body@ }
    }
}

/// The mathematical shape of a transmission.
pub ghost enum TransmissionView {
    HeartBeat,
    CompleteFrame(FrameView),
}

/// One unit of the wire stream: a heartbeat or a complete frame.
#[derive(PartialEq, Eq, Debug)]
pub enum Transmission {
    HeartBeat,
    CompleteFrame(Frame),
}

impl View for Transmission {
    type V = TransmissionView;

    open spec fn view(&self) -> TransmissionView {
        match self {
            Transmission::HeartBeat => TransmissionView::HeartBeat,
            Transmission::CompleteFrame(f) => TransmissionView::CompleteFrame(f@),
        }
    }
}

// ---------------------------------------------------------------------------
// Serialization
// ---------------------------------------------------------------------------

/// One serialized header line: escaped name, colon, escaped value, LF.
pub open spec fn encode_header(h: (Seq<u8>, Seq<u8>)) -> Seq<u8> {
    escape(h.0) + seq![58u8] + escape(h.1) + seq![10u8]
}

/// The serialized header block, in insertion order.
pub open spec fn encode_headers(hs: Seq<(Seq<u8>, Seq<u8>)>) -> Seq<u8>
    decreases hs.len(),
{
    if hs.len() == 0 {
        Seq::empty()
    } else {
        encode_header(hs[0]) + encode_headers(hs.skip(1))
    }
}

/// The canonical serialization of a frame: command, LF, headers, LF, body,
/// NUL.
pub open spec fn encode_frame(f: FrameView) -> Seq<u8> {
    cmd_bytes(f.command) + seq![10u8] + encode_headers(f.headers) + seq![10u8] + f.body + seq![0u8]
}

/// The serialization of a transmission; a heartbeat is one LF.
pub open spec fn encode_transmission(t: TransmissionView) -> Seq<u8> {
    match t {
        TransmissionView::HeartBeat => seq![10u8],
        TransmissionView::CompleteFrame(f) => encode_frame(f),
    }
}

pub proof fn lemma_encode_headers_append(a: Seq<(Seq<u8>, Seq<u8>)>, b: Seq<(Seq<u8>, Seq<u8>)>)
    ensures
        encode_headers(a + b) == encode_headers(a) + encode_headers(b),
    decreases a.len(),
{
    if a.len() == 0 {
        assert(a + b =~= b);
        assert(encode_headers(a) + encode_headers(b) =~= encode_headers(b));
    } else {
        assert((a + b).skip(1) =~= a.skip(1) + b);
        lemma_encode_headers_append(a.skip(1), b);
        assert((a + b)[0] == a[0]);
        assert(encode_header(a[0]) + (encode_headers(a.skip(1)) + encode_headers(b)) =~= (
        encode_header(a[0]) + encode_headers(a.skip(1))) + encode_headers(b));
    }
}

/// Appends `src` to `dst`.
pub fn push_all(dst: &mut Vec<u8>, src: &Vec<u8>)
    ensures
        final(dst)@ == old(dst)@ + src@,
{
    let mut i: usize = 0;
    while i < src.len()
        invariant
            i <= src@.len(),
            dst@ == old(dst)@ + src@.take(i as int),
        decreases src@.len() - i,
    {
        dst.push(src[i]);
        assert(dst@ =~= old(dst)@ + src@.take(i + 1));
        i = i + 1;
    }
    assert(old(dst)@ + src@.take(src@.len() as int) =~= old(dst)@ + src@);
}

impl Frame {
    /// Serializes the frame for the wire.
    pub fn write_bytes(&self) -> (r: Vec<u8>)
        ensures
            r@ == encode_frame(self@),
    {
        let mut out = cmd_bytes_vec(self.command);
        out.push(10);
        let ghost hs = self@.headers;
        let ghost pre = out@;
        assert(pre == cmd_bytes(self@.command) + seq![10u8]) by {
            assert(pre =~= cmd_bytes(self@.command) + seq![10u8]);
        }
        let mut i: usize = 0;
        proof {
            assert(hs.take(0) =~= Seq::<(Seq<u8>, Seq<u8>)>::empty());
            assert(pre + encode_headers(hs.take(0)) =~= pre);
        }
        while i < self.headers.headers.len()
            invariant
                i <= hs.len(),
                hs == self@.headers,
                hs.len() == self.headers.headers@.len(),
                out@ == pre + encode_headers(hs.take(i as int)),
            decreases hs.len() - i,
        {
            let h = &self.headers.headers[i];
            let en = crate::header::escape_bytes(&h.name);
            let ev = crate::header::escape_bytes(&h.value);
            push_all(&mut out, &en);
            out.push(58);
            push_all(&mut out, &ev);
            out.push(10);
            proof {
                assert(hs[i as int] == (h.name@, h.value@));
                assert(out@ =~= pre + encode_headers(hs.take(i as int)) + encode_header(
                    hs[i as int],
                ));
                lemma_encode_headers_append(hs.take(i as int), seq![hs[i as int]]);
                assert(hs.take(i + 1) =~= hs.take(i as int) + seq![hs[i as int]]);
                assert(seq![hs[i as int]].skip(1) =~= Seq::<(Seq<u8>, Seq<u8>)>::empty());
                assert(encode_headers(Seq::<(Seq<u8>, Seq<u8>)>::empty())
                    == Seq::<u8>::empty());
                assert(seq![hs[i as int]][0] == hs[i as int]);
                assert(encode_headers(seq![hs[i as int]]) == encode_header(hs[i as int])
                    + encode_headers(Seq::<(Seq<u8>, Seq<u8>)>::empty()));
                assert(encode_header(hs[i as int]) + Seq::<u8>::empty() =~= encode_header(
                    hs[i as int],
                ));
                assert(out@ =~= pre + encode_headers(hs.take(i + 1)));
            }
            i = i + 1;
        }
        assert(hs.take(hs.len() as int) =~= hs);
        out.push(10);
        push_all(&mut out, &self.body);
        out.push(0);
        proof {
            assert(out@ =~= encode_frame(self@));
        }
        out
    }
}

// ---------------------------------------------------------------------------
// NUL accounting
// ---------------------------------------------------------------------------

/// The number of NUL bytes in a byte string.
pub open spec fn count_nul(s: Seq<u8>) -> int
    decreases s.len(),
{
    if s.len() == 0 {
        0
    } else {
        (if s[0] == 0 {
            1int
        } else {
            0int
        }) + count_nul(s.skip(1))
    }
}

/// The NUL count of a one-byte string.
pub proof fn lemma_count_nul_one(b: u8)
    ensures
        count_nul(seq![b]) == (if b == 0 {
            1int
        } else {
            0int
        }),
{
    assert(seq![b].skip(1) =~= Seq::<u8>::empty());
    assert(count_nul(Seq::<u8>::empty()) == 0);
}

pub proof fn lemma_count_nul_append(a: Seq<u8>, b: Seq<u8>)
    ensures
        count_nul(a + b) == count_nul(a) + count_nul(b),
    decreases a.len(),
{
    if a.len() == 0 {
        assert(a + b =~= b);
    } else {
        assert((a + b).skip(1) =~= a.skip(1) + b);
        lemma_count_nul_append(a.skip(1), b);
        assert((a + b)[0] == a[0]);
    }
}

/// Escaping neither adds nor removes NUL bytes.
pub proof fn lemma_count_nul_escape(s: Seq<u8>)
    ensures
        count_nul(escape(s)) == count_nul(s),
    decreases s.len(),
{
    if s.len() == 0 {
    } else {
        lemma_count_nul_escape(s.skip(1));
        lemma_count_nul_append(crate::header::escape_byte(s[0]), escape(s.skip(1)));
        let hd = crate::header::escape_byte(s[0]);
        if s[0] == 10 || s[0] == 13 || s[0] == 58 || s[0] == 92 {
            assert(hd.skip(1) =~= seq![hd[1]]);
            lemma_count_nul_one(hd[1]);
            assert(count_nul(hd) == 0);
        } else {
            assert(hd =~= seq![s[0]]);
            lemma_count_nul_one(s[0]);
        }
    }
}

/// Headers whose names and values hold no NUL byte.
pub open spec fn headers_nul_free(hs: Seq<(Seq<u8>, Seq<u8>)>) -> bool {
    forall|i: int|
        0 <= i < hs.len() ==> count_nul(#[trigger] hs[i].0) == 0 && count_nul(hs[i].1) == 0
}

pub proof fn lemma_count_nul_headers(hs: Seq<(Seq<u8>, Seq<u8>)>)
    requires
        headers_nul_free(hs),
    ensures
        count_nul(encode_headers(hs)) == 0,
    decreases hs.len(),
{
    if hs.len() == 0 {
    } else {
        assert(hs.skip(1) =~= hs.subrange(1, hs.len() as int));
        assert(forall|i: int| 0 <= i < hs.skip(1).len() ==> hs.skip(1)[i] == hs[i + 1]);
        lemma_count_nul_headers(hs.skip(1));
        lemma_count_nul_append(encode_header(hs[0]), encode_headers(hs.skip(1)));
        let h = hs[0];
        lemma_count_nul_escape(h.0);
        lemma_count_nul_escape(h.1);
        lemma_count_nul_append(escape(h.0), seq![58u8] + escape(h.1) + seq![10u8]);
        lemma_count_nul_append(seq![58u8], escape(h.1) + seq![10u8]);
        lemma_count_nul_append(escape(h.1), seq![10u8]);
        lemma_count_nul_one(58);
        lemma_count_nul_one(10);
        assert(encode_header(h) =~= escape(h.0) + (seq![58u8] + escape(h.1) + seq![10u8]));
        assert(escape(h.1) + seq![10u8] + Seq::<u8>::empty() =~= escape(h.1) + seq![10u8]);
        assert(seq![58u8] + (escape(h.1) + seq![10u8]) =~= seq![58u8] + escape(h.1) + seq![10u8]);
    }
}

/// Command tokens hold no NUL, LF or CR byte from position `i` on.
pub open spec fn token_clean_from(s: Seq<u8>, i: int) -> bool
    decreases s.len() - i,
{
    if i < 0 || i >= s.len() {
        true
    } else {
        s[i] != 0 && s[i] != 10 && s[i] != 13 && token_clean_from(s, i + 1)
    }
}

/// Command tokens hold no NUL, LF or CR byte.
pub open spec fn token_clean(s: Seq<u8>) -> bool {
    token_clean_from(s, 0)
}

pub proof fn lemma_token_clean_from_index(s: Seq<u8>, i: int)
    requires
        token_clean_from(s, i),
        0 <= i,
    ensures
        forall|j: int| i <= j < s.len() ==> s[j] != 0 && s[j] != 10 && s[j] != 13,
    decreases s.len() - i,
{
    if i < s.len() {
        lemma_token_clean_from_index(s, i + 1);
    }
}

pub proof fn lemma_token_clean_index(s: Seq<u8>)
    requires
        token_clean(s),
    ensures
        forall|i: int| 0 <= i < s.len() ==> s[i] != 0 && s[i] != 10 && s[i] != 13,
        count_nul(s) == 0,
{
    lemma_token_clean_from_index(s, 0);
    lemma_count_nul_none(s);
}

/// A byte string without NUL bytes counts zero NULs.
pub proof fn lemma_count_nul_none(s: Seq<u8>)
    requires
        forall|i: int| 0 <= i < s.len() ==> s[i] != 0,
    ensures
        count_nul(s) == 0,
    decreases s.len(),
{
    if s.len() > 0 {
        assert(forall|i: int| 0 <= i < s.skip(1).len() ==> s.skip(1)[i] == s[i + 1]);
        lemma_count_nul_none(s.skip(1));
    }
}

/// Every command token is clean and non-empty.
pub proof fn lemma_cmd_bytes_clean(c: Command)
    ensures
        token_clean(cmd_bytes(c)),
        cmd_bytes(c).len() >= 1,
{
    reveal_with_fuel(token_clean_from, 13);
    match c {
        Command::Connected => assert(token_clean_from(cmd_bytes(Command::Connected), 0)),
        Command::Connect => assert(token_clean_from(cmd_bytes(Command::Connect), 0)),
        Command::Send => assert(token_clean_from(cmd_bytes(Command::Send), 0)),
        Command::Subscribe => assert(token_clean_from(cmd_bytes(Command::Subscribe), 0)),
        Command::Unsubscribe => assert(token_clean_from(cmd_bytes(Command::Unsubscribe), 0)),
        Command::Ack => assert(token_clean_from(cmd_bytes(Command::Ack), 0)),
        Command::Nack => assert(token_clean_from(cmd_bytes(Command::Nack), 0)),
        Command::Begin => assert(token_clean_from(cmd_bytes(Command::Begin), 0)),
        Command::Commit => assert(token_clean_from(cmd_bytes(Command::Commit), 0)),
        Command::Abort => assert(token_clean_from(cmd_bytes(Command::Abort), 0)),
        Command::Disconnect => assert(token_clean_from(cmd_bytes(Command::Disconnect), 0)),
        Command::Message => assert(token_clean_from(cmd_bytes(Command::Message), 0)),
        Command::Receipt => assert(token_clean_from(cmd_bytes(Command::Receipt), 0)),
        Command::Error => assert(token_clean_from(cmd_bytes(Command::Error), 0)),
    }
}

/// The writer emits exactly one NUL of its own for every frame: the
/// serialization holds one NUL more than the body does, and exactly one when
/// the body is NUL-free.
pub proof fn lemma_frame_single_nul(f: FrameView)
    requires
        headers_nul_free(f.headers),
    ensures
        count_nul(encode_frame(f)) == 1 + count_nul(f.body),
{
    let e = encode_frame(f);
    lemma_cmd_bytes_clean(f.command);
    lemma_token_clean_index(cmd_bytes(f.command));
    lemma_count_nul_headers(f.headers);
    lemma_count_nul_append(cmd_bytes(f.command), seq![10u8]);
    lemma_count_nul_append(cmd_bytes(f.command) + seq![10u8], encode_headers(f.headers));
    lemma_count_nul_append(
        cmd_bytes(f.command) + seq![10u8] + encode_headers(f.headers),
        seq![10u8],
    );
    lemma_count_nul_append(
        cmd_bytes(f.command) + seq![10u8] + encode_headers(f.headers) + seq![10u8],
        f.body,
    );
    lemma_count_nul_append(
        cmd_bytes(f.command) + seq![10u8] + encode_headers(f.headers) + seq![10u8] + f.body,
        seq![0u8],
    );
    lemma_count_nul_one(10);
    lemma_count_nul_one(0);
}

// ---------------------------------------------------------------------------
// Constructors
// ---------------------------------------------------------------------------

impl Frame {
    /// A frame with no headers and an empty body.
    pub fn bare(command: Command) -> (r: Frame)
        ensures
            r@.command == command,
            r@.headers == Seq::<(Seq<u8>, Seq<u8>)>::empty(),
            r@.body == Seq::<u8>::empty(),
    {
        let r = Frame { command, headers: HeaderList::new(), body: Vec::new() };
        proof {
            assert(r@.body =~= Seq::<u8>::empty());
        }
        r
    }

    /// The SEND frame: `destination` and `content-length` headers and the
    /// given body.
    pub fn send(destination: Vec<u8>, body: Vec<u8>) -> (r: Frame)
        requires
            body@.len() <= u32::MAX,
        ensures
            r@.command == Command::Send,
            r@.headers == seq![
                (lit_destination(), destination@),
                (lit_content_length(), dec_rep(body@.len() as nat)),
            ],
            r@.body == body@,
    {
        let mut headers = HeaderList::new();
        headers.push(Header::new_raw(name_destination(), destination));
        let len32: u32 = body.len() as u32;
        headers.push(Header::new_raw(name_content_length(), u32_to_dec(len32)));
        let r = Frame { command: Command::Send, headers, body };
        proof {
            assert(r@.headers =~= seq![
                (lit_destination(), r@.headers[0].1),
                (lit_content_length(), dec_rep(r@.body.len() as nat)),
            ]);
        }
        r
    }

    /// The SUBSCRIBE frame: `id`, `destination` and `ack` headers.
    pub fn subscribe(id: Vec<u8>, destination: Vec<u8>, ack_mode_value: Vec<u8>) -> (r: Frame)
        ensures
            r@.command == Command::Subscribe,
            r@.headers == seq![
                (lit_id(), id@),
                (lit_destination(), destination@),
                (lit_ack(), ack_mode_value@),
            ],
            r@.body == Seq::<u8>::empty(),
    {
        let mut headers = HeaderList::new();
        let ghost idv = id@;
        let ghost dv = destination@;
        let ghost av = ack_mode_value@;
        headers.push(Header::new_raw(name_id(), id));
        headers.push(Header::new_raw(name_destination(), destination));
        headers.push(Header::new_raw(name_ack(), ack_mode_value));
        let r = Frame { command: Command::Subscribe, headers, body: Vec::new() };
        proof {
            assert(r@.headers =~= seq![(lit_id(), idv), (lit_destination(), dv), (lit_ack(), av)]);
            assert(r@.body =~= Seq::<u8>::empty());
        }
        r
    }

    /// A frame carrying one header and no body.
    pub fn with_one_header(command: Command, name: Vec<u8>, value: Vec<u8>) -> (r: Frame)
        ensures
            r@.command == command,
            r@.headers == seq![(name@, value@)],
            r@.body == Seq::<u8>::empty(),
    {
        let mut headers = HeaderList::new();
        let ghost nv = name@;
        let ghost vv = value@;
        headers.push(Header::new_raw(name, value));
        let r = Frame { command, headers, body: Vec::new() };
        proof {
            assert(r@.headers =~= seq![(nv, vv)]);
            assert(r@.body =~= Seq::<u8>::empty());
        }
        r
    }

    /// The UNSUBSCRIBE frame for a subscription id.
    pub fn unsubscribe(id: Vec<u8>) -> (r: Frame)
        ensures
            r@.command == Command::Unsubscribe,
            r@.headers == seq![(lit_id(), id@)],
            r@.body == Seq::<u8>::empty(),
    {
        Frame::with_one_header(Command::Unsubscribe, name_id(), id)
    }

    /// The ACK frame carrying the acknowledged id.
    pub fn ack(ack_id: Vec<u8>) -> (r: Frame)
        ensures
            r@.command == Command::Ack,
            r@.headers == seq![(lit_id(), ack_id@)],
            r@.body == Seq::<u8>::empty(),
    {
        Frame::with_one_header(Command::Ack, name_id(), ack_id)
    }

    /// The NACK frame carrying the rejected id.
    pub fn nack(ack_id: Vec<u8>) -> (r: Frame)
        ensures
            r@.command == Command::Nack,
            r@.headers == seq![(lit_id(), ack_id@)],
            r@.body == Seq::<u8>::empty(),
    {
        Frame::with_one_header(Command::Nack, name_id(), ack_id)
    }

    /// The BEGIN frame for a transaction id.
    pub fn begin(tx_id: Vec<u8>) -> (r: Frame)
        ensures
            r@.command == Command::Begin,
            r@.headers == seq![(lit_transaction(), tx_id@)],
            r@.body == Seq::<u8>::empty(),
    {
        Frame::with_one_header(Command::Begin, name_transaction(), tx_id)
    }

    /// The COMMIT frame for a transaction id.
    pub fn commit(tx_id: Vec<u8>) -> (r: Frame)
        ensures
            r@.command == Command::Commit,
            r@.headers == seq![(lit_transaction(), tx_id@)],
            r@.body == Seq::<u8>::empty(),
    {
        Frame::with_one_header(Command::Commit, name_transaction(), tx_id)
    }

    /// The ABORT frame for a transaction id.
    pub fn abort(tx_id: Vec<u8>) -> (r: Frame)
        ensures
            r@.command == Command::Abort,
            r@.headers == seq![(lit_transaction(), tx_id@)],
            r@.body == Seq::<u8>::empty(),
    {
        Frame::with_one_header(Command::Abort, name_transaction(), tx_id)
    }

    /// The DISCONNECT frame: header-less.
    pub fn disconnect() -> (r: Frame)
        ensures
            r@.command == Command::Disconnect,
            r@.headers == Seq::<(Seq<u8>, Seq<u8>)>::empty(),
            r@.body == Seq::<u8>::empty(),
    {
        Frame::bare(Command::Disconnect)
    }
}

} // verus!

//! Header model: ordered `(name, value)` pairs of bytes, the wire escaping
//! rules for header text, decimal identifier strings, and the typed
//! `heart-beat` accessor.

use vstd::prelude::*;

verus! {

// ---------------------------------------------------------------------------
// Escaping
// ---------------------------------------------------------------------------

/// The wire escaping of one header byte: LF, CR, `:` and `\` become the
/// two-byte sequences `\n`, `\r`, `\c`, `\\`; every other byte stands for
/// itself.
pub open spec fn escape_byte(b: u8) -> Seq<u8> {
    if b == 10 {
        seq![92u8, 110]
    } else if b == 13 {
        seq![92u8, 114]
    } else if b == 58 {
        seq![92u8, 99]
    } else if b == 92 {
        seq![92u8, 92u8]
    } else {
        seq![b]
    }
}

/// The wire escaping of header text.
pub open spec fn escape(s: Seq<u8>) -> Seq<u8>
    decreases s.len(),
{
    if s.len() == 0 {
        Seq::empty()
    } else {
        escape_byte(s[0]) + escape(s.skip(1))
    }
}

/// Does `c` follow a backslash in one of the four escape sequences?
pub open spec fn is_escape_code(c: u8) -> bool {
    c == 110 || c == 114 || c == 99 || c == 92
}

/// The byte that the escape sequence `\c` stands for.
pub open spec fn unescape_code(c: u8) -> u8 {
    if c == 110 {
        10
    } else if c == 114 {
        13
    } else if c == 99 {
        58
    } else {
        92
    }
}

/// Decoding of escaped header text. A backslash followed by one of the four
/// escape codes yields the escaped byte; a backslash followed by anything
/// else, or standing last, is taken literally.
pub open spec fn unescape(s: Seq<u8>) -> Seq<u8>
    decreases s.len(),
{
    if s.len() == 0 {
        Seq::empty()
    } else if s[0] == 92 && s.len() >= 2 && is_escape_code(s[1]) {
        seq![unescape_code(s[1])] + unescape(s.skip(2))
    } else {
        seq![s[0]] + unescape(s.skip(1))
    }
}

/// Escaping distributes over concatenation.
pub proof fn lemma_escape_append(a: Seq<u8>, b: Seq<u8>)
    ensures
        escape(a + b) == escape(a) + escape(b),
    decreases a.len(),
{
    if a.len() == 0 {
        assert(a + b =~= b);
        assert(escape(a) + escape(b) =~= escape(b));
    } else {
        assert((a + b).skip(1) =~= a.skip(1) + b);
        lemma_escape_append(a.skip(1), b);
        assert((a + b)[0] == a[0]);
        assert(escape_byte(a[0]) + (escape(a.skip(1)) + escape(b)) =~= (escape_byte(a[0]) + escape(
            a.skip(1),
        )) + escape(b));
    }
}

/// Escaped text never contains a raw LF, CR or colon.
pub proof fn lemma_escape_clean(s: Seq<u8>)
    ensures
        forall|i: int|
            0 <= i < escape(s).len() ==> escape(s)[i] != 10 && escape(s)[i] != 13 && escape(s)[i]
                != 58,
    decreases s.len(),
{
    if s.len() == 0 {
    } else {
        lemma_escape_clean(s.skip(1));
        assert forall|i: int| 0 <= i < escape(s).len() implies escape(s)[i] != 10 && escape(s)[i]
            != 13 && escape(s)[i] != 58 by {
            let hd = escape_byte(s[0]);
            if i < hd.len() {
                assert(escape(s)[i] == hd[i]);
            } else {
                assert(escape(s)[i] == escape(s.skip(1))[i - hd.len()]);
            }
        }
    }
}

/// Unescaping undoes escaping: `unescape(escape(h)) == h` for every header
/// text `h`.
pub proof fn lemma_unescape_escape(h: Seq<u8>)
    ensures
        unescape(escape(h)) == h,
    decreases h.len(),
{
    if h.len() == 0 {
        assert(unescape(escape(h)) =~= h);
    } else {
        lemma_unescape_escape(h.skip(1));
        let hd = escape_byte(h[0]);
        let e = escape(h);
        assert(e == hd + escape(h.skip(1)));
        if h[0] == 10 || h[0] == 13 || h[0] == 58 || h[0] == 92 {
            assert(e[0] == 92 && e.len() >= 2 && is_escape_code(e[1]));
            assert(e.skip(2) =~= escape(h.skip(1)));
            assert(unescape(e) == seq![h[0]] + h.skip(1));
        } else {
            assert(e[0] == h[0]);
            assert(e[0] != 92);
            assert(e.skip(1) =~= escape(h.skip(1)));
            assert(unescape(e) == seq![h[0]] + h.skip(1));
        }
        assert(seq![h[0]] + h.skip(1) =~= h);
    }
}

/// Escaping is injective.
pub proof fn lemma_escape_injective(a: Seq<u8>, b: Seq<u8>)
    requires
        escape(a) == escape(b),
    ensures
        a == b,
{
    lemma_unescape_escape(a);
    lemma_unescape_escape(b);
}

/// Escapes header text for the wire.
pub fn escape_bytes(v: &Vec<u8>) -> (r: Vec<u8>)
    ensures
        r@ == escape(v@),
{
    let mut out: Vec<u8> = Vec::new();
    let mut i: usize = 0;
    while i < v.len()
        invariant
            i <= v@.len(),
            out@ == escape(v@.take(i as int)),
        decreases v@.len() - i,
    {
        let b = v[i];
        proof {
            lemma_escape_append(v@.take(i as int), seq![v@[i as int]]);
            assert(v@.take(i + 1) =~= v@.take(i as int) + seq![v@[i as int]]);
            assert(seq![v@[i as int]].skip(1) =~= Seq::<u8>::empty());
            assert(seq![v@[i as int]][0] == v@[i as int]);
            assert(escape(Seq::<u8>::empty()) == Seq::<u8>::empty());
            assert(escape(seq![v@[i as int]]) == escape_byte(v@[i as int]) + escape(
                Seq::<u8>::empty(),
            ));
            assert(escape_byte(v@[i as int]) + Seq::<u8>::empty() =~= escape_byte(v@[i as int]));
        }
        if b == 10 {
            out.push(92);
            out.push(110);
        } else if b == 13 {
            out.push(92);
            out.push(114);
        } else if b == 58 {
            out.push(92);
            out.push(99);
        } else if b == 92 {
            out.push(92);
            out.push(92);
        } else {
            out.push(b);
        }
        assert(out@ =~= escape(v@.take(i as int)) + escape_byte(v@[i as int]));
        i = i + 1;
    }
    assert(v@.take(v@.len() as int) =~= v@);
    out
}

/// Decodes escaped header text.
pub fn unescape_bytes(v: &Vec<u8>) -> (r: Vec<u8>)
    ensures
        r@ == unescape(v@),
{
    let mut out: Vec<u8> = Vec::new();
    let mut i: usize = 0;
    proof {
        assert(v@.skip(0) =~= v@);
        assert(Seq::<u8>::empty() + unescape(v@) =~= unescape(v@));
    }
    while i < v.len()
        invariant
            i <= v@.len(),
            unescape(v@) == out@ + unescape(v@.skip(i as int)),
        decreases v@.len() - i,
    {
        let ghost si = v@.skip(i as int);
        let ghost pre = out@;
        let b = v[i];
        assert(si[0] == b);
        if b == 92 && i + 1 < v.len() && (v[i + 1] == 110 || v[i + 1] == 114 || v[i + 1] == 99
            || v[i + 1] == 92) {
            let c = v[i + 1];
            assert(si[1] == c);
            let u = if c == 110 {
                10
            } else if c == 114 {
                13
            } else if c == 99 {
                58
            } else {
                92
            };
            assert(u == unescape_code(c));
            out.push(u);
            proof {
                assert(si.skip(2) =~= v@.skip(i + 2));
                assert(unescape(si) == seq![unescape_code(c)] + unescape(v@.skip(i + 2)));
                assert(pre + (seq![u] + unescape(v@.skip(i + 2))) =~= out@ + unescape(
                    v@.skip(i + 2),
                ));
            }
            i = i + 2;
        } else {
            assert(!(si[0] == 92 && si.len() >= 2 && is_escape_code(si[1])));
            out.push(b);
            proof {
                assert(si.skip(1) =~= v@.skip(i + 1));
                assert(unescape(si) == seq![b] + unescape(v@.skip(i + 1)));
                assert(pre + (seq![b] + unescape(v@.skip(i + 1))) =~= out@ + unescape(
                    v@.skip(i + 1),
                ));
            }
            i = i + 1;
        }
    }
    assert(v@.skip(v@.len() as int) =~= Seq::<u8>::empty());
    assert(unescape(Seq::<u8>::empty()) == Seq::<u8>::empty());
    assert(out@ + Seq::<u8>::empty() =~= out@);
    out
}

// ---------------------------------------------------------------------------
// Decimal identifier strings
// ---------------------------------------------------------------------------

/// Is `b` an ASCII decimal digit?
pub open spec fn is_digit(b: u8) -> bool {
    48 <= b <= 57
}

/// The numeric value of a digit string (most significant digit first).
pub open spec fn dec_value(s: Seq<u8>) -> int
    decreases s.len(),
{
    if s.len() == 0 {
        0
    } else {
        10 * dec_value(s.drop_last()) + s.last() - 48
    }
}

/// Are all bytes of `s` decimal digits?
pub open spec fn all_digits(s: Seq<u8>) -> bool {
    forall|i: int| 0 <= i < s.len() ==> is_digit(s[i])
}

/// A byte string parses as a `u32` when it is a non-empty run of decimal
/// digits whose value fits.
pub open spec fn parse_dec_u32(s: Seq<u8>) -> Option<u32> {
    if s.len() >= 1 && all_digits(s) && dec_value(s) <= u32::MAX {
        Some(dec_value(s) as u32)
    } else {
        None
    }
}

/// The canonical decimal representation of a number.
pub open spec fn dec_rep(n: nat) -> Seq<u8>
    decreases n,
{
    if n < 10 {
        seq![(n + 48) as u8]
    } else {
        dec_rep(n / 10) + seq![(n % 10 + 48) as u8]
    }
}

pub proof fn lemma_dec_rep_digits(n: nat)
    ensures
        all_digits(dec_rep(n)),
        dec_rep(n).len() >= 1,
    decreases n,
{
    if n < 10 {
    } else {
        lemma_dec_rep_digits(n / 10);
        assert forall|i: int| 0 <= i < dec_rep(n).len() implies is_digit(dec_rep(n)[i]) by {
            if i < dec_rep(n / 10).len() {
                assert(dec_rep(n)[i] == dec_rep(n / 10)[i]);
            } else {
                assert(dec_rep(n)[i] == (n % 10 + 48) as u8);
            }
        }
    }
}

pub proof fn lemma_dec_value_rep(n: nat)
    ensures
        dec_value(dec_rep(n)) == n,
    decreases n,
{
    if n < 10 {
        assert(dec_rep(n).drop_last() =~= Seq::<u8>::empty());
        assert(dec_rep(n).last() == (n + 48) as u8);
        assert(((n + 48) as u8) == n + 48);
        assert(dec_value(Seq::<u8>::empty()) == 0);
    } else {
        lemma_dec_value_rep(n / 10);
        assert(dec_rep(n).drop_last() =~= dec_rep(n / 10));
        assert(dec_rep(n).last() == (n % 10 + 48) as u8);
        assert(n % 10 < 10);
        assert(((n % 10 + 48) as u8) == n % 10 + 48);
        assert(10 * (n / 10) + n % 10 == n) by (nonlinear_arith);
    }
}

/// Round trip: the decimal representation of `n <= u32::MAX` parses back to
/// `n`.
pub proof fn lemma_parse_dec_rep(n: nat)
    requires
        n <= u32::MAX,
    ensures
        parse_dec_u32(dec_rep(n)) == Some(n as u32),
{
    lemma_dec_rep_digits(n);
    lemma_dec_value_rep(n);
}

/// Distinct identifiers never share a decimal representation.
pub proof fn lemma_dec_rep_injective(m: nat, n: nat)
    requires
        m <= u32::MAX,
        n <= u32::MAX,
        m != n,
    ensures
        dec_rep(m) != dec_rep(n),
{
    lemma_parse_dec_rep(m);
    lemma_parse_dec_rep(n);
}

/// Extending a digit string can only increase its value.
pub proof fn lemma_dec_value_take_grows(s: Seq<u8>, i: int, j: int)
    requires
        0 <= i <= j <= s.len(),
        all_digits(s),
    ensures
        dec_value(s.take(i)) <= dec_value(s.take(j)),
    decreases j - i,
{
    if i < j {
        lemma_dec_value_take_grows(s, i, j - 1);
        assert(s.take(j).drop_last() =~= s.take(j - 1));
        assert(s.take(j).last() == s[j - 1]);
        assert(dec_value(s.take(j)) == 10 * dec_value(s.take(j - 1)) + s[j - 1] - 48);
        assert(is_digit(s[j - 1]));
        lemma_dec_value_nonneg(s.take(j - 1));
        assert(10 * dec_value(s.take(j - 1)) >= dec_value(s.take(j - 1))) by (nonlinear_arith)
            requires
                dec_value(s.take(j - 1)) >= 0,
        ;
    }
}

/// The value of a digit string is non-negative.
pub proof fn lemma_dec_value_nonneg(s: Seq<u8>)
    requires
        all_digits(s),
    ensures
        dec_value(s) >= 0,
    decreases s.len(),
{
    if s.len() > 0 {
        assert(all_digits(s.drop_last())) by {
            assert(forall|i: int| 0 <= i < s.len() - 1 ==> s.drop_last()[i] == s[i]);
        }
        lemma_dec_value_nonneg(s.drop_last());
        assert(is_digit(s.last()));
        assert(10 * dec_value(s.drop_last()) >= 0) by (nonlinear_arith)
            requires
                dec_value(s.drop_last()) >= 0,
        ;
    }
}

/// Parses a non-empty run of decimal digits as a `u32`.
pub fn parse_u32_bytes(v: &Vec<u8>) -> (r: Option<u32>)
    ensures
        r == parse_dec_u32(v@),
{
    if v.len() == 0 {
        return None;
    }
    let mut acc: u64 = 0;
    let mut i: usize = 0;
    while i < v.len()
        invariant
            i <= v@.len(),
            acc == dec_value(v@.take(i as int)),
            acc <= u32::MAX,
            forall|k: int| 0 <= k < i ==> is_digit(v@[k]),
        decreases v@.len() - i,
    {
        let b = v[i];
        if b < 48 || b > 57 {
            assert(!is_digit(v@[i as int]));
            assert(!all_digits(v@));
            return None;
        }
        assert(v@.take(i + 1).drop_last() =~= v@.take(i as int));
        assert(v@.take(i + 1).last() == v@[i as int]);
        acc = acc * 10 + ((b - 48) as u64);
        assert(acc == dec_value(v@.take(i + 1)));
        if acc > 0xffff_ffff {
            proof {
                if all_digits(v@) {
                    lemma_dec_value_take_grows(v@, i + 1, v@.len() as int);
                    assert(v@.take(v@.len() as int) =~= v@);
                }
            }
            return None;
        }
        i = i + 1;
    }
    assert(v@.take(v@.len() as int) =~= v@);
    Some(acc as u32)
}

/// Writes `n` in decimal.
pub fn u32_to_dec(n: u32) -> (r: Vec<u8>)
    ensures
        r@ == dec_rep(n as nat),
    decreases n,
{
    if n < 10 {
        let mut r: Vec<u8> = Vec::new();
        r.push((n as u8) + 48);
        assert(r@ =~= dec_rep(n as nat));
        r
    } else {
        let mut r = u32_to_dec(n / 10);
        r.push(((n % 10) as u8) + 48);
        assert(r@ =~= dec_rep((n as nat) / 10) + seq![((n as nat) % 10 + 48) as u8]);
        r
    }
}

// ---------------------------------------------------------------------------
// Headers and header lists
// ---------------------------------------------------------------------------

/// One header: an ordered pair of byte strings.
#[derive(PartialEq, Eq, Debug)]
pub struct Header {
    pub name: Vec<u8>,
    pub value: Vec<u8>,
}

impl View for Header {
    type V = (Seq<u8>, Seq<u8>);

    open spec fn view(&self) -> (Seq<u8>, Seq<u8>) {
        (self.name@, self.value@)
    }
}

impl DeepView for Header {
    type V = (Seq<u8>, Seq<u8>);

    open spec fn deep_view(&self) -> (Seq<u8>, Seq<u8>) {
        self.view()
    }
}

impl Header {
    /// Builds a header from a raw name and value.
    pub fn new_raw(name: Vec<u8>, value: Vec<u8>) -> (r: Header)
        ensures
            r@ == (name@, value@),
    {
        Header { name, value }
    }
}

/// An ordered list of headers; duplicates are allowed and order is kept.
#[derive(PartialEq, Eq, Debug)]
pub struct HeaderList {
    pub headers: Vec<Header>,
}

impl View for HeaderList {
    type V = Seq<(Seq<u8>, Seq<u8>)>;

    open spec fn view(&self) -> Seq<(Seq<u8>, Seq<u8>)> {
        self.headers.deep_view()
    }
}

/// The value of the first header named `name`, if any.
pub open spec fn first_match(hs: Seq<(Seq<u8>, Seq<u8>)>, name: Seq<u8>) -> Option<Seq<u8>>
    decreases hs.len(),
{
    if hs.len() == 0 {
        None
    } else if hs[0].0 == name {
        Some(hs[0].1)
    } else {
        first_match(hs.skip(1), name)
    }
}

pub proof fn lemma_first_match_skip(hs: Seq<(Seq<u8>, Seq<u8>)>, name: Seq<u8>, k: int)
    requires
        0 <= k <= hs.len(),
        forall|j: int| 0 <= j < k ==> hs[j].0 != name,
    ensures
        first_match(hs, name) == first_match(hs.skip(k), name),
    decreases k,
{
    if k > 0 {
        assert(hs[0].0 != name);
        assert(first_match(hs, name) == first_match(hs.skip(1), name));
        assert forall|j: int| 0 <= j < k - 1 implies hs.skip(1)[j].0 != name by {
            assert(hs.skip(1)[j] == hs[j + 1]);
        }
        lemma_first_match_skip(hs.skip(1), name, k - 1);
        assert(hs.skip(1).skip(k - 1) =~= hs.skip(k));
    } else {
        assert(hs.skip(0) =~= hs);
    }
}

/// Compares two byte strings.
pub fn bytes_eq(a: &Vec<u8>, b: &Vec<u8>) -> (r: bool)
    ensures
        r <==> a@ == b@,
{
    if a.len() != b.len() {
        return false;
    }
    let mut i: usize = 0;
    while i < a.len()
        invariant
            i <= a@.len(),
            a@.len() == b@.len(),
            forall|k: int| 0 <= k < i ==> a@[k] == b@[k],
        decreases a@.len() - i,
    {
        if a[i] != b[i] {
            return false;
        }
        i = i + 1;
    }
    proof {
        assert(a@ =~= b@);
    }
    true
}

/// Copies a byte string.
pub fn copy_bytes(v: &Vec<u8>) -> (r: Vec<u8>)
    ensures
        r@ == v@,
{
    let mut out: Vec<u8> = Vec::new();
    let mut i: usize = 0;
    while i < v.len()
        invariant
            i <= v@.len(),
            out@ == v@.take(i as int),
        decreases v@.len() - i,
    {
        out.push(v[i]);
        assert(out@ =~= v@.take(i + 1));
        i = i + 1;
    }
    assert(v@.take(v@.len() as int) =~= v@);
    out
}

impl HeaderList {
    pub fn new() -> (r: HeaderList)
        ensures
            r@ == Seq::<(Seq<u8>, Seq<u8>)>::empty(),
    {
        let r = HeaderList { headers: Vec::new() };
        proof {
            assert(r@ =~= Seq::<(Seq<u8>, Seq<u8>)>::empty());
        }
        r
    }

    /// Appends a header, keeping insertion order.
    pub fn push(&mut self, h: Header)
        ensures
            final(self)@ == old(self)@.push(h@),
    {
        let ghost hv = h@;
        self.headers.push(h);
        proof {
            assert(self@ =~= old(self)@.push(hv));
        }
    }

    /// Appends the given headers, keeping their order.
    pub fn append(&mut self, extras: Vec<Header>)
        ensures
            final(self)@ == old(self)@ + extras.deep_view(),
    {
        let ghost base = self@;
        let ghost extrasv = extras.deep_view();
        let mut extras = extras;
        let mut consumed: usize = 0;
        let total0: usize = extras.len();
        proof {
            assert(base + extrasv.take(0) =~= base);
        }
        while extras.len() > 0
            invariant
                consumed + extras@.len() == total0,
                total0 == extrasv.len(),
                extras.deep_view() =~= extrasv.skip(consumed as int),
                self@ == base + extrasv.take(consumed as int),
            decreases extras@.len(),
        {
            let ghost preq = extras@;
            let ghost pred = extras.deep_view();
            let h = extras.remove(0);
            let ghost hv = h@;
            proof {
                preq.remove_ensures(0);
                assert(h == preq[0]);
                assert(hv == pred[0]);
                assert(pred[0] == extrasv.skip(consumed as int)[0]);
                assert(hv == extrasv[consumed as int]);
                assert forall|j: int| 0 <= j < extras.deep_view().len() implies extras.deep_view()[j]
                    == extrasv.skip(consumed + 1)[j] by {
                    assert(extras@[j] == preq[j + 1]);
                    assert(extras.deep_view()[j] == preq[j + 1].deep_view());
                    assert(preq[j + 1].deep_view() == pred[j + 1]);
                    assert(pred[j + 1] == extrasv.skip(consumed as int)[j + 1]);
                    assert(extrasv.skip(consumed as int)[j + 1] == extrasv[consumed + 1 + j]);
                }
                assert(extras.deep_view() =~= extrasv.skip(consumed + 1));
            }
            self.push(h);
            proof {
                assert(self@ =~= base + extrasv.take(consumed + 1));
            }
            consumed = consumed + 1;
        }
        proof {
            assert(extrasv.take(extrasv.len() as int) =~= extrasv);
        }
    }

    /// The value of the first header named `name`, copied out; `None` when no
    /// header has that name.
    pub fn get_first(&self, name: &Vec<u8>) -> (r: Option<Vec<u8>>)
        ensures
            (match first_match(self@, name@) {
                Option::Some(v) => r matches Option::Some(rv) && rv@ == v,
                Option::None => r is None,
            }),
    {
        let mut i: usize = 0;
        while i < self.headers.len()
            invariant
                i <= self.headers@.len(),
                forall|j: int| 0 <= j < i ==> #[trigger] self@[j].0 != name@,
            decreases self.headers@.len() - i,
        {
            if bytes_eq(&self.headers[i].name, name) {
                proof {
                    lemma_first_match_skip(self@, name@, i as int);
                    assert(self@.skip(i as int)[0] == self@[i as int]);
                }
                return Some(copy_bytes(&self.headers[i].value));
            }
            assert(self@[i as int].0 == self.headers@[i as int].name@);
            i = i + 1;
        }
        proof {
            lemma_first_match_skip(self@, name@, self@.len() as int);
            assert(self@.skip(self@.len() as int) =~= Seq::<(Seq<u8>, Seq<u8>)>::empty());
        }
        None
    }
}

// ---------------------------------------------------------------------------
// The heart-beat header value
// ---------------------------------------------------------------------------

/// Is `i` the split point of a well-formed `cx,cy` heart-beat value?
pub open spec fn hb_split_at(s: Seq<u8>, i: int) -> bool {
    &&& 0 <= i < s.len()
    &&& s[i] == 44
    &&& parse_dec_u32(s.take(i)) is Some
    &&& parse_dec_u32(s.skip(i + 1)) is Some
}

/// The parse of a `heart-beat` value: two comma-separated decimal numbers.
pub open spec fn parse_heart_beat(s: Seq<u8>) -> Option<(u32, u32)> {
    if exists|i: int| hb_split_at(s, i) {
        let i = choose|i: int| hb_split_at(s, i);
        Some((parse_dec_u32(s.take(i))->Some_0, parse_dec_u32(s.skip(i + 1))->Some_0))
    } else {
        None
    }
}

/// The split point of a heart-beat value is unique.
pub proof fn lemma_hb_split_unique(s: Seq<u8>, i: int, j: int)
    requires
        hb_split_at(s, i),
        hb_split_at(s, j),
    ensures
        i == j,
{
    if i < j {
        assert(s.take(j)[i] == s[i]);
        assert(is_digit(s.take(j)[i]));
    }
    if j < i {
        assert(s.take(i)[j] == s[j]);
        assert(is_digit(s.take(i)[j]));
    }
}

/// Parses a `cx,cy` heart-beat value; rejects anything that is not two
/// comma-separated decimal numbers.
pub fn parse_heart_beat_bytes(v: &Vec<u8>) -> (r: Option<(u32, u32)>)
    ensures
        r == parse_heart_beat(v@),
{
    let mut comma: usize = 0;
    let mut found: bool = false;
    let mut i: usize = 0;
    while i < v.len()
        invariant
            i <= v@.len(),
            !found ==> forall|k: int| 0 <= k < i ==> v@[k] != 44,
            found ==> comma < i && v@[comma as int] == 44 && forall|k: int|
                0 <= k < comma ==> v@[k] != 44,
        decreases v@.len() - i,
    {
        if !found && v[i] == 44 {
            comma = i;
            found = true;
        }
        i = i + 1;
    }
    if !found {
        proof {
            assert forall|w: int| !hb_split_at(v@, w) by {
                if hb_split_at(v@, w) {
                    assert(v@[w] == 44);
                }
            }
        }
        return None;
    }
    let mut left: Vec<u8> = Vec::new();
    let mut k: usize = 0;
    while k < comma
        invariant
            k <= comma,
            comma < v@.len(),
            left@ == v@.take(comma as int).take(k as int),
        decreases comma - k,
    {
        left.push(v[k]);
        assert(left@ =~= v@.take(comma as int).take(k + 1));
        k = k + 1;
    }
    assert(left@ =~= v@.take(comma as int));
    let mut right: Vec<u8> = Vec::new();
    let mut m: usize = comma + 1;
    while m < v.len()
        invariant
            comma + 1 <= m <= v@.len(),
            right@ == v@.skip(comma + 1).take(m - comma - 1),
        decreases v@.len() - m,
    {
        right.push(v[m]);
        assert(right@ =~= v@.skip(comma + 1).take(m - comma));
        m = m + 1;
    }
    assert(right@ =~= v@.skip(comma + 1));
    let lv = parse_u32_bytes(&left);
    let rv = parse_u32_bytes(&right);
    match (lv, rv) {
        (Some(a), Some(b)) => {
            proof {
                assert(hb_split_at(v@, comma as int));
                let w = choose|i0: int| hb_split_at(v@, i0);
                lemma_hb_split_unique(v@, w, comma as int);
            }
            Some((a, b))
        },
        _ => {
            proof {
                assert forall|w: int| !hb_split_at(v@, w) by {
                    if hb_split_at(v@, w) {
                        if w < comma {
                            assert(v@[w] == 44);
                        } else if w > comma {
                            assert(all_digits(v@.take(w)));
                            assert(v@.take(w)[comma as int] == 44);
                            assert(is_digit(v@.take(w)[comma as int]));
                        } else {
                            assert(parse_dec_u32(v@.take(comma as int)) is Some);
                            assert(parse_dec_u32(v@.skip(comma + 1)) is Some);
                        }
                    }
                }
            }
            None
        },
    }
}

} // verus!

//! Wire protocol values: the decoder that turns one frame of bytes into
//! [`Entry`] values, and the encoder that turns entries back into bytes.
//!
//! The frame grammar is length-prefixed: an array `*<count>\r\n` followed by
//! `<count>` elements, each element either a bulk string
//! `$<byte-length>\r\n<bytes>\r\n` or an integer `:<signed-int>\r\n`.
//! Replies additionally use simple strings `+<text>\r\n` and the nil marker
//! `$-1\r\n`, which have no input form.

use vstd::prelude::*;

verus! {

/// One decoded protocol value, produced by the decoder or handed to the
/// encoder.  `Text` is a bulk string, `SimpleText` a simple string;
/// `SimpleText` and `Nil` are reply-only shapes.
#[derive(Debug, PartialEq)]
pub enum Entry {
    Int(i32),
    Text(Vec<u8>),
    SimpleText(Vec<u8>),
    Nil,
}

/// The mathematical shape of an [`Entry`]: byte contents as sequences.
pub enum EntryModel {
    Int(i32),
    Text(Seq<u8>),
    SimpleText(Seq<u8>),
    Nil,
}

impl View for Entry {
    type V = EntryModel;

    open spec fn view(&self) -> EntryModel {
        match self {
            Entry::Int(i) => EntryModel::Int(*i),
            Entry::Text(t) => EntryModel::Text(t@),
            Entry::SimpleText(t) => EntryModel::SimpleText(t@),
            Entry::Nil => EntryModel::Nil,
        }
    }
}

/// The models of a sequence of entries.
pub open spec fn entries_view(s: Seq<Entry>) -> Seq<EntryModel> {
    s.map_values(|e: Entry| e@)
}

/// A structurally invalid frame: wrong sigil, length mismatch, truncated
/// data, or an unparsable integer.
#[derive(Clone, Copy, Debug, PartialEq, Eq, Structural)]
pub struct ProtocolError;

pub const CR: u8 = 13;
pub const LF: u8 = 10;
pub const STAR: u8 = 42;
pub const DOLLAR: u8 = 36;
pub const COLON: u8 = 58;
pub const PLUS: u8 = 43;
pub const MINUS: u8 = 45;
pub const ZERO: u8 = 48;

/// The line terminator of the wire protocol.
pub open spec fn crlf() -> Seq<u8> {
    seq![CR, LF]
}

/// Whether `b` is an ASCII decimal digit.
pub open spec fn is_digit(b: u8) -> bool {
    ZERO <= b <= ZERO + 9
}

/// The decimal representation of `n`, most significant digit first, with no
/// sign and no leading zero (except for `n == 0` itself).
pub open spec fn dec_rep(n: nat) -> Seq<u8>
    decreases n,
{
    if n < 10 {
        seq![(ZERO + n) as u8]
    } else {
        dec_rep(n / 10).push((ZERO + n % 10) as u8)
    }
}

/// The decimal representation of `i`, with a leading minus sign when negative.
pub open spec fn int_rep(i: int) -> Seq<u8> {
    if i < 0 {
        seq![MINUS] + dec_rep((-i) as nat)
    } else {
        dec_rep(i as nat)
    }
}

/// The wire bytes of one entry.
pub open spec fn encode_entry(e: EntryModel) -> Seq<u8> {
    match e {
        EntryModel::Text(t) => seq![DOLLAR] + dec_rep(t.len()) + crlf() + t + crlf(),
        EntryModel::SimpleText(t) => seq![PLUS] + t + crlf(),
        EntryModel::Int(i) => seq![COLON] + int_rep(i as int) + crlf(),
        EntryModel::Nil => seq![DOLLAR, MINUS, (ZERO + 1) as u8, CR, LF],
    }
}

/// The concatenated wire bytes of a sequence of entries.
pub open spec fn encode_entries(es: Seq<EntryModel>) -> Seq<u8>
    decreases es.len(),
{
    if es.len() == 0 {
        Seq::empty()
    } else {
        encode_entry(es.first()) + encode_entries(es.drop_first())
    }
}

/// The wire bytes of an array frame: `*<count>\r\n` then each element.
pub open spec fn encode_array(es: Seq<EntryModel>) -> Seq<u8> {
    seq![STAR] + dec_rep(es.len()) + crlf() + encode_entries(es)
}

/// The number of leading decimal digits of `s`.
pub open spec fn digit_run(s: Seq<u8>) -> int
    decreases s.len(),
{
    if s.len() == 0 || !is_digit(s[0]) {
        0
    } else {
        1 + digit_run(s.drop_first())
    }
}

/// The value of a run of decimal digits, most significant first.
pub open spec fn dec_val(s: Seq<u8>) -> nat
    decreases s.len(),
{
    if s.len() == 0 {
        0
    } else {
        (dec_val(s.drop_last()) * 10 + (s.last() - ZERO)) as nat
    }
}

/// Parses an unsigned decimal number terminated by CR LF at the front of
/// `s`: at least one digit, and a value that fits in a machine word.
/// Returns the value and the number of bytes consumed, terminator included.
pub open spec fn spec_parse_uint_line(s: Seq<u8>) -> Option<(nat, int)> {
    let k = digit_run(s);
    if k >= 1 && k + 2 <= s.len() && s[k] == CR && s[k + 1] == LF && dec_val(
        s.subrange(0, k),
    ) <= u64::MAX {
        Some((dec_val(s.subrange(0, k)), k + 2))
    } else {
        None
    }
}

/// Parses a signed decimal number terminated by CR LF at the front of `s`,
/// rejecting values outside the 32-bit signed range.
pub open spec fn spec_parse_int_line(s: Seq<u8>) -> Option<(i32, int)> {
    if s.len() >= 1 && s[0] == MINUS {
        match spec_parse_uint_line(s.drop_first()) {
            Some((n, c)) => if n <= 0x8000_0000 {
                Some(((0 - n as int) as i32, 1 + c))
            } else {
                None
            },
            None => None,
        }
    } else {
        match spec_parse_uint_line(s) {
            Some((n, c)) => if n <= 0x7fff_ffff {
                Some((n as i32, c))
            } else {
                None
            },
            None => None,
        }
    }
}

/// Parses the remainder of a bulk string, `s` starting just after the `$`
/// sigil: a byte length, CR LF, the payload, CR LF.
pub open spec fn spec_parse_bulk(s: Seq<u8>) -> Option<(Seq<u8>, int)> {
    match spec_parse_uint_line(s) {
        Some((n, c)) => if c + n + 2 <= s.len() && s[c + n] == CR && s[c + n + 1] == LF {
            Some((s.subrange(c, c + n), c + n + 2))
        } else {
            None
        },
        None => None,
    }
}

/// Parses one frame element at the front of `s`: a bulk string or an
/// integer.
pub open spec fn spec_parse_element(s: Seq<u8>) -> Option<(EntryModel, int)> {
    if s.len() == 0 {
        None
    } else if s[0] == DOLLAR {
        match spec_parse_bulk(s.drop_first()) {
            Some((t, c)) => Some((EntryModel::Text(t), 1 + c)),
            None => None,
        }
    } else if s[0] == COLON {
        match spec_parse_int_line(s.drop_first()) {
            Some((i, c)) => Some((EntryModel::Int(i), 1 + c)),
            None => None,
        }
    } else {
        None
    }
}

/// Parses `n` consecutive frame elements at the front of `s`.
pub open spec fn spec_parse_elements(s: Seq<u8>, n: nat) -> Option<(Seq<EntryModel>, int)>
    decreases n,
{
    if n == 0 {
        Some((Seq::empty(), 0))
    } else {
        match spec_parse_element(s) {
            Some((e, c)) => match spec_parse_elements(
                s.subrange(c, s.len() as int),
                (n - 1) as nat,
            ) {
                Some((es, c2)) => Some((seq![e] + es, c + c2)),
                None => None,
            },
            None => None,
        }
    }
}

/// Parses one complete command frame at the front of `s`: `*<count>\r\n`
/// followed by `count` elements.  A count of zero or less yields an empty
/// command, which the command layer rejects; bytes after the frame are
/// ignored.  `None` means the frame is structurally invalid.
pub open spec fn spec_parse_frame(s: Seq<u8>) -> Option<Seq<EntryModel>> {
    if s.len() == 0 || s[0] != STAR {
        None
    } else {
        match spec_parse_int_line(s.drop_first()) {
            Some((count, c)) => if count <= 0 {
                Some(Seq::empty())
            } else {
                match spec_parse_elements(
                    s.drop_first().subrange(c, s.len() - 1),
                    count as nat,
                ) {
                    Some((es, _)) => Some(es),
                    None => None,
                }
            },
            None => None,
        }
    }
}

/// Appends the decimal representation of `n` to `buf`.
fn push_dec(buf: &mut Vec<u8>, n: u64)
    ensures
        final(buf)@ == old(buf)@ + dec_rep(n as nat),
    decreases n,
{
    if n < 10 {
        buf.push(ZERO + n as u8);
        assert(buf@ =~= old(buf)@ + dec_rep(n as nat));
    } else {
        push_dec(buf, n / 10);
        buf.push(ZERO + (n % 10) as u8);
        assert(buf@ =~= old(buf)@ + dec_rep(n as nat));
    }
}

/// Appends CR LF to `buf`.
pub(crate) fn push_crlf(buf: &mut Vec<u8>)
    ensures
        final(buf)@ == old(buf)@ + crlf(),
{
    buf.push(CR);
    buf.push(LF);
    assert(buf@ =~= old(buf)@ + crlf());
}

/// Appends every byte of `bytes` to `buf`.
pub(crate) fn push_bytes(buf: &mut Vec<u8>, bytes: &[u8])
    ensures
        final(buf)@ == old(buf)@ + bytes@,
{
    let mut i: usize = 0;
    while i < bytes.len()
        invariant
            i <= bytes@.len(),
            buf@ == old(buf)@ + bytes@.subrange(0, i as int),
        decreases bytes@.len() - i,
    {
        buf.push(bytes[i]);
        i = i + 1;
        assert(buf@ =~= old(buf)@ + bytes@.subrange(0, i as int));
    }
    assert(bytes@.subrange(0, bytes@.len() as int) =~= bytes@);
}

impl Entry {
    /// Serializes this entry into its wire bytes.
    pub fn encode(&self) -> (r: Vec<u8>)
        ensures
            r@ == encode_entry(self@),
    {
        let mut buf: Vec<u8> = Vec::new();
        match self {
            Entry::Text(t) => {
                buf.push(DOLLAR);
                push_dec(&mut buf, t.len() as u64);
                push_crlf(&mut buf);
                push_bytes(&mut buf, t.as_slice());
                push_crlf(&mut buf);
                assert(buf@ =~= encode_entry(self@));
            }
            Entry::SimpleText(t) => {
                buf.push(PLUS);
                push_bytes(&mut buf, t.as_slice());
                push_crlf(&mut buf);
                assert(buf@ =~= encode_entry(self@));
            }
            Entry::Int(i) => {
                buf.push(COLON);
                if *i < 0 {
                    buf.push(MINUS);
                    let magnitude: i64 = -(*i as i64);
                    push_dec(&mut buf, magnitude as u64);
                } else {
                    push_dec(&mut buf, *i as u64);
                }
                push_crlf(&mut buf);
                assert(buf@ =~= encode_entry(self@));
            }
            Entry::Nil => {
                buf.push(DOLLAR);
                buf.push(MINUS);
                buf.push(ZERO + 1);
                push_crlf(&mut buf);
                assert(buf@ =~= encode_entry(self@));
            }
        }
        buf
    }
}

/// An ordered group of entries; encoded as one array frame.
pub struct Array(pub Vec<Entry>);

impl View for Array {
    type V = Seq<EntryModel>;

    open spec fn view(&self) -> Seq<EntryModel> {
        entries_view(self.0@)
    }
}

/// Appending one entry extends the concatenated encoding at the end.
proof fn lemma_encode_entries_push(es: Seq<EntryModel>, e: EntryModel)
    ensures
        encode_entries(es.push(e)) == encode_entries(es) + encode_entry(e),
    decreases es.len(),
{
    if es.len() == 0 {
        assert(es.push(e).first() == e);
        assert(es.push(e).drop_first() =~= Seq::<EntryModel>::empty());
        assert(encode_entries(Seq::<EntryModel>::empty()) == Seq::<u8>::empty());
        assert(encode_entries(es.push(e)) == encode_entry(e) + Seq::<u8>::empty());
        assert(encode_entry(e) + Seq::<u8>::empty() =~= encode_entry(e));
        assert(encode_entries(es) + encode_entry(e) =~= encode_entry(e));
    } else {
        assert(es.push(e).drop_first() =~= es.drop_first().push(e));
        lemma_encode_entries_push(es.drop_first(), e);
        assert(encode_entries(es.push(e)) =~= encode_entries(es) + encode_entry(e));
    }
}

impl Array {
    /// Serializes the group as one array frame: `*<count>\r\n` followed by
    /// the encoding of each entry in order.
    pub fn encode(&self) -> (r: Vec<u8>)
        ensures
            r@ == encode_array(self@),
    {
        let mut buf: Vec<u8> = Vec::new();
        buf.push(STAR);
        push_dec(&mut buf, self.0.len() as u64);
        push_crlf(&mut buf);
        let ghost prefix = buf@;
        let mut i: usize = 0;
        while i < self.0.len()
            invariant
                i <= self.0@.len(),
                buf@ == prefix + encode_entries(entries_view(self.0@).subrange(0, i as int)),
            decreases self.0@.len() - i,
        {
            let piece = self.0[i].encode();
            push_bytes(&mut buf, piece.as_slice());
            proof {
                let es = entries_view(self.0@);
                assert(es.subrange(0, i + 1) =~= es.subrange(0, i as int).push(es[i as int]));
                lemma_encode_entries_push(es.subrange(0, i as int), es[i as int]);
            }
            i = i + 1;
        }
        proof {
            let es = entries_view(self.0@);
            assert(es.subrange(0, es.len() as int) =~= es);
            assert(buf@ =~= encode_array(self@));
        }
        buf
    }
}

/// The suffix of `s` that starts at `i`.
pub open spec fn suffix(s: Seq<u8>, i: int) -> Seq<u8> {
    s.subrange(i, s.len() as int)
}

/// A digit run only grows in value as more digits are appended.
proof fn lemma_dec_val_monotone(s: Seq<u8>, a: int, b: int)
    requires
        0 <= a <= b <= s.len(),
        forall|m: int| 0 <= m < b ==> is_digit(#[trigger] s[m]),
    ensures
        dec_val(s.subrange(0, a)) <= dec_val(s.subrange(0, b)),
    decreases b - a,
{
    if a < b {
        lemma_dec_val_monotone(s, a, b - 1);
        let p = s.subrange(0, b - 1);
        let q = s.subrange(0, b);
        assert(q.drop_last() =~= p);
        assert(dec_val(q) == dec_val(p) * 10 + (s[b - 1] - ZERO));
        assert(dec_val(p) * 10 >= dec_val(p));
    }
}

/// Whether `t` is a plain decimal number: at least one digit, nothing else,
/// and a value that fits in a machine word.
pub open spec fn is_u64_digits(t: Seq<u8>) -> bool {
    &&& t.len() >= 1
    &&& forall|i: int| 0 <= i < t.len() ==> is_digit(#[trigger] t[i])
    &&& dec_val(t) <= u64::MAX
}

/// Parses a whole byte string as an unsigned decimal number.
pub(crate) fn parse_u64_digits(t: &[u8]) -> (r: Option<u64>)
    ensures
        match r {
            Some(v) => is_u64_digits(t@) && v as nat == dec_val(t@),
            None => !is_u64_digits(t@),
        },
{
    if t.len() == 0 {
        return None;
    }
    let mut v: u64 = 0;
    let mut m: usize = 0;
    while m < t.len()
        invariant
            m <= t@.len(),
            t@.len() >= 1,
            forall|p: int| 0 <= p < m ==> is_digit(#[trigger] t@[p]),
            v as nat == dec_val(t@.subrange(0, m as int)),
        decreases t@.len() - m,
    {
        if t[m] < ZERO || t[m] > ZERO + 9 {
            return None;
        }
        let d = t[m] - ZERO;
        proof {
            let p = t@.subrange(0, m as int);
            let q = t@.subrange(0, m + 1);
            assert(q.drop_last() =~= p);
            assert(q.last() == t@[m as int]);
        }
        let limit = (u64::MAX - d as u64) / 10;
        if v > limit {
            proof {
                assert(v * 10 >= (limit + 1) * 10);
                assert(dec_val(t@.subrange(0, m + 1)) > u64::MAX);
                assert(t@.subrange(0, t@.len() as int) =~= t@);
                if forall|i: int| 0 <= i < t@.len() ==> is_digit(#[trigger] t@[i]) {
                    lemma_dec_val_monotone(t@, m + 1, t@.len() as int);
                }
            }
            return None;
        }
        proof {
            assert(v * 10 <= ((u64::MAX - d as u64) / 10) * 10);
        }
        v = v * 10 + d as u64;
        m = m + 1;
    }
    proof {
        assert(t@.subrange(0, t@.len() as int) =~= t@);
    }
    Some(v)
}

/// Scans the digit run that starts at `i`, returning its end.
fn scan_digits(s: &[u8], i: usize) -> (j: usize)
    requires
        i <= s@.len(),
    ensures
        i <= j <= s@.len(),
        j - i == digit_run(suffix(s@, i as int)),
        forall|m: int| i <= m < j ==> is_digit(#[trigger] s@[m]),
{
    let mut j = i;
    while j < s.len() && s[j] >= ZERO && s[j] <= ZERO + 9
        invariant
            i <= j <= s@.len(),
            digit_run(suffix(s@, i as int)) == (j - i) + digit_run(suffix(s@, j as int)),
            forall|m: int| i <= m < j ==> is_digit(#[trigger] s@[m]),
        decreases s@.len() - j,
    {
        proof {
            assert(suffix(s@, j as int).drop_first() =~= suffix(s@, j + 1));
        }
        j = j + 1;
    }
    proof {
        if j < s@.len() {
            assert(!is_digit(suffix(s@, j as int)[0]));
        }
        assert(digit_run(suffix(s@, j as int)) == 0);
    }
    j
}

/// Parses an unsigned decimal number terminated by CR LF, starting at `i`.
/// On success returns the value and the position just past the terminator.
fn parse_uint_line(s: &[u8], i: usize) -> (r: Option<(u64, usize)>)
    requires
        i <= s@.len(),
    ensures
        match spec_parse_uint_line(suffix(s@, i as int)) {
            Some((n, c)) => (r matches Some((v, next)) && v as nat == n && next == i + c),
            None => r is None,
        },
{
    let ghost t = suffix(s@, i as int);
    let j = scan_digits(s, i);
    proof {
        assert(forall|m: int| 0 <= m < t.len() ==> t[m] == s@[i + m]);
    }
    if j == i {
        return None;
    }
    if s.len() - j < 2 || s[j] != CR || s[j + 1] != LF {
        proof {
            let k = digit_run(t);
            if k + 2 <= t.len() {
                assert(t[k] == s@[i + k]);
                assert(t[k + 1] == s@[i + k + 1]);
            }
        }
        return None;
    }
    // The run and terminator are in place; accumulate the value, rejecting
    // numbers that exceed the machine word.
    let mut v: u64 = 0;
    let mut m = i;
    while m < j
        invariant
            i <= m <= j <= s@.len(),
            j - i == digit_run(suffix(s@, i as int)),
            forall|p: int| i <= p < j ==> is_digit(#[trigger] s@[p]),
            v as nat == dec_val(s@.subrange(i as int, m as int)),
        decreases j - m,
    {
        let d = s[m] - ZERO;
        proof {
            let p = s@.subrange(i as int, m as int);
            let q = s@.subrange(i as int, m + 1);
            assert(q.drop_last() =~= p);
            assert(q.last() == s@[m as int]);
        }
        let limit = (u64::MAX - d as u64) / 10;
        if v > limit {
            proof {
                let t0 = suffix(s@, i as int);
                let q = s@.subrange(i as int, m + 1);
                assert(v * 10 >= (limit + 1) * 10);
                assert(dec_val(q) > u64::MAX);
                let shifted = s@.subrange(i as int, j as int);
                assert(forall|p: int| 0 <= p < shifted.len() ==> shifted[p] == s@[i + p]);
                assert(forall|p: int| 0 <= p < j - i ==> is_digit(#[trigger] shifted[p]));
                assert(shifted.subrange(0, m + 1 - i) =~= q);
                assert(shifted.subrange(0, j - i) =~= shifted);
                lemma_dec_val_monotone(shifted, m + 1 - i, j - i);
                assert(t0.subrange(0, digit_run(t0)) =~= shifted);
            }
            return None;
        }
        proof {
            assert(v <= (u64::MAX - d as u64) / 10);
            assert(v * 10 <= ((u64::MAX - d as u64) / 10) * 10);
        }
        v = v * 10 + d as u64;
        m = m + 1;
    }
    proof {
        let t0 = suffix(s@, i as int);
        let k = digit_run(t0);
        assert(t0.subrange(0, k) =~= s@.subrange(i as int, j as int));
        assert(t0[k] == s@[i + k]);
        assert(t0[k + 1] == s@[i + k + 1]);
    }
    Some((v, j + 2))
}

/// Parses a signed decimal number terminated by CR LF, starting at `i`.
fn parse_int_line(s: &[u8], i: usize) -> (r: Option<(i32, usize)>)
    requires
        i <= s@.len(),
    ensures
        match spec_parse_int_line(suffix(s@, i as int)) {
            Some((n, c)) => (r matches Some((v, next)) && v == n && next == i + c),
            None => r is None,
        },
{
    let ghost t = suffix(s@, i as int);
    if i < s.len() && s[i] == MINUS {
        proof {
            assert(t[0] == s@[i as int]);
            assert(t.drop_first() =~= suffix(s@, i + 1));
        }
        match parse_uint_line(s, i + 1) {
            Some((n, next)) => {
                if n <= 0x8000_0000 {
                    Some(((-(n as i64)) as i32, next))
                } else {
                    None
                }
            }
            None => None,
        }
    } else {
        proof {
            if t.len() >= 1 {
                assert(t[0] == s@[i as int]);
            }
        }
        match parse_uint_line(s, i) {
            Some((n, next)) => {
                if n <= 0x7fff_ffff {
                    Some((n as i32, next))
                } else {
                    None
                }
            }
            None => None,
        }
    }
}

/// Copies `s[from..to]` into a fresh vector.
pub(crate) fn copy_range(s: &[u8], from: usize, to: usize) -> (r: Vec<u8>)
    requires
        from <= to <= s@.len(),
    ensures
        r@ == s@.subrange(from as int, to as int),
{
    let mut r: Vec<u8> = Vec::new();
    let mut m = from;
    while m < to
        invariant
            from <= m <= to <= s@.len(),
            r@ == s@.subrange(from as int, m as int),
        decreases to - m,
    {
        r.push(s[m]);
        proof {
            assert(s@.subrange(from as int, m + 1) =~= s@.subrange(from as int, m as int).push(
                s@[m as int],
            ));
        }
        m = m + 1;
    }
    r
}

/// Parses one frame element starting at `i`.
fn parse_element(s: &[u8], i: usize) -> (r: Option<(Entry, usize)>)
    requires
        i <= s@.len(),
    ensures
        match spec_parse_element(suffix(s@, i as int)) {
            Some((e, c)) => (r matches Some((entry, next)) && entry@ == e && next == i + c),
            None => r is None,
        },
{
    let ghost t = suffix(s@, i as int);
    if i >= s.len() {
        return None;
    }
    proof {
        assert(t[0] == s@[i as int]);
        assert(t.drop_first() =~= suffix(s@, i + 1));
    }
    if s[i] == DOLLAR {
        let ghost u = suffix(s@, i + 1);
        match parse_uint_line(s, i + 1) {
            Some((n, next)) => {
                // Payload length in hand; check the payload and terminator.
                let rem = s.len() - next;
                if rem < 2 || n > (rem - 2) as u64 {
                    proof {
                        if spec_parse_bulk(u) is Some {
                            let c = spec_parse_uint_line(u).unwrap().1;
                            assert(c + spec_parse_uint_line(u).unwrap().0 + 2 <= u.len());
                        }
                    }
                    return None;
                }
                let end = next + n as usize;
                proof {
                    assert(u[next - i - 1 + n] == s@[end as int]);
                    assert(u[next - i - 1 + n + 1] == s@[end + 1]);
                }
                if s[end] != CR || s[end + 1] != LF {
                    return None;
                }
                let payload = copy_range(s, next, end);
                proof {
                    assert(u.subrange(next - i - 1, next - i - 1 + n) =~= s@.subrange(
                        next as int,
                        end as int,
                    ));
                }
                Some((Entry::Text(payload), end + 2))
            }
            None => None,
        }
    } else if s[i] == COLON {
        match parse_int_line(s, i + 1) {
            Some((v, next)) => Some((Entry::Int(v), next)),
            None => None,
        }
    } else {
        None
    }
}

/// Parses `n` consecutive frame elements starting at `i`.
fn parse_elements(s: &[u8], i: usize, n: u64) -> (r: Option<(Vec<Entry>, usize)>)
    requires
        i <= s@.len(),
    ensures
        match spec_parse_elements(suffix(s@, i as int), n as nat) {
            Some((es, c)) => (r matches Some((v, next)) && entries_view(v@) == es && next == i
                + c),
            None => r is None,
        },
    decreases n,
{
    let ghost t = suffix(s@, i as int);
    if n == 0 {
        let v: Vec<Entry> = Vec::new();
        proof {
            assert(entries_view(v@) =~= Seq::<EntryModel>::empty());
        }
        return Some((v, i));
    }
    match parse_element(s, i) {
        Some((e, next)) => {
            proof {
                let c = spec_parse_element(t).unwrap().1;
                assert(t.subrange(c, t.len() as int) =~= suffix(s@, next as int));
            }
            match parse_elements(s, next, n - 1) {
                Some((mut v, next2)) => {
                    let ghost tail_views = entries_view(v@);
                    v.insert(0, e);
                    proof {
                        assert(entries_view(v@) =~= seq![e@] + tail_views);
                    }
                    Some((v, next2))
                }
                None => None,
            }
        }
        None => None,
    }
}

/// The wire decoder: parses one frame of bytes into entries.
pub struct RESPParser;

impl RESPParser {
    /// Parses one complete command frame from the front of `input`,
    /// returning its entries in order.  Fails on a structurally invalid
    /// frame; a non-positive element count yields an empty entry sequence.
    pub fn parse(input: &[u8]) -> (r: Result<Vec<Entry>, ProtocolError>)
        ensures
            match spec_parse_frame(input@) {
                Some(es) => (r matches Ok(v) && entries_view(v@) == es),
                None => r is Err,
            },
    {
        if input.len() == 0 || input[0] != STAR {
            return Err(ProtocolError);
        }
        proof {
            assert(input@.drop_first() =~= suffix(input@, 1));
        }
        match parse_int_line(input, 1) {
            Some((count, next)) => {
                if count <= 0 {
                    let v: Vec<Entry> = Vec::new();
                    proof {
                        assert(entries_view(v@) =~= Seq::<EntryModel>::empty());
                    }
                    return Ok(v);
                }
                proof {
                    let c = spec_parse_int_line(input@.drop_first()).unwrap().1;
                    assert(input@.drop_first().subrange(c, input@.len() - 1) =~= suffix(
                        input@,
                        next as int,
                    ));
                }
                match parse_elements(input, next, count as u64) {
                    Some((v, _)) => Ok(v),
                    None => Err(ProtocolError),
                }
            }
            None => Err(ProtocolError),
        }
    }
}

/// The decimal representation is a nonempty digit run whose value is the
/// number itself.
proof fn lemma_dec_rep(n: nat)
    ensures
        dec_rep(n).len() >= 1,
        forall|i: int| 0 <= i < dec_rep(n).len() ==> is_digit(#[trigger] dec_rep(n)[i]),
        dec_val(dec_rep(n)) == n,
    decreases n,
{
    if n < 10 {
        let t = dec_rep(n);
        assert(t.drop_last() =~= Seq::<u8>::empty());
        assert(dec_val(t) == dec_val(Seq::<u8>::empty()) * 10 + (t.last() - ZERO));
    } else {
        lemma_dec_rep(n / 10);
        let t = dec_rep(n);
        assert(t.drop_last() =~= dec_rep(n / 10));
        assert(t.last() == (ZERO + n % 10) as u8);
        assert(dec_val(t) == (n / 10) * 10 + n % 10);
    }
}

/// A digit run of length `k` followed by a non-digit scans as exactly `k`.
proof fn lemma_digit_run_of(t: Seq<u8>, k: int)
    requires
        0 <= k < t.len(),
        forall|m: int| 0 <= m < k ==> is_digit(#[trigger] t[m]),
        !is_digit(t[k]),
    ensures
        digit_run(t) == k,
    decreases k,
{
    if k == 0 {
    } else {
        assert(forall|m: int| 0 <= m < k - 1 ==> t.drop_first()[m] == t[m + 1]);
        assert(t.drop_first()[k - 1] == t[k]);
        lemma_digit_run_of(t.drop_first(), k - 1);
    }
}

/// Reading back a written decimal line yields the number.
proof fn lemma_parse_uint_line_of_rep(n: nat, tail: Seq<u8>)
    requires
        n <= u64::MAX,
    ensures
        spec_parse_uint_line(dec_rep(n) + crlf() + tail) == Some(
            (n, dec_rep(n).len() + 2 as int),
        ),
{
    let t = dec_rep(n) + crlf() + tail;
    lemma_dec_rep(n);
    let k = dec_rep(n).len() as int;
    assert(t[k] == CR);
    assert(!is_digit(t[k]));
    assert(forall|m: int| 0 <= m < k ==> t[m] == dec_rep(n)[m]);
    lemma_digit_run_of(t, k);
    assert(t[k + 1] == LF);
    assert(t.subrange(0, k) =~= dec_rep(n));
}

/// Reading back a written signed decimal line yields the number.
proof fn lemma_parse_int_line_of_rep(i: i32, tail: Seq<u8>)
    ensures
        spec_parse_int_line(int_rep(i as int) + crlf() + tail) == Some(
            (i, int_rep(i as int).len() + 2 as int),
        ),
{
    let t = int_rep(i as int) + crlf() + tail;
    if i < 0 {
        let n = (-(i as int)) as nat;
        lemma_dec_rep(n);
        assert(t[0] == MINUS);
        assert(t.drop_first() =~= dec_rep(n) + crlf() + tail);
        lemma_parse_uint_line_of_rep(n, tail);
        assert((0 - n as int) as i32 == i);
    } else {
        let n = i as nat;
        lemma_dec_rep(n);
        assert(is_digit(t[0]));
        assert(t[0] != MINUS);
        assert(t =~= dec_rep(n) + crlf() + tail);
        lemma_parse_uint_line_of_rep(n, tail);
    }
}

/// Whether the entries all have an input form: bulk strings of
/// representable length, and integers.
pub open spec fn wf_input_entries(es: Seq<EntryModel>) -> bool {
    forall|i: int|
        0 <= i < es.len() ==> match #[trigger] es[i] {
            EntryModel::Int(_) => true,
            EntryModel::Text(t) => t.len() <= u64::MAX,
            EntryModel::SimpleText(_) => false,
            EntryModel::Nil => false,
        }
}

/// Reading back one encoded element yields that element, whatever follows.
proof fn lemma_parse_element_of_encoded(e: EntryModel, tail: Seq<u8>)
    requires
        wf_input_entries(seq![e]),
    ensures
        spec_parse_element(encode_entry(e) + tail) == Some(
            (e, encode_entry(e).len() as int),
        ),
        encode_entry(e).len() >= 1,
{
    let b = encode_entry(e) + tail;
    match e {
        EntryModel::Text(t) => {
            assert(seq![e][0] == e);
            assert(t.len() <= u64::MAX);
            lemma_dec_rep(t.len());
            assert(b[0] == DOLLAR);
            let u = b.drop_first();
            let inner_tail = t + crlf() + tail;
            assert(u =~= dec_rep(t.len()) + crlf() + inner_tail);
            lemma_parse_uint_line_of_rep(t.len(), inner_tail);
            let c = dec_rep(t.len()).len() + 2 as int;
            assert(u.subrange(c, c + t.len() as int) =~= t);
            assert(u[c + t.len()] == CR);
            assert(u[c + t.len() + 1] == LF);
            assert(spec_parse_bulk(u) == Some((t, c + t.len() + 2 as int)));
        }
        EntryModel::Int(i) => {
            assert(b[0] == COLON);
            assert(b[0] != DOLLAR);
            assert(b.drop_first() =~= int_rep(i as int) + crlf() + tail);
            lemma_parse_int_line_of_rep(i, tail);
        }
        EntryModel::SimpleText(_) => {
            assert(seq![e][0] == e);
        }
        EntryModel::Nil => {
            assert(seq![e][0] == e);
        }
    }
}

/// Reading back all encoded elements yields them in order.
proof fn lemma_parse_elements_of_encoded(es: Seq<EntryModel>, tail: Seq<u8>)
    requires
        wf_input_entries(es),
    ensures
        spec_parse_elements(encode_entries(es) + tail, es.len()) == Some(
            (es, encode_entries(es).len() as int),
        ),
    decreases es.len(),
{
    let b = encode_entries(es) + tail;
    if es.len() == 0 {
        assert(spec_parse_elements(b, 0) == Some(
            (Seq::<EntryModel>::empty(), 0 as int),
        ));
        assert(es =~= Seq::<EntryModel>::empty());
        assert(encode_entries(es) =~= Seq::<u8>::empty());
    } else {
        let e = es.first();
        let rest = es.drop_first();
        let rest_tail = encode_entries(rest) + tail;
        assert(b =~= encode_entry(e) + rest_tail);
        assert(es[0] == e);
        assert(wf_input_entries(seq![e])) by {
            assert(seq![e][0] == es[0]);
        }
        lemma_parse_element_of_encoded(e, rest_tail);
        let c = encode_entry(e).len() as int;
        assert(b.subrange(c, b.len() as int) =~= rest_tail);
        assert(forall|m: int| 0 <= m < rest.len() ==> rest[m] == es[m + 1]);
        lemma_parse_elements_of_encoded(rest, tail);
        assert(seq![e] + rest =~= es);
    }
}

/// Decoding the encoding of an array of bulk strings and integers
/// reproduces exactly those entries; simple strings and the nil marker are
/// reply-only shapes with no input form.
pub proof fn lemma_wire_round_trip(es: Seq<EntryModel>)
    requires
        wf_input_entries(es),
        es.len() <= 0x7fff_ffff,
    ensures
        spec_parse_frame(encode_array(es)) == Some(es),
{
    let b = encode_array(es);
    lemma_dec_rep(es.len());
    assert(b[0] == STAR);
    let u = b.drop_first();
    let count_tail = encode_entries(es);
    assert(u =~= dec_rep(es.len()) + crlf() + count_tail);
    assert(is_digit(u[0]));
    assert(u[0] != MINUS);
    lemma_parse_uint_line_of_rep(es.len(), count_tail);
    let c = dec_rep(es.len()).len() + 2 as int;
    assert(spec_parse_int_line(u) == Some((es.len() as i32, c)));
    if es.len() == 0 {
        assert(es =~= Seq::<EntryModel>::empty());
    } else {
        assert(u.subrange(c, b.len() - 1) =~= encode_entries(es) + Seq::<u8>::empty());
        lemma_parse_elements_of_encoded(es, Seq::<u8>::empty());
    }
}

} // verus!

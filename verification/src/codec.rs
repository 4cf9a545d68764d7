//! Packet codec for the remote debug wire protocol: pure encode/decode
//! with framing, escaping and a two-hex-digit checksum, no I/O.
//!
//! A command packet travels as `$<body>#<hh>` and a notification as
//! `%<body>#<hh>`. The body is the payload with each occurrence of the
//! four special bytes `#`, `$`, `}`, `*` escaped as `}` followed by the
//! byte xor 0x20; `hh` is the sum of the payload bytes (before
//! escaping) modulo 256, written as two lowercase hex digits. On
//! receive, the body may also carry run-length repeats: an unescaped
//! `*` followed by a count byte `n` repeats the previous payload byte
//! `n - 29` more times. A lone `+` byte outside the delimited framing
//! is an acknowledgement, and anything before a start delimiter is
//! skipped as line noise.

use vstd::prelude::*;

verus! {

/// Start-of-packet delimiter of a command packet (`$`).
pub const START_COMMAND: u8 = 36;

/// Start-of-packet delimiter of a notification packet (`%`).
pub const START_NOTIFICATION: u8 = 37;

/// End-of-body delimiter (`#`); the two checksum digits follow it.
pub const END_DELIMITER: u8 = 35;

/// A lone acknowledgement byte (`+`).
pub const ACK_BYTE: u8 = 43;

/// The escape prefix (`}`); the escaped byte follows, xor 0x20.
pub const ESCAPE_BYTE: u8 = 125;

/// The run-length marker (`*`); the count byte follows.
pub const RLE_MARKER: u8 = 42;

/// The kind of a protocol packet.
#[derive(Clone, Copy, PartialEq, Eq, Structural, Debug)]
pub enum PacketKind {
    Notification,
    Command,
    Acknowledgement,
}

/// Why a wire buffer failed to decode.
#[derive(Clone, Copy, PartialEq, Eq, Structural, Debug)]
pub enum DecodeError {
    /// No start delimiter, the buffer ends mid-packet, bytes trail the
    /// checksum, an escape or repeat marker has no byte to work on.
    Framing,
    /// The embedded checksum is not two lowercase hex digits, or does
    /// not equal the sum of the payload bytes modulo 256.
    Checksum,
}

/// A decoded unit of protocol exchange.
pub struct Packet {
    pub kind: PacketKind,
    pub payload: Vec<u8>,
}

impl View for Packet {
    type V = (PacketKind, Seq<u8>);

    open spec fn view(&self) -> (PacketKind, Seq<u8>) {
        (self.kind, self.payload@)
    }
}

/// Sum of the payload bytes, modulo 256.
pub open spec fn checksum_spec(p: Seq<u8>) -> u8
    decreases p.len(),
{
    if p.len() == 0 {
        0
    } else {
        (checksum_spec(p.drop_last()) + p.last()) as u8
    }
}

/// The lowercase hex digit for a value below 16.
pub open spec fn hex_digit(n: u8) -> u8 {
    if n < 10 {
        (48 + n) as u8
    } else {
        (87 + n) as u8
    }
}

/// Whether `c` is a lowercase hex digit (`0`-`9`, `a`-`f`).
pub open spec fn is_hex_digit(c: u8) -> bool {
    (48 <= c && c <= 57) || (97 <= c && c <= 102)
}

/// The value of a lowercase hex digit.
pub open spec fn hex_digit_value(c: u8) -> u8 {
    if c <= 57 {
        (c - 48) as u8
    } else {
        (c - 87) as u8
    }
}

/// The start delimiter that introduces a packet of kind `kind`.
pub open spec fn start_byte(kind: PacketKind) -> u8 {
    match kind {
        PacketKind::Command => START_COMMAND,
        PacketKind::Notification => START_NOTIFICATION,
        PacketKind::Acknowledgement => ACK_BYTE,
    }
}

/// Whether a payload byte must be escaped on the wire.
pub open spec fn needs_escape(c: u8) -> bool {
    c == END_DELIMITER || c == START_COMMAND || c == ESCAPE_BYTE || c == RLE_MARKER
}

/// The wire form of one payload byte.
pub open spec fn escaped_byte(c: u8) -> Seq<u8> {
    if needs_escape(c) {
        seq![ESCAPE_BYTE, c ^ 32]
    } else {
        seq![c]
    }
}

/// The wire body of a payload: every special byte escaped.
pub open spec fn escape_spec(p: Seq<u8>) -> Seq<u8>
    decreases p.len(),
{
    if p.len() == 0 {
        Seq::empty()
    } else {
        escaped_byte(p[0]) + escape_spec(p.skip(1))
    }
}

/// How many extra repeats a run-length count byte asks for: 29 less
/// than the byte, floored at zero.
pub open spec fn rle_count(c: u8) -> u8 {
    if c >= 29 {
        (c - 29) as u8
    } else {
        0
    }
}

/// The payload a received wire body `s` spells, appended to `acc`:
/// `}` un-escapes the next byte, an unescaped `*` repeats the previous
/// payload byte per its count byte, anything else stands for itself.
/// `None` when an escape or repeat marker has nothing to work on.
pub open spec fn expand_spec(s: Seq<u8>, acc: Seq<u8>) -> Option<Seq<u8>>
    decreases s.len(),
{
    if s.len() == 0 {
        Some(acc)
    } else if s[0] == ESCAPE_BYTE {
        if s.len() < 2 {
            None
        } else {
            expand_spec(s.skip(2), acc.push(s[1] ^ 32))
        }
    } else if s[0] == RLE_MARKER {
        if s.len() < 2 || acc.len() == 0 {
            None
        } else {
            expand_spec(s.skip(2), acc + Seq::new(rle_count(s[1]) as nat, |j: int| acc.last()))
        }
    } else {
        expand_spec(s.skip(1), acc.push(s[0]))
    }
}

/// The wire bytes of a packet: an acknowledgement is the lone ack
/// byte; any other kind is the start delimiter, the escaped payload,
/// the end delimiter, and the checksum of the unescaped payload as two
/// lowercase hex digits.
pub open spec fn encode_spec(kind: PacketKind, p: Seq<u8>) -> Seq<u8> {
    if kind == PacketKind::Acknowledgement {
        seq![ACK_BYTE]
    } else {
        seq![start_byte(kind)] + escape_spec(p)
            + seq![
            END_DELIMITER,
            hex_digit(checksum_spec(p) / 16),
            hex_digit(checksum_spec(p) % 16),
        ]
    }
}

/// The first index at or after `i` holding a start delimiter or the
/// ack byte; everything before it is line noise.
pub open spec fn start_delimiter_pos(w: Seq<u8>, i: int) -> Option<int>
    decreases w.len() - i
        when 0 <= i <= w.len()
{
    if i >= w.len() {
        None
    } else if w[i] == ACK_BYTE || w[i] == START_COMMAND || w[i] == START_NOTIFICATION {
        Some(i)
    } else {
        start_delimiter_pos(w, i + 1)
    }
}

/// The first index at or after `i` holding the end delimiter, if any.
pub open spec fn end_delimiter_pos(w: Seq<u8>, i: int) -> Option<int>
    decreases w.len() - i
        when 0 <= i <= w.len()
{
    if i >= w.len() {
        None
    } else if w[i] == END_DELIMITER {
        Some(i)
    } else {
        end_delimiter_pos(w, i + 1)
    }
}

/// What a wire buffer holding exactly one packet, possibly preceded by
/// line noise, decodes to. The body ends at the first raw end
/// delimiter; escaping keeps one out of any payload, and senders do
/// not use repeat count bytes that collide with it.
pub open spec fn decode_spec(w: Seq<u8>) -> Result<(PacketKind, Seq<u8>), DecodeError> {
    match start_delimiter_pos(w, 0) {
        None => Err(DecodeError::Framing),
        Some(sp) => {
            if w[sp] == ACK_BYTE {
                if w.len() == sp + 1 {
                    Ok((PacketKind::Acknowledgement, Seq::empty()))
                } else {
                    Err(DecodeError::Framing)
                }
            } else {
                match end_delimiter_pos(w, sp + 1) {
                    None => Err(DecodeError::Framing),
                    Some(h) => {
                        if w.len() != h + 3 {
                            Err(DecodeError::Framing)
                        } else {
                            match expand_spec(w.subrange(sp + 1, h), Seq::empty()) {
                                None => Err(DecodeError::Framing),
                                Some(payload) => {
                                    let c1 = w[h + 1];
                                    let c2 = w[h + 2];
                                    if !is_hex_digit(c1) || !is_hex_digit(c2) {
                                        Err(DecodeError::Checksum)
                                    } else if hex_digit_value(c1) * 16 + hex_digit_value(c2)
                                        != checksum_spec(payload) {
                                        Err(DecodeError::Checksum)
                                    } else {
                                        let kind = if w[sp] == START_COMMAND {
                                            PacketKind::Command
                                        } else {
                                            PacketKind::Notification
                                        };
                                        Ok((kind, payload))
                                    }
                                },
                            }
                        }
                    },
                }
            }
        },
    }
}

/// Computes the checksum of a payload: the sum of its bytes modulo 256.
pub fn checksum(p: &Vec<u8>) -> (r: u8)
    ensures
        r == checksum_spec(p@),
{
    let mut sum: u8 = 0;
    let mut i: usize = 0;
    while i < p.len()
        invariant
            0 <= i <= p.len(),
            sum == checksum_spec(p@.take(i as int)),
        decreases p.len() - i,
    {
        let b = p[i];
        let next = ((sum as u16 + b as u16) % 256) as u8;
        proof {
            assert(p@.take(i + 1).drop_last() =~= p@.take(i as int));
            assert(p@.take(i + 1).last() == p@[i as int]);
            assert(next == (sum + b) as u8) by (bit_vector)
                requires
                    next == ((sum as u16 + b as u16) % 256) as u8,
            ;
        }
        sum = next;
        i = i + 1;
    }
    proof {
        assert(p@.take(p@.len() as int) =~= p@);
    }
    sum
}

/// The lowercase hex digit for a value below 16.
pub fn hex_digit_of(n: u8) -> (r: u8)
    requires
        n < 16,
    ensures
        r == hex_digit(n),
{
    if n < 10 {
        48 + n
    } else {
        87 + n
    }
}

/// Whether `c` is a lowercase hex digit.
pub fn is_hex_digit_byte(c: u8) -> (r: bool)
    ensures
        r == is_hex_digit(c),
{
    (48 <= c && c <= 57) || (97 <= c && c <= 102)
}

/// The value of a lowercase hex digit.
pub fn hex_digit_value_of(c: u8) -> (r: u8)
    requires
        is_hex_digit(c),
    ensures
        r == hex_digit_value(c),
        r < 16,
{
    if c <= 57 {
        c - 48
    } else {
        c - 87
    }
}

/// Whether a payload byte must be escaped on the wire.
fn must_escape(c: u8) -> (r: bool)
    ensures
        r == needs_escape(c),
{
    c == END_DELIMITER || c == START_COMMAND || c == ESCAPE_BYTE || c == RLE_MARKER
}

/// Encodes a packet for the wire: start delimiter, escaped payload,
/// end delimiter, checksum of the unescaped payload as two lowercase
/// hex digits; an acknowledgement is the lone ack byte.
pub fn encode(kind: PacketKind, payload: &Vec<u8>) -> (w: Vec<u8>)
    ensures
        w@ == encode_spec(kind, payload@),
{
    let mut w: Vec<u8> = Vec::new();
    if let PacketKind::Acknowledgement = kind {
        w.push(ACK_BYTE);
        proof {
            assert(w@ =~= encode_spec(kind, payload@));
        }
        return w;
    }
    let start = if let PacketKind::Command = kind {
        START_COMMAND
    } else {
        START_NOTIFICATION
    };
    let cs = checksum(payload);
    w.push(start);
    let mut i: usize = 0;
    while i < payload.len()
        invariant
            0 <= i <= payload.len(),
            w@ == seq![start] + escape_spec(payload@.take(i as int)),
        decreases payload.len() - i,
    {
        let c = payload[i];
        proof {
            lemma_escape_snoc(payload@.take(i as int), payload@[i as int]);
            assert(payload@.take(i as int).push(payload@[i as int]) =~= payload@.take(i + 1));
        }
        if must_escape(c) {
            w.push(ESCAPE_BYTE);
            w.push(c ^ 32);
            proof {
                assert(seq![start] + escape_spec(payload@.take(i as int)) + seq![
                    ESCAPE_BYTE,
                    c ^ 32,
                ] =~= seq![start] + escape_spec(payload@.take(i + 1)));
            }
        } else {
            w.push(c);
            proof {
                assert(seq![start] + escape_spec(payload@.take(i as int)) + seq![c] =~= seq![start]
                    + escape_spec(payload@.take(i + 1)));
            }
        }
        i = i + 1;
    }
    w.push(END_DELIMITER);
    w.push(hex_digit_of(cs / 16));
    w.push(hex_digit_of(cs % 16));
    proof {
        assert(payload@.take(payload@.len() as int) =~= payload@);
        assert(w@ =~= encode_spec(kind, payload@));
    }
    w
}

/// Expands a received wire body into the payload it spells: `}`
/// un-escapes the next byte, an unescaped `*` repeats the previous
/// payload byte per its count byte. `None` when an escape or repeat
/// marker has nothing to work on.
fn expand(s: &Vec<u8>) -> (r: Option<Vec<u8>>)
    ensures
        match r {
            Some(b) => expand_spec(s@, Seq::empty()) == Some(b@),
            None => expand_spec(s@, Seq::empty()) is None,
        },
{
    let mut out: Vec<u8> = Vec::new();
    let mut i: usize = 0;
    proof {
        assert(s@.skip(0) =~= s@);
    }
    while i < s.len()
        invariant
            0 <= i <= s@.len(),
            expand_spec(s@, Seq::<u8>::empty()) == expand_spec(s@.skip(i as int), out@),
        decreases s@.len() - i,
    {
        let c = s[i];
        if c == ESCAPE_BYTE {
            if i + 1 == s.len() {
                return None;
            }
            out.push(s[i + 1] ^ 32);
            proof {
                assert(s@.skip(i as int).skip(2) =~= s@.skip(i + 2));
            }
            i = i + 2;
        } else if c == RLE_MARKER {
            if i + 1 == s.len() || out.len() == 0 {
                return None;
            }
            let last = out[out.len() - 1];
            let n = s[i + 1];
            let count = if n >= 29 {
                n - 29
            } else {
                0
            };
            let ghost prev = out@;
            let mut k: u8 = 0;
            while k < count
                invariant
                    0 <= k <= count,
                    prev.len() > 0,
                    last == prev.last(),
                    out@ == prev + Seq::new(k as nat, |j: int| prev.last()),
                decreases count - k,
            {
                out.push(last);
                proof {
                    assert(prev + Seq::new(k as nat, |j: int| prev.last()) + seq![prev.last()]
                        =~= prev + Seq::new((k + 1) as nat, |j: int| prev.last()));
                }
                k = k + 1;
            }
            proof {
                assert(out@ == prev + Seq::new(rle_count(s@[i + 1]) as nat, |j: int| prev.last()));
                assert(s@.skip(i as int).skip(2) =~= s@.skip(i + 2));
            }
            i = i + 2;
        } else {
            out.push(c);
            proof {
                assert(s@.skip(i as int).skip(1) =~= s@.skip(i + 1));
            }
            i = i + 1;
        }
    }
    proof {
        assert(s@.skip(i as int) =~= Seq::<u8>::empty());
    }
    Some(out)
}

/// Decodes a wire buffer holding exactly one packet, skipping line
/// noise before the start delimiter, un-escaping and expanding the
/// body, and checking the embedded checksum against the sum of the
/// payload bytes.
pub fn decode(w: &Vec<u8>) -> (r: Result<Packet, DecodeError>)
    ensures
        match r {
            Ok(p) => decode_spec(w@) == Ok::<(PacketKind, Seq<u8>), DecodeError>(p@),
            Err(e) => decode_spec(w@) == Err::<(PacketKind, Seq<u8>), DecodeError>(e),
        },
{
    let mut sp: usize = 0;
    while sp < w.len() && w[sp] != ACK_BYTE && w[sp] != START_COMMAND && w[sp]
        != START_NOTIFICATION
        invariant
            0 <= sp <= w.len(),
            start_delimiter_pos(w@, 0) == start_delimiter_pos(w@, sp as int),
        decreases w.len() - sp,
    {
        sp = sp + 1;
    }
    if sp == w.len() {
        assert(start_delimiter_pos(w@, sp as int) is None);
        return Err(DecodeError::Framing);
    }
    assert(start_delimiter_pos(w@, 0) == Some(sp as int));
    let b0 = w[sp];
    if b0 == ACK_BYTE {
        if w.len() - sp == 1 {
            let p = Packet { kind: PacketKind::Acknowledgement, payload: Vec::new() };
            return Ok(p);
        } else {
            return Err(DecodeError::Framing);
        }
    }
    let mut h: usize = sp + 1;
    while h < w.len() && w[h] != END_DELIMITER
        invariant
            sp + 1 <= h <= w.len(),
            end_delimiter_pos(w@, sp + 1) == end_delimiter_pos(w@, h as int),
        decreases w.len() - h,
    {
        h = h + 1;
    }
    if h == w.len() {
        assert(end_delimiter_pos(w@, h as int) is None);
        return Err(DecodeError::Framing);
    }
    assert(end_delimiter_pos(w@, sp + 1) == Some(h as int));
    if w.len() - h != 3 {
        return Err(DecodeError::Framing);
    }
    let c1 = w[h + 1];
    let c2 = w[h + 2];
    let mut body: Vec<u8> = Vec::new();
    let mut j: usize = sp + 1;
    while j < h
        invariant
            sp + 1 <= j <= h < w@.len(),
            body@ == w@.subrange(sp + 1, j as int),
        decreases h - j,
    {
        body.push(w[j]);
        proof {
            assert(w@.subrange(sp + 1, j as int) + seq![w@[j as int]] =~= w@.subrange(
                sp + 1,
                j + 1,
            ));
        }
        j = j + 1;
    }
    let payload = match expand(&body) {
        None => {
            return Err(DecodeError::Framing);
        },
        Some(p) => p,
    };
    let cs = checksum(&payload);
    if !is_hex_digit_byte(c1) || !is_hex_digit_byte(c2) {
        return Err(DecodeError::Checksum);
    }
    let given = hex_digit_value_of(c1) * 16 + hex_digit_value_of(c2);
    if given != cs {
        return Err(DecodeError::Checksum);
    }
    let kind = if b0 == START_COMMAND {
        PacketKind::Command
    } else {
        PacketKind::Notification
    };
    Ok(Packet { kind, payload })
}

/// How many leading bytes of a receive buffer hold one complete
/// packet: any line noise, then the lone ack byte, or a delimited
/// packet through its two checksum digits. `None` while more bytes are
/// needed.
pub open spec fn frame_len_spec(buf: Seq<u8>) -> Option<int> {
    match start_delimiter_pos(buf, 0) {
        None => None,
        Some(sp) => if buf[sp] == ACK_BYTE {
            Some(sp + 1)
        } else {
            match end_delimiter_pos(buf, sp + 1) {
                None => None,
                Some(h) => if buf.len() >= h + 3 {
                    Some(h + 3)
                } else {
                    None
                },
            }
        },
    }
}

/// Reports how many leading bytes of `buf` hold one complete packet
/// (line noise before the start delimiter included), or `None` while
/// the buffer still ends mid-packet.
pub fn frame_len(buf: &Vec<u8>) -> (r: Option<usize>)
    ensures
        match r {
            Some(n) => frame_len_spec(buf@) == Some(n as int) && 0 < n <= buf@.len(),
            None => frame_len_spec(buf@) is None,
        },
{
    let mut sp: usize = 0;
    while sp < buf.len() && buf[sp] != ACK_BYTE && buf[sp] != START_COMMAND && buf[sp]
        != START_NOTIFICATION
        invariant
            0 <= sp <= buf.len(),
            start_delimiter_pos(buf@, 0) == start_delimiter_pos(buf@, sp as int),
        decreases buf.len() - sp,
    {
        sp = sp + 1;
    }
    if sp == buf.len() {
        return None;
    }
    if buf[sp] == ACK_BYTE {
        return Some(sp + 1);
    }
    let mut h: usize = sp + 1;
    while h < buf.len() && buf[h] != END_DELIMITER
        invariant
            sp + 1 <= h <= buf.len(),
            end_delimiter_pos(buf@, sp + 1) == end_delimiter_pos(buf@, h as int),
        decreases buf.len() - h,
    {
        h = h + 1;
    }
    if h == buf.len() {
        return None;
    }
    if buf.len() - h < 3 {
        return None;
    }
    Some(h + 3)
}

proof fn lemma_end_delimiter_pos_found(w: Seq<u8>, i: int, h: int)
    requires
        0 <= i <= h < w.len(),
        w[h] == END_DELIMITER,
        forall|j: int| i <= j < h ==> w[j] != END_DELIMITER,
    ensures
        end_delimiter_pos(w, i) == Some(h),
    decreases h - i,
{
    if i < h {
        lemma_end_delimiter_pos_found(w, i + 1, h);
    }
}

proof fn lemma_hex_digit_round_trip(n: u8)
    requires
        n < 16,
    ensures
        is_hex_digit(hex_digit(n)),
        hex_digit_value(hex_digit(n)) == n,
{
}

/// Flipping any single bit of a lowercase hex digit either leaves a
/// byte that is no hex digit, or a hex digit of a different value.
proof fn lemma_hex_digit_bit_flip(c: u8, k: u8)
    requires
        is_hex_digit(c),
        k < 8,
    ensures
        !is_hex_digit(c ^ (1u8 << k)) || hex_digit_value(c ^ (1u8 << k)) != hex_digit_value(c),
{
    assert(!is_hex_digit(c ^ (1u8 << k)) || hex_digit_value(c ^ (1u8 << k)) != hex_digit_value(
        c,
    )) by (bit_vector)
        requires
            is_hex_digit(c) && k < 8,
    ;
}

/// Appending one payload byte appends its wire form to the body.
proof fn lemma_escape_snoc(p: Seq<u8>, c: u8)
    ensures
        escape_spec(p.push(c)) == escape_spec(p) + escaped_byte(c),
    decreases p.len(),
{
    if p.len() == 0 {
        assert(p.push(c)[0] == c);
        assert(p.push(c).skip(1) =~= Seq::<u8>::empty());
        assert(escape_spec(p.push(c)) == escaped_byte(c) + escape_spec(Seq::<u8>::empty()));
        assert(escaped_byte(c) + Seq::<u8>::empty() =~= escaped_byte(c));
        assert(escape_spec(p) + escaped_byte(c) =~= escaped_byte(c));
    } else {
        lemma_escape_snoc(p.skip(1), c);
        assert(p.push(c)[0] == p[0]);
        assert(p.push(c).skip(1) =~= p.skip(1).push(c));
        assert(escape_spec(p.push(c)) == escaped_byte(p[0]) + escape_spec(p.skip(1).push(c)));
        assert(escape_spec(p.push(c)) == escaped_byte(p[0]) + (escape_spec(p.skip(1))
            + escaped_byte(c)));
        assert(escaped_byte(p[0]) + (escape_spec(p.skip(1)) + escaped_byte(c)) =~= (escaped_byte(
            p[0],
        ) + escape_spec(p.skip(1))) + escaped_byte(c));
        assert(escape_spec(p) == escaped_byte(p[0]) + escape_spec(p.skip(1)));
    }
}

/// The escaped body of any payload holds no raw end delimiter: the
/// first unescaped `#` on the wire always ends the body.
proof fn lemma_escape_free_of_end_delimiter(p: Seq<u8>)
    ensures
        forall|i: int|
            0 <= i < escape_spec(p).len() ==> #[trigger] escape_spec(p)[i] != END_DELIMITER,
    decreases p.len(),
{
    if p.len() > 0 {
        lemma_escape_free_of_end_delimiter(p.skip(1));
        let c = p[0];
        let head = escaped_byte(c);
        if needs_escape(c) {
            assert((c ^ 32) != END_DELIMITER) by (bit_vector)
                requires
                    c == 35 || c == 36 || c == 125 || c == 42,
            ;
        }
        assert forall|i: int| 0 <= i < escape_spec(p).len() implies #[trigger] escape_spec(p)[i]
            != END_DELIMITER by {
            assert(escape_spec(p) == head + escape_spec(p.skip(1)));
            if i >= head.len() {
                assert(escape_spec(p)[i] == escape_spec(p.skip(1))[i - head.len()]);
            }
        }
    }
}

/// Expanding an escaped body recovers the payload it came from,
/// whatever was accumulated before it.
proof fn lemma_expand_escape(p: Seq<u8>, acc: Seq<u8>)
    ensures
        expand_spec(escape_spec(p), acc) == Some(acc + p),
    decreases p.len(),
{
    if p.len() == 0 {
        assert(acc + p =~= acc);
    } else {
        let c = p[0];
        let rest = p.skip(1);
        if needs_escape(c) {
            let e = escape_spec(p);
            assert(e == seq![ESCAPE_BYTE, c ^ 32] + escape_spec(rest));
            assert(e[0] == ESCAPE_BYTE);
            assert(e[1] == c ^ 32);
            assert(e.skip(2) =~= escape_spec(rest));
            assert((c ^ 32) ^ 32 == c) by (bit_vector);
            lemma_expand_escape(rest, acc.push(c));
            assert(acc.push(c) + rest =~= acc + p);
        } else {
            let e = escape_spec(p);
            assert(e == seq![c] + escape_spec(rest));
            assert(e[0] == c);
            assert(e.skip(1) =~= escape_spec(rest));
            lemma_expand_escape(rest, acc.push(c));
            assert(acc.push(c) + rest =~= acc + p);
        }
    }
}

/// Law: encoding and decoding round-trip. A command or notification
/// packet decodes from its own encoding back to the same kind and the
/// same payload, for every payload: the escaping protects the
/// delimiter and marker bytes.
pub proof fn lemma_encode_decode_round_trip(kind: PacketKind, p: Seq<u8>)
    requires
        kind == PacketKind::Command || kind == PacketKind::Notification,
    ensures
        decode_spec(encode_spec(kind, p)) == Ok::<(PacketKind, Seq<u8>), DecodeError>((kind, p)),
{
    let w = encode_spec(kind, p);
    let esc = escape_spec(p);
    let h = 1 + esc.len() as int;
    let cs = checksum_spec(p);
    assert(w.len() == h + 3);
    assert(w[0] == start_byte(kind));
    assert(start_delimiter_pos(w, 0) == Some(0int));
    lemma_escape_free_of_end_delimiter(p);
    assert(forall|j: int| 1 <= j < h ==> w[j] == esc[j - 1] && w[j] != END_DELIMITER);
    assert(w[h] == END_DELIMITER);
    lemma_end_delimiter_pos_found(w, 1, h);
    assert(w.subrange(1, h) =~= esc);
    lemma_expand_escape(p, Seq::empty());
    assert(Seq::empty() + p =~= p);
    lemma_hex_digit_round_trip(cs / 16);
    lemma_hex_digit_round_trip(cs % 16);
    assert(cs / 16 * 16 + cs % 16 == cs) by {
        vstd::arithmetic::div_mod::lemma_fundamental_div_mod(cs as int, 16);
    }
}

/// Law: checksum corruption is caught. Flipping any single bit of
/// either checksum digit of an encoded command packet makes decoding
/// fail with a checksum error, for every non-empty payload.
pub proof fn lemma_checksum_bit_flip_rejected(p: Seq<u8>, which: int, k: u8)
    requires
        p.len() > 0,
        0 <= which < 2,
        k < 8,
    ensures
        ({
            let w = encode_spec(PacketKind::Command, p);
            let pos = w.len() - 2 + which;
            let flipped = w.update(pos, w[pos] ^ (1u8 << k));
            decode_spec(flipped) == Err::<(PacketKind, Seq<u8>), DecodeError>(DecodeError::Checksum)
        }),
{
    let w = encode_spec(PacketKind::Command, p);
    let esc = escape_spec(p);
    let h = 1 + esc.len() as int;
    let cs = checksum_spec(p);
    let pos = w.len() - 2 + which;
    let flipped = w.update(pos, w[pos] ^ (1u8 << k));
    assert(w.len() == h + 3);
    assert(pos == h + 1 + which);
    assert(flipped.len() == w.len());
    assert(flipped[0] == START_COMMAND);
    assert(start_delimiter_pos(flipped, 0) == Some(0int));
    lemma_escape_free_of_end_delimiter(p);
    assert(forall|j: int| 1 <= j < h ==> flipped[j] == esc[j - 1] && flipped[j] != END_DELIMITER);
    assert(flipped[h] == END_DELIMITER);
    lemma_end_delimiter_pos_found(flipped, 1, h);
    assert(flipped.subrange(1, h) =~= esc);
    lemma_expand_escape(p, Seq::empty());
    assert(Seq::empty() + p =~= p);
    let d1 = hex_digit(cs / 16);
    let d2 = hex_digit(cs % 16);
    lemma_hex_digit_round_trip(cs / 16);
    lemma_hex_digit_round_trip(cs % 16);
    assert(cs / 16 * 16 + cs % 16 == cs) by {
        vstd::arithmetic::div_mod::lemma_fundamental_div_mod(cs as int, 16);
    }
    let c1 = flipped[h + 1];
    let c2 = flipped[h + 2];
    if which == 0 {
        assert(c1 == d1 ^ (1u8 << k) && c2 == d2);
        lemma_hex_digit_bit_flip(d1, k);
        if is_hex_digit(c1) {
            assert(hex_digit_value(c1) != cs / 16);
            assert(hex_digit_value(c1) * 16 + hex_digit_value(c2) != cs);
        }
    } else {
        assert(c1 == d1 && c2 == d2 ^ (1u8 << k));
        lemma_hex_digit_bit_flip(d2, k);
        if is_hex_digit(c2) {
            assert(hex_digit_value(c2) != cs % 16);
            assert(hex_digit_value(c1) * 16 + hex_digit_value(c2) != cs);
        }
    }
}

} // verus!

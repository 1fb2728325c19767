//! Frame emission. A frame on the wire is `0xAA 0x99 | u32 LE length |
//! UTF-8 JSON payload`. `FrameBuf` accumulates one JSON payload; a write that
//! does not fit poisons the frame (it will not emit) rather than truncating it.
use vstd::prelude::*;
use vstd::string::StringSliceAdditionalSpecFns;

verus! {

/// Capacity of one frame payload, in bytes.
pub const CAPACITY: usize = 2048;

/// A write did not fit the frame (the stand-in for `core::fmt::Error`).
#[derive(Clone, Copy, Debug, PartialEq, Eq)]
pub struct FmtError;

/// Fixed-capacity payload buffer. Build the JSON, then `emit()`.
pub struct FrameBuf {
    buf: Vec<u8>,
    overflow: bool,
}

/// The four little-endian bytes of `n`.
pub open spec fn le32_bytes(n: nat) -> Seq<u8> {
    seq![(n % 256) as u8, ((n / 256) % 256) as u8, ((n / 65536) % 256) as u8, ((n / 16777216) % 256) as u8]
}

/// The wire form of a frame carrying `payload`.
pub open spec fn wire_frame(payload: Seq<u8>) -> Seq<u8> {
    seq![0xAAu8, 0x99u8] + le32_bytes(payload.len()) + payload
}

/// ASCII digit for a value below 16 (lowercase hex above 9).
pub open spec fn digit(d: nat) -> u8 {
    if d < 10 { (48 + d) as u8 } else { (87 + d) as u8 }
}

/// Decimal rendering of `n`, as `Display` writes it.
pub open spec fn dec(n: nat) -> Seq<u8>
    decreases n,
{
    if n < 10 { seq![digit(n)] } else { dec(n / 10).push(digit(n % 10)) }
}

/// Lowercase hexadecimal rendering of `n`, as `{:x}` writes it.
pub open spec fn hex(n: nat) -> Seq<u8>
    decreases n,
{
    if n < 16 { seq![digit(n)] } else { hex(n / 16).push(digit(n % 16)) }
}

/// Decimal rendering of a signed integer.
pub open spec fn sdec(n: int) -> Seq<u8> {
    if n < 0 { seq![45u8] + dec((-n) as nat) } else { dec(n as nat) }
}

/// The JSON string-content escape of one byte.
pub open spec fn escape_byte(b: u8) -> Seq<u8> {
    if b == 34 { seq![92u8, 34u8] }
    else if b == 92 { seq![92u8, 92u8] }
    else if b == 10 { seq![92u8, 110u8] }
    else if b == 13 { seq![92u8, 114u8] }
    else if b == 9 { seq![92u8, 116u8] }
    else if b < 32 { seq![92u8, 117u8, 48u8, 48u8, digit((b / 16) as nat), digit((b % 16) as nat)] }
    else { seq![b] }
}

/// The JSON string-content escape of a byte string.
pub open spec fn escaped(s: Seq<u8>) -> Seq<u8>
    decreases s.len(),
{
    if s.len() == 0 { Seq::empty() } else { escaped(s.drop_last()) + escape_byte(s.last()) }
}

/// The value of a hexadecimal digit byte (either case), as a JSON reader
/// takes the digits of a `\\u` escape.
pub open spec fn hex_value(c: u8) -> Option<nat> {
    if 48 <= c <= 57 { Some((c - 48) as nat) }
    else if 97 <= c <= 102 { Some((c - 87) as nat) }
    else if 65 <= c <= 70 { Some((c - 55) as nat) }
    else { None }
}

/// How a JSON reader decodes one piece of string content: a plain byte, a
/// two-byte escape, or a `\\u` escape of four hexadecimal digits.
pub open spec fn unescape_piece(e: Seq<u8>) -> Option<u8> {
    if e.len() == 1 {
        if e[0] >= 32 && e[0] != 34 && e[0] != 92 { Some(e[0]) } else { None }
    } else if e.len() == 2 && e[0] == 92 {
        if e[1] == 34 { Some(34u8) }
        else if e[1] == 92 { Some(92u8) }
        else if e[1] == 47 { Some(47u8) }
        else if e[1] == 98 { Some(8u8) }
        else if e[1] == 102 { Some(12u8) }
        else if e[1] == 110 { Some(10u8) }
        else if e[1] == 114 { Some(13u8) }
        else if e[1] == 116 { Some(9u8) }
        else { None }
    } else if e.len() == 6 && e[0] == 92 && e[1] == 117 {
        match (hex_value(e[2]), hex_value(e[3]), hex_value(e[4]), hex_value(e[5])) {
            (Some(a), Some(b), Some(c), Some(d)) => {
                let v = a * 4096 + b * 256 + c * 16 + d;
                if v < 256 { Some(v as u8) } else { None }
            },
            _ => None,
        }
    } else {
        None
    }
}

/// How many bytes the piece of string content starting `t` takes.
pub open spec fn piece_len(t: Seq<u8>) -> int {
    if t.len() == 0 { 0 } else if t[0] != 92 { 1 } else if t.len() >= 2 && t[1] == 117 { 6 } else { 2 }
}

/// How a JSON reader decodes string content, left to right; None where it
/// is not valid string content.
pub open spec fn unescape(t: Seq<u8>) -> Option<Seq<u8>>
    decreases t.len(),
{
    if t.len() == 0 {
        Some(Seq::empty())
    } else {
        let n = piece_len(t);
        if n > t.len() {
            None
        } else {
            match (unescape_piece(t.take(n)), unescape(t.skip(n))) {
                (Some(b), Some(r)) => Some(seq![b] + r),
                _ => None,
            }
        }
    }
}

/// Every byte's escape is valid string content that a JSON reader decodes
/// back to that byte.
pub proof fn lemma_escape_byte_decodes(b: u8)
    ensures
        unescape_piece(escape_byte(b)) == Some(b),
{
    if b < 32 && b != 10 && b != 13 && b != 9 {
        let e = escape_byte(b);
        assert(hex_value(e[2]) == Some(0nat));
        assert(hex_value(e[3]) == Some(0nat));
        assert(hex_value(e[4]) == Some((b / 16) as nat));
        assert(hex_value(e[5]) == Some((b % 16) as nat));
    }
}

/// Escaping distributes over concatenation.
proof fn lemma_escaped_append(a: Seq<u8>, b: Seq<u8>)
    ensures
        escaped(a + b) == escaped(a) + escaped(b),
    decreases b.len(),
{
    if b.len() == 0 {
        assert(a + b =~= a);
        assert(escaped(a) + escaped(b) =~= escaped(a));
    } else {
        lemma_escaped_append(a, b.drop_last());
        assert((a + b).drop_last() =~= a + b.drop_last());
        assert(escaped(a) + escaped(b) =~= escaped(a) + escaped(b.drop_last()) + escape_byte(b.last()));
    }
}

/// Escaping is undone by a JSON reader: decoding the escaped content of any
/// byte string gives the bytes back.
pub proof fn lemma_escaped_decodes(s: Seq<u8>)
    ensures
        unescape(escaped(s)) == Some(s),
    decreases s.len(),
{
    if s.len() > 0 {
        let rest = s.skip(1);
        assert(s =~= seq![s[0]] + rest);
        lemma_escaped_append(seq![s[0]], rest);
        assert(seq![s[0]].drop_last() =~= Seq::<u8>::empty());
        assert(seq![s[0]].last() == s[0]);
        assert(escaped(Seq::<u8>::empty()) =~= Seq::<u8>::empty());
        assert(escaped(seq![s[0]]) =~= escaped(Seq::<u8>::empty()) + escape_byte(s[0]));
        assert(escaped(seq![s[0]]) =~= escape_byte(s[0]));
        let t = escaped(s);
        let e = escape_byte(s[0]);
        assert(t =~= e + escaped(rest));
        assert(piece_len(t) == e.len());
        assert(t.take(e.len() as int) =~= e);
        assert(t.skip(e.len() as int) =~= escaped(rest));
        lemma_escape_byte_decodes(s[0]);
        lemma_escaped_decodes(rest);
        assert(seq![s[0]] + rest =~= s);
    } else {
        assert(escaped(s) =~= Seq::<u8>::empty());
    }
}

/// The bytes of a string.
pub open spec fn bytes_of(s: &str) -> Seq<u8> {
    s.spec_bytes()
}

impl FrameBuf {
    /// The payload bytes written so far.
    pub closed spec fn content(&self) -> Seq<u8> {
        self.buf@
    }

    /// True once some write did not fit: the frame will not emit.
    pub closed spec fn poisoned(&self) -> bool {
        self.overflow
    }

    /// The buffer never holds more than `CAPACITY` bytes.
    pub closed spec fn wf(&self) -> bool {
        self.buf@.len() <= CAPACITY
    }

    pub fn new() -> (f: FrameBuf)
        ensures
            f.wf(),
            f.content() == Seq::<u8>::empty(),
            !f.poisoned(),
    {
        FrameBuf { buf: Vec::new(), overflow: false }
    }

    /// The payload bytes written so far.
    pub fn as_bytes(&self) -> (r: &[u8])
        ensures
            r@ == self.content(),
    {
        self.buf.as_slice()
    }

    /// Whether a write has overflowed this frame.
    pub fn overflowed(&self) -> (r: bool)
        ensures
            r == self.poisoned(),
    {
        self.overflow
    }

    /// Append `bytes` whole, or poison the frame and append nothing.
    pub fn write_bytes(&mut self, bytes: &[u8]) -> (r: Result<(), FmtError>)
        requires
            old(self).wf(),
        ensures
            final(self).wf(),
            wrote(*old(self), *final(self), bytes@),
            r.is_ok() == fits(*old(self), bytes@),
            !fits(*old(self), bytes@) ==> final(self).content() == old(self).content(),
    {
        if bytes.len() > CAPACITY - self.buf.len() {
            self.overflow = true;
            return Err(FmtError);
        }
        let mut i: usize = 0;
        while i < bytes.len()
            invariant
                i <= bytes@.len(),
                old(self).buf@.len() + bytes@.len() <= CAPACITY,
                self.buf@ == old(self).buf@ + bytes@.subrange(0, i as int),
                self.overflow == old(self).overflow,
            decreases bytes@.len() - i,
        {
            self.buf.push(bytes[i]);
            i += 1;
        }
        assert(bytes@.subrange(0, bytes@.len() as int) == bytes@);
        Ok(())
    }

    /// `core::fmt::Write::write_str`: append `s` whole or poison the frame.
    pub fn write_str(&mut self, s: &str) -> (r: Result<(), FmtError>)
        requires
            old(self).wf(),
        ensures
            final(self).wf(),
            wrote(*old(self), *final(self), bytes_of(s)),
            r.is_ok() == fits(*old(self), bytes_of(s)),
            !fits(*old(self), bytes_of(s)) ==> final(self).content() == old(self).content(),
    {
        self.write_bytes(s.as_bytes())
    }
}

/// Whether `piece` still fits after what `f` holds.
pub open spec fn fits(f: FrameBuf, piece: Seq<u8>) -> bool {
    f.content().len() + piece.len() <= CAPACITY
}

/// `after` is `before` with `piece` written: appended when it fits, and
/// otherwise the frame is poisoned.
pub open spec fn wrote(before: FrameBuf, after: FrameBuf, piece: Seq<u8>) -> bool {
    if fits(before, piece) {
        &&& after.content() == before.content() + piece
        &&& after.poisoned() == before.poisoned()
    } else {
        after.poisoned()
    }
}

/// Writing `p` then `q` is writing `p + q`.
pub proof fn lemma_wrote_then(a: FrameBuf, b: FrameBuf, c: FrameBuf, p: Seq<u8>, q: Seq<u8>)
    requires
        wrote(a, b, p),
        wrote(b, c, q),
    ensures
        wrote(a, c, p + q),
{
    if fits(a, p + q) {
        assert(b.content() + q == a.content() + (p + q));
    }
}

/// Send one frame whose payload is `json`: it reaches the wire whole when it
/// fits a frame, and not at all otherwise.
pub fn emit_json(wire: &mut Vec<u8>, json: &[u8])
    ensures
        final(wire)@ == old(wire)@ + framed(json@),
{
    let mut f = FrameBuf::new();
    let _ = f.write_bytes(json);
    f.emit(wire);
}

/// The wire bytes of a frame built from `json` in one go.
pub open spec fn framed(json: Seq<u8>) -> Seq<u8> {
    if json.len() <= CAPACITY { wire_frame(json) } else { Seq::empty() }
}

/// Append `bytes` to `v`.
pub fn push_bytes(v: &mut Vec<u8>, bytes: &[u8])
    ensures
        final(v)@ == old(v)@ + bytes@,
{
    let mut i: usize = 0;
    while i < bytes.len()
        invariant
            i <= bytes@.len(),
            v@ == old(v)@ + bytes@.subrange(0, i as int),
        decreases bytes@.len() - i,
    {
        v.push(bytes[i]);
        i += 1;
    }
    assert(bytes@.subrange(0, bytes@.len() as int) == bytes@);
}

/// Append the bytes of `s` to `v`.
pub fn push_str(v: &mut Vec<u8>, s: &str)
    ensures
        final(v)@ == old(v)@ + bytes_of(s),
{
    push_bytes(v, s.as_bytes());
}

/// Append the JSON string-content escape of `bytes` to `v`.
pub fn push_escaped(v: &mut Vec<u8>, bytes: &[u8])
    ensures
        final(v)@ == old(v)@ + escaped(bytes@),
{
    let mut i: usize = 0;
    while i < bytes.len()
        invariant
            i <= bytes@.len(),
            v@ == old(v)@ + escaped(bytes@.subrange(0, i as int)),
        decreases bytes@.len() - i,
    {
        let piece = escape_exec(bytes[i]);
        push_bytes(v, piece.as_slice());
        proof {
            assert(bytes@.subrange(0, i + 1).drop_last() == bytes@.subrange(0, i as int));
        }
        i += 1;
    }
    assert(bytes@.subrange(0, bytes@.len() as int) == bytes@);
}

/// Append the decimal rendering of a signed integer to `v`.
pub fn push_i64(v: &mut Vec<u8>, n: i64)
    ensures
        final(v)@ == old(v)@ + sdec(n as int),
{
    if n < 0 {
        v.push(45);
        let m: u64 = (-(n + 1)) as u64 + 1;
        push_dec(v, m);
        assert(v@ =~= old(v)@ + sdec(n as int));
    } else {
        push_dec(v, n as u64);
    }
}

/// Append the decimal digits of `n` to `v`.
pub fn push_dec(v: &mut Vec<u8>, n: u64)
    ensures
        final(v)@ == old(v)@ + dec(n as nat),
    decreases n,
{
    if n >= 10 {
        push_dec(v, n / 10);
    }
    v.push(48 + (n % 10) as u8);
    proof {
        assert(dec(n as nat) == if n < 10 { seq![digit(n as nat)] } else { dec((n / 10) as nat).push(digit((n % 10) as nat)) });
    }
}

/// Append the lowercase hex digits of `n` to `v`.
pub fn push_hex(v: &mut Vec<u8>, n: u64)
    ensures
        final(v)@ == old(v)@ + hex(n as nat),
    decreases n,
{
    if n >= 16 {
        push_hex(v, n / 16);
    }
    let d = (n % 16) as u8;
    if d < 10 {
        v.push(48 + d);
    } else {
        v.push(87 + d);
    }
}

/// The escape of one byte, as a vector.
fn escape_exec(b: u8) -> (v: Vec<u8>)
    ensures
        v@ == escape_byte(b),
{
    let mut v: Vec<u8> = Vec::new();
    if b == 34 || b == 92 {
        v.push(92);
        v.push(b);
    } else if b == 10 {
        v.push(92);
        v.push(110);
    } else if b == 13 {
        v.push(92);
        v.push(114);
    } else if b == 9 {
        v.push(92);
        v.push(116);
    } else if b < 32 {
        v.push(92);
        v.push(117);
        v.push(48);
        v.push(48);
        v.push(digit_exec(b / 16));
        v.push(digit_exec(b % 16));
    } else {
        v.push(b);
    }
    v
}

/// The digit character for a value below 16.
fn digit_exec(d: u8) -> (c: u8)
    requires
        d < 16,
    ensures
        c == digit(d as nat),
{
    if d < 10 { 48 + d } else { 87 + d }
}

impl FrameBuf {
    /// Write everything `other` holds; a poisoned `other` poisons this frame.
    pub fn write_frame(&mut self, other: &FrameBuf) -> (r: Result<(), FmtError>)
        requires
            old(self).wf(),
            other.wf(),
        ensures
            final(self).wf(),
            wrote(*old(self), *final(self), piece_of(*other)),
            r.is_ok() == fits(*old(self), piece_of(*other)),
    {
        if other.overflow {
            self.overflow = true;
            return Err(FmtError);
        }
        self.write_bytes(other.buf.as_slice())
    }

    /// `{}` of an unsigned integer.
    pub fn write_u64(&mut self, n: u64) -> (r: Result<(), FmtError>)
        requires
            old(self).wf(),
        ensures
            final(self).wf(),
            wrote(*old(self), *final(self), dec(n as nat)),
            r.is_ok() == fits(*old(self), dec(n as nat)),
    {
        let mut v: Vec<u8> = Vec::new();
        push_dec(&mut v, n);
        assert(v@ == dec(n as nat));
        self.write_bytes(v.as_slice())
    }

    /// `{:x}` of an unsigned integer.
    pub fn write_hex(&mut self, n: u64) -> (r: Result<(), FmtError>)
        requires
            old(self).wf(),
        ensures
            final(self).wf(),
            wrote(*old(self), *final(self), hex(n as nat)),
            r.is_ok() == fits(*old(self), hex(n as nat)),
    {
        let mut v: Vec<u8> = Vec::new();
        push_hex(&mut v, n);
        assert(v@ == hex(n as nat));
        self.write_bytes(v.as_slice())
    }

    /// `{}` of a signed integer.
    pub fn write_i64(&mut self, n: i64) -> (r: Result<(), FmtError>)
        requires
            old(self).wf(),
        ensures
            final(self).wf(),
            wrote(*old(self), *final(self), sdec(n as int)),
            r.is_ok() == fits(*old(self), sdec(n as int)),
    {
        let mut v: Vec<u8> = Vec::new();
        if n < 0 {
            v.push(45);
            let m: u64 = (-(n + 1)) as u64 + 1;
            push_dec(&mut v, m);
        } else {
            push_dec(&mut v, n as u64);
        }
        assert(v@ == sdec(n as int));
        self.write_bytes(v.as_slice())
    }

    /// `{}` of a `bool`.
    pub fn write_bool(&mut self, b: bool) -> (r: Result<(), FmtError>)
        requires
            old(self).wf(),
        ensures
            final(self).wf(),
            wrote(*old(self), *final(self), bool_text(b)),
            r.is_ok() == fits(*old(self), bool_text(b)),
    {
        if b { self.write_str("true") } else { self.write_str("false") }
    }

    /// Write `bytes` as JSON string content: escapes `"`, `\` and control
    /// characters; every other byte (UTF-8 continuation bytes included) is
    /// copied as is. Quotes are the caller's job.
    pub fn write_json_escaped_bytes(&mut self, bytes: &[u8]) -> (r: Result<(), FmtError>)
        requires
            old(self).wf(),
        ensures
            final(self).wf(),
            wrote(*old(self), *final(self), escaped(bytes@)),
            r.is_ok() == fits(*old(self), escaped(bytes@)),
    {
        let mut i: usize = 0;
        while i < bytes.len()
            invariant
                i <= bytes@.len(),
                self.wf(),
                wrote(*old(self), *self, escaped(bytes@.subrange(0, i as int))),
                fits(*old(self), escaped(bytes@.subrange(0, i as int))),
            decreases bytes@.len() - i,
        {
            let b = bytes[i];
            let ghost before = *self;
            let piece = escape_exec(b);
            let r = self.write_bytes(piece.as_slice());
            proof {
                let pre = bytes@.subrange(0, i as int);
                let post = bytes@.subrange(0, i + 1);
                assert(post.drop_last() == pre);
                assert(escaped(post) == escaped(pre) + escape_byte(b));
                lemma_wrote_then(*old(self), before, *self, escaped(pre), escape_byte(b));
            }
            if r.is_err() {
                proof { lemma_escaped_prefix_grows(bytes@, i as int + 1); }
                return r;
            }
            i += 1;
        }
        assert(bytes@.subrange(0, bytes@.len() as int) == bytes@);
        Ok(())
    }

    /// Write `s` as JSON string content (see `write_json_escaped_bytes`).
    pub fn write_json_escaped(&mut self, s: &str) -> (r: Result<(), FmtError>)
        requires
            old(self).wf(),
        ensures
            final(self).wf(),
            wrote(*old(self), *final(self), escaped(bytes_of(s))),
            r.is_ok() == fits(*old(self), escaped(bytes_of(s))),
    {
        self.write_json_escaped_bytes(s.as_bytes())
    }

    /// The frame on the wire: magic, little-endian length, payload. A
    /// poisoned frame emits nothing, so `wire` is left as it was.
    pub fn emit(&self, wire: &mut Vec<u8>)
        requires
            self.wf(),
        ensures
            final(wire)@ == old(wire)@ + (if self.poisoned() { Seq::<u8>::empty() } else { wire_frame(self.content()) }),
    {
        if self.overflow {
            assert(old(wire)@ + Seq::<u8>::empty() == old(wire)@);
            return;
        }
        let n = self.buf.len() as u32;
        wire.push(0xAA);
        wire.push(0x99);
        wire.push((n % 256) as u8);
        wire.push(((n / 256) % 256) as u8);
        wire.push(((n / 65536) % 256) as u8);
        wire.push(((n / 16777216) % 256) as u8);
        let mut i: usize = 0;
        while i < self.buf.len()
            invariant
                i <= self.buf@.len(),
                n == self.buf@.len(),
                wire@ == old(wire)@ + seq![0xAAu8, 0x99u8] + le32_bytes(n as nat) + self.buf@.subrange(0, i as int),
            decreases self.buf@.len() - i,
        {
            wire.push(self.buf[i]);
            i += 1;
        }
        assert(self.buf@.subrange(0, self.buf@.len() as int) == self.buf@);
        assert(wire@ =~= old(wire)@ + wire_frame(self.content()));
    }
}

/// What writing `f` into another frame amounts to: its content, or, when
/// `f` is poisoned, a piece too long to fit anywhere.
pub open spec fn piece_of(f: FrameBuf) -> Seq<u8> {
    if f.poisoned() { Seq::new((CAPACITY + 1) as nat, |i: int| 0u8) } else { f.content() }
}

/// `10^k`.
pub open spec fn pow10(k: nat) -> nat
    decreases k,
{
    if k == 0 { 1 } else { 10 * pow10((k - 1) as nat) }
}

/// A number below `10^k` has at most `k` digits.
pub proof fn lemma_dec_len(n: nat, k: nat)
    requires
        k >= 1,
        n < pow10(k),
    ensures
        dec(n).len() <= k,
    decreases k,
{
    if n >= 10 {
        assert(pow10(k) == 10 * pow10((k - 1) as nat));
        if k == 1 {
            assert(false);
        }
        lemma_dec_len(n / 10, (k - 1) as nat);
    }
}

/// A `u64` has at most 20 decimal digits.
pub proof fn lemma_dec_u64_len(n: u64)
    ensures
        dec(n as nat).len() <= 20,
{
    assert(pow10(20) == 100000000000000000000) by {
        reveal_with_fuel(pow10, 21);
    }
    lemma_dec_len(n as nat, 20);
}

/// `16^k`.
pub open spec fn pow16(k: nat) -> nat
    decreases k,
{
    if k == 0 { 1 } else { 16 * pow16((k - 1) as nat) }
}

/// A number below `16^k` has at most `k` hex digits.
pub proof fn lemma_hex_len(n: nat, k: nat)
    requires
        k >= 1,
        n < pow16(k),
    ensures
        hex(n).len() <= k,
    decreases k,
{
    if n >= 16 {
        assert(pow16(k) == 16 * pow16((k - 1) as nat));
        if k == 1 {
            assert(false);
        }
        lemma_hex_len(n / 16, (k - 1) as nat);
    }
}

/// A `u64` has at most 16 hex digits.
pub proof fn lemma_hex_u64_len(n: u64)
    ensures
        hex(n as nat).len() <= 16,
{
    assert(pow16(16) == 0x1_0000_0000_0000_0000) by {
        reveal_with_fuel(pow16, 17);
    }
    lemma_hex_len(n as nat, 16);
}

/// `true` or `false`.
pub open spec fn bool_text(b: bool) -> Seq<u8> {
    if b { bytes_of("true") } else { bytes_of("false") }
}

/// Escaping distributes over concatenation.
proof fn lemma_escaped_concat(a: Seq<u8>, b: Seq<u8>)
    ensures
        escaped(a + b) == escaped(a) + escaped(b),
    decreases b.len(),
{
    if b.len() == 0 {
        assert(a + b =~= a);
        assert(escaped(a) + escaped(b) =~= escaped(a));
    } else {
        assert((a + b).drop_last() =~= a + b.drop_last());
        assert((a + b).last() == b.last());
        lemma_escaped_concat(a, b.drop_last());
        assert(escaped(a + b) =~= escaped(a) + escaped(b));
    }
}

/// Scanning string content past a prefix is scanning the rest, shifted.
proof fn lemma_string_end_shift(p: Seq<u8>, v: Seq<u8>, j: int)
    requires
        0 <= j,
    ensures
        crate::json::string_end(p + v, p.len() + j) == p.len() + crate::json::string_end(v, j),
    decreases v.len() + 2 - j,
{
    let x = p + v;
    if j < v.len() {
        assert(x[p.len() + j] == v[j]);
        if v[j] == 92 {
            lemma_string_end_shift(p, v, j + 2);
        } else if v[j] != 34 {
            lemma_string_end_shift(p, v, j + 1);
        }
    }
}

/// A JSON reader's string scan steps over the escape of one byte whole.
proof fn lemma_piece_scan(b: u8, v: Seq<u8>)
    ensures
        crate::json::string_end(escape_byte(b) + v, 0) == escape_byte(b).len() + crate::json::string_end(v, 0),
{
    let p = escape_byte(b);
    let x = p + v;
    lemma_string_end_shift(p, v, 0);
    if b == 34 || b == 92 || b == 10 || b == 13 || b == 9 {
        assert(x[0] == 92);
    } else if b < 32 {
        assert(x[0] == 92 && x[2] == 48 && x[3] == 48);
        assert(x[4] == digit((b / 16) as nat) && x[5] == digit((b % 16) as nat));
        assert(crate::json::string_end(x, 5) == crate::json::string_end(x, 6));
        assert(crate::json::string_end(x, 4) == crate::json::string_end(x, 5));
        assert(crate::json::string_end(x, 3) == crate::json::string_end(x, 4));
        assert(crate::json::string_end(x, 2) == crate::json::string_end(x, 3));
    } else {
        assert(x[0] == b);
    }
}

/// Scanning escaped bytes followed by `v` ends where scanning `v` ends.
proof fn lemma_escaped_scan(s: Seq<u8>, v: Seq<u8>)
    ensures
        crate::json::string_end(escaped(s) + v, 0) == escaped(s).len() + crate::json::string_end(v, 0),
    decreases s.len(),
{
    if s.len() == 0 {
        assert(escaped(s) + v =~= v);
    } else {
        let rest = s.skip(1);
        assert(s =~= seq![s[0]] + rest);
        lemma_escaped_concat(seq![s[0]], rest);
        assert(escaped(seq![s[0]]) =~= escape_byte(s[0])) by {
            let one = seq![s[0]];
            assert(one.drop_last() =~= Seq::<u8>::empty());
            assert(one.last() == s[0]);
            assert(escaped(one.drop_last()) =~= Seq::<u8>::empty());
            assert(escaped(one) == escaped(one.drop_last()) + escape_byte(one.last()));
        }
        lemma_escaped_scan(rest, v);
        assert(escaped(s) + v =~= escape_byte(s[0]) + (escaped(rest) + v));
        lemma_piece_scan(s[0], escaped(rest) + v);
    }
}

/// Payload bytes stay inside their JSON string: after the escape of any
/// bytes, a JSON reader's string scan stops exactly at the closing quote
/// that follows, whatever the bytes were and whatever comes after.
pub proof fn lemma_escaped_confined(s: Seq<u8>, rest: Seq<u8>)
    ensures
        crate::json::string_end(escaped(s) + seq![34u8] + rest, 0) == escaped(s).len() + 1,
{
    let v = seq![34u8] + rest;
    assert(escaped(s) + seq![34u8] + rest =~= escaped(s) + v);
    lemma_escaped_scan(s, v);
    assert(v[0] == 34);
}

/// The escape of a longer prefix is at least as long.
pub proof fn lemma_escaped_prefix_grows(s: Seq<u8>, k: int)
    requires
        0 <= k <= s.len(),
    ensures
        escaped(s.subrange(0, k)).len() <= escaped(s).len(),
    decreases s.len() - k,
{
    if k < s.len() {
        lemma_escaped_prefix_grows(s, k + 1);
        assert(s.subrange(0, k + 1).drop_last() == s.subrange(0, k));
    } else {
        assert(s.subrange(0, k) == s);
    }
}


/// `items` separated by commas.
pub open spec fn join(items: Seq<Seq<u8>>) -> Seq<u8>
    decreases items.len(),
{
    if items.len() == 0 {
        Seq::empty()
    } else if items.len() == 1 {
        items[0]
    } else {
        join(items.drop_last()) + seq![44u8] + items.last()
    }
}

/// Joining one more item appends a comma and the item.
pub proof fn lemma_join_push(items: Seq<Seq<u8>>, k: int)
    requires
        0 <= k < items.len(),
    ensures
        join(items.take(k + 1)) == if k == 0 { items[0] } else { join(items.take(k)) + seq![44u8] + items[k] },
{
    assert(items.take(k + 1).drop_last() =~= items.take(k));
}

} // verus!

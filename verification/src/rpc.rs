//! The MCP control plane: JSON-RPC 2.0 requests carried inside the same
//! length-prefixed frames as every outbound event. Responses ride out as event
//! frames wrapped `{"id":<stream>,"type":"rpc","rpc":{...}}`.
use vstd::prelude::*;
use crate::console::{FrameBuf, FmtError, CAPACITY, bytes_of, escaped, wrote, fits, wire_frame, dec, sdec, piece_of,
    lemma_wrote_then, lemma_dec_u64_len, framed, emit_json, push_str, push_dec, push_i64, push_escaped, push_bytes, join,
    lemma_join_push};
use crate::frames::{FrameAllocator, POOL_FRAMES, stats};
use crate::events::advanced;
use crate::events::{Events, next_id};
use crate::json::{as_string, trim, trimmed, string_inner, object_get, member_value, bytes_eq};
use crate::traps::{Traps, write_ring_resource, write_digest, ring_resource_json, digest_json, set_classic_surface,
    set_autonomous};
use crate::payload::{Payloads, write_process_table, process_table_json, write_spec, spec_json, any_alive, alive,
    kill_pid, set_budget, live, elapsed_since, operator_killed_json, KILLED, RUNNING, Slot};

verus! {

/// Inbound request cap, in bytes.
pub const MAX_REQ: usize = 512;

/// Longest client id (in characters) echoed back.
pub const MAX_ID: usize = 64;

/// Number of remembered client operation ids.
pub const OP_SLOTS: usize = 8;

/// The most recent client `opId` hashes, a FIFO of `OP_SLOTS` entries (0 =
/// empty; hashes are never 0).
pub struct OpLog {
    pub ids: Vec<u64>,
    pub head: usize,
}

impl OpLog {
    pub open spec fn wf(&self) -> bool {
        self.ids@.len() == OP_SLOTS
    }

    pub fn new() -> (l: OpLog)
        ensures
            l.wf(),
            l.head == 0,
            forall|k: int| 0 <= k < OP_SLOTS ==> l.ids@[k] == 0,
    {
        let mut ids: Vec<u64> = Vec::new();
        let mut k: usize = 0;
        while k < OP_SLOTS
            invariant
                k <= OP_SLOTS,
                ids@.len() == k,
                forall|j: int| 0 <= j < k ==> ids@[j] == 0,
            decreases OP_SLOTS - k,
        {
            ids.push(0);
            k += 1;
        }
        OpLog { ids, head: 0 }
    }
}

/// One FNV-1a step over `h` with the bytes of `s`.
pub open spec fn fnv_fold(h: u64, s: Seq<u8>) -> u64
    decreases s.len(),
{
    if s.len() == 0 {
        h
    } else {
        let g = fnv_fold(h, s.drop_last());
        ((g ^ (s.last() as u64)) as u64).wrapping_mul(0x0000_0100_0000_01b3u64)
    }
}

/// FNV-1a of `s`, forced nonzero (bit 0 set) so it never equals the empty
/// slot marker.
pub open spec fn fnv(s: Seq<u8>) -> u64 {
    fnv_fold(0xcbf2_9ce4_8422_2325u64, s) | 1u64
}

/// FNV-1a, forced nonzero so it never collides with the empty-slot sentinel.
pub fn fnv1a(s: &[u8]) -> (h: u64)
    ensures
        h == fnv(s@),
{
    let mut h: u64 = 0xcbf2_9ce4_8422_2325;
    let mut k: usize = 0;
    while k < s.len()
        invariant
            k <= s@.len(),
            h == fnv_fold(0xcbf2_9ce4_8422_2325u64, s@.subrange(0, k as int)),
        decreases s@.len() - k,
    {
        proof {
            assert(s@.subrange(0, k + 1).drop_last() == s@.subrange(0, k as int));
        }
        h ^= s[k] as u64;
        h = h.wrapping_mul(0x0000_0100_0000_01b3);
        k += 1;
    }
    assert(s@.subrange(0, s@.len() as int) == s@);
    h | 1
}

/// One FNV-1a step: xor in the byte, multiply by the 64-bit FNV prime
/// modulo 2^64.
pub open spec fn fnv1a_step(h: u64, b: u8) -> u64 {
    (((h ^ (b as u64)) as nat * 0x0000_0100_0000_01b3nat) % 0x1_0000_0000_0000_0000nat) as u64
}

/// The operation-id hash is FNV-1a over every byte of the id, from the
/// 64-bit offset basis, with bit 0 forced on.
pub proof fn lemma_fnv_folds_every_byte(s: Seq<u8>)
    ensures
        fnv(s) == s.fold_left(0xcbf2_9ce4_8422_2325u64, |h: u64, b: u8| fnv1a_step(h, b)) | 1u64,
{
    lemma_fnv_fold_left(0xcbf2_9ce4_8422_2325u64, s);
}

proof fn lemma_fnv_fold_left(h: u64, s: Seq<u8>)
    ensures
        fnv_fold(h, s) == s.fold_left(h, |g: u64, b: u8| fnv1a_step(g, b)),
    decreases s.len(),
{
    if s.len() > 0 {
        lemma_fnv_fold_left(h, s.drop_last());
    }
}

/// Ids that differ only in their last byte hash differently, however long
/// they are: the hash reads every byte.
pub proof fn lemma_fnv_last_byte_matters(s: Seq<u8>, b1: u8, b2: u8)
    requires
        b1 != b2,
    ensures
        fnv(s.push(b1)) != fnv(s.push(b2)),
{
    let g = fnv_fold(0xcbf2_9ce4_8422_2325u64, s);
    assert(s.push(b1).drop_last() == s && s.push(b2).drop_last() == s);
    let x1 = b1 as u64;
    let x2 = b2 as u64;
    assert(x1 != x2 ==> ((g ^ x1) as u64).wrapping_mul(0x0000_0100_0000_01b3u64) | 1u64
        != ((g ^ x2) as u64).wrapping_mul(0x0000_0100_0000_01b3u64) | 1u64) by (bit_vector)
        requires x1 < 256, x2 < 256;
}

/// Whether `h` is among the remembered operation ids.
pub open spec fn seen(log: OpLog, h: u64) -> bool {
    exists|k: int| 0 <= k < OP_SLOTS && log.ids@[k] == h
}

pub fn op_seen(log: &OpLog, h: u64) -> (r: bool)
    requires
        log.wf(),
    ensures
        r == seen(*log, h),
{
    let mut k: usize = 0;
    while k < OP_SLOTS
        invariant
            log.wf(),
            k <= OP_SLOTS,
            forall|j: int| 0 <= j < k ==> log.ids@[j] != h,
        decreases OP_SLOTS - k,
    {
        if log.ids[k] == h {
            return true;
        }
        k += 1;
    }
    false
}

/// Remember `h`, overwriting the oldest entry.
pub fn op_record(log: &mut OpLog, h: u64)
    requires
        old(log).wf(),
    ensures
        final(log).wf(),
        final(log).head == old(log).head.wrapping_add(1),
        final(log).ids@ == old(log).ids@.update((old(log).head % OP_SLOTS) as int, h),
{
    let idx = log.head % OP_SLOTS;
    log.head = log.head.wrapping_add(1);
    log.ids.set(idx, h);
}

/// Every ASCII digit.
pub open spec fn all_digits(s: Seq<u8>) -> bool {
    forall|k: int| 0 <= k < s.len() ==> 48 <= #[trigger] s[k] <= 57
}

/// Clamp to the `u32` range.
pub open spec fn sat_u32(x: int) -> int {
    if x > u32::MAX { u32::MAX as int } else { x }
}

/// The decimal value of a digit string, saturating at `u32::MAX` after each
/// step.
pub open spec fn sat_dec_value(s: Seq<u8>) -> int
    decreases s.len(),
{
    if s.len() == 0 { 0 } else { sat_u32(sat_u32(sat_dec_value(s.drop_last()) * 10) + (s.last() - 48)) }
}

/// The number a raw value denotes: a bare or quoted run of ASCII digits.
pub open spec fn parsed_u32(raw: Seq<u8>) -> Option<u32> {
    let s = trimmed(match string_inner(raw) { Some(x) => x, None => raw });
    if s.len() == 0 || !all_digits(s) { None } else { Some(sat_dec_value(s) as u32) }
}

/// Parse a raw JSON value slice as a small unsigned integer: a bare or quoted
/// number; anything else is rejected; saturates rather than overflowing.
pub fn parse_u32(raw: &[u8]) -> (r: Option<u32>)
    ensures
        r == parsed_u32(raw@),
{
    let inner = match as_string(raw) {
        Some(x) => x,
        None => raw,
    };
    let s = trim(inner);
    if s.len() == 0 {
        return None;
    }
    let ghost t = trimmed(match string_inner(raw@) { Some(x) => x, None => raw@ });
    assert(s@ == t);
    let mut k: usize = 0;
    while k < s.len()
        invariant
            s@ == t,
            t == trimmed(match string_inner(raw@) { Some(x) => x, None => raw@ }),
            k <= s@.len(),
            forall|j: int| 0 <= j < k ==> 48 <= #[trigger] s@[j] <= 57,
        decreases s@.len() - k,
    {
        if s[k] < 48 || s[k] > 57 {
            assert(!(48 <= s@[k as int] <= 57));
            assert(!all_digits(s@));
            return None;
        }
        k += 1;
    }
    let mut n: u32 = 0;
    let mut k: usize = 0;
    while k < s.len()
        invariant
            s@ == t,
            t == trimmed(match string_inner(raw@) { Some(x) => x, None => raw@ }),
            s@.len() > 0,
            k <= s@.len(),
            all_digits(s@),
            n == sat_dec_value(s@.subrange(0, k as int)),
        decreases s@.len() - k,
    {
        proof {
            assert(s@.subrange(0, k + 1).drop_last() == s@.subrange(0, k as int));
            assert(48 <= s@[k as int] <= 57);
        }
        let m: u32 = if n > u32::MAX / 10 { u32::MAX } else { n * 10 };
        let d: u32 = (s[k] - 48) as u32;
        n = if m > u32::MAX - d { u32::MAX } else { m + d };
        k += 1;
    }
    assert(s@.subrange(0, s@.len() as int) == s@);
    Some(n)
}

/// A byte that begins a UTF-8 character (anything but a continuation byte).
pub open spec fn is_char_start(b: u8) -> bool {
    !(0x80 <= b <= 0xBF)
}

/// Scanning from `k` having passed `count` character starts: the index of
/// character number `n` (0-based), or the length if there are fewer.
pub open spec fn char_start_index(s: Seq<u8>, k: int, count: int, n: int) -> int
    decreases s.len() - k,
{
    if k < 0 || k >= s.len() {
        s.len() as int
    } else if is_char_start(s[k]) {
        if count == n { k } else { char_start_index(s, k + 1, count + 1, n) }
    } else {
        char_start_index(s, k + 1, count, n)
    }
}

/// A strict JSON integer: an optional leading `-`, then one or more digits.
pub open spec fn is_int_literal(t: Seq<u8>) -> bool {
    let digits = if t.len() > 0 && t[0] == 45 { t.drop_first() } else { t };
    digits.len() > 0 && all_digits(digits)
}

/// How a client request id is echoed: a string re-escaped and clamped to
/// `MAX_ID` characters, a strict integer as is, anything else as `null`.
pub open spec fn id_json(raw: Seq<u8>) -> Seq<u8> {
    let t = trimmed(raw);
    match string_inner(t) {
        Some(inner) => bytes_of("\"") + escaped(inner.subrange(0, char_start_index(inner, 0, 0, MAX_ID as int))) + bytes_of("\""),
        None => if is_int_literal(t) { t } else { bytes_of("null") },
    }
}

/// The index where the first `n` characters of `s` end.
fn clamp_chars(s: &[u8], n: usize) -> (r: usize)
    ensures
        r == char_start_index(s@, 0, 0, n as int),
        r <= s@.len(),
{
    let mut k: usize = 0;
    let mut count: usize = 0;
    while k < s.len()
        invariant
            k <= s@.len(),
            count <= k,
            count <= n,
            char_start_index(s@, k as int, count as int, n as int) == char_start_index(s@, 0, 0, n as int),
        decreases s@.len() - k,
    {
        if !(0x80 <= s[k] && s[k] <= 0xBF) {
            if count == n {
                return k;
            }
            count += 1;
        }
        k += 1;
    }
    k
}

/// Whether every byte is an ASCII digit.
fn all_digits_exec(s: &[u8]) -> (r: bool)
    ensures
        r == all_digits(s@),
{
    let mut k: usize = 0;
    while k < s.len()
        invariant
            k <= s@.len(),
            forall|j: int| 0 <= j < k ==> 48 <= #[trigger] s@[j] <= 57,
        decreases s@.len() - k,
    {
        if s[k] < 48 || s[k] > 57 {
            assert(!(48 <= s@[k as int] <= 57));
            return false;
        }
        k += 1;
    }
    true
}

/// Echo the client's request id safely: a JSON string through the escaper
/// (length-clamped), a strict JSON integer as is, anything else as `null`.
pub fn write_id(f: &mut FrameBuf, raw: &[u8]) -> (r: Result<(), FmtError>)
    requires
        old(f).wf(),
    ensures
        final(f).wf(),
        wrote(*old(f), *final(f), id_json(raw@)),
        r.is_ok() == fits(*old(f), id_json(raw@)),
{
    let t = trim(raw);
    if let Some(inner) = as_string(t) {
        let end = clamp_chars(inner, MAX_ID);
        let ghost f0 = *f;
        let r1 = f.write_str("\"");
        let ghost f1 = *f;
        if r1.is_err() {
            proof {
                let rest = escaped(inner@.subrange(0, end as int)) + bytes_of("\"");
                assert(id_json(raw@) =~= bytes_of("\"") + rest);
            }
            return r1;
        }
        let r2 = f.write_json_escaped_bytes(&inner[0..end]);
        let ghost f2 = *f;
        proof { lemma_wrote_then(f0, f1, f2, bytes_of("\""), escaped(inner@.subrange(0, end as int))); }
        if r2.is_err() {
            proof {
                assert(id_json(raw@) =~= (bytes_of("\"") + escaped(inner@.subrange(0, end as int))) + bytes_of("\""));
            }
            return r2;
        }
        let r3 = f.write_str("\"");
        proof {
            lemma_wrote_then(f0, f2, *f, bytes_of("\"") + escaped(inner@.subrange(0, end as int)), bytes_of("\""));
            assert(id_json(raw@) =~= (bytes_of("\"") + escaped(inner@.subrange(0, end as int))) + bytes_of("\""));
        }
        return r3;
    }
    let digits = if t.len() > 0 && t[0] == 45 { &t[1..t.len()] } else { t };
    proof {
        if t@.len() > 0 && t@[0] == 45 {
            assert(digits@ == t@.drop_first());
        }
    }
    if digits.len() > 0 && all_digits_exec(digits) {
        f.write_bytes(t)
    } else {
        f.write_str("null")
    }
}


/// Append the echo of a client request id (see `id_json`).
fn push_id(v: &mut Vec<u8>, raw: &[u8])
    ensures
        final(v)@ == old(v)@ + id_json(raw@),
{
    let t = trim(raw);
    if let Some(inner) = as_string(t) {
        let end = clamp_chars(inner, MAX_ID);
        push_str(v, "\"");
        push_escaped(v, &inner[0..end]);
        push_str(v, "\"");
        assert(v@ =~= old(v)@ + id_json(raw@));
        return;
    }
    let digits = if t.len() > 0 && t[0] == 45 { &t[1..t.len()] } else { t };
    proof {
        if t@.len() > 0 && t@[0] == 45 {
            assert(digits@ == t@.drop_first());
        }
    }
    if digits.len() > 0 && all_digits_exec(digits) {
        push_bytes(v, t);
    } else {
        push_str(v, "null");
    }
}

// ---- Responders ---------------------------------------------------------------

/// A control-plane frame: the stream-id and `type:"rpc"` envelope around a
/// JSON-RPC object.
pub open spec fn envelope(sid: u64, body: Seq<u8>) -> Seq<u8> {
    bytes_of("{\"id\":") + dec(sid as nat) + bytes_of(",\"type\":\"rpc\",\"rpc\":") + body + bytes_of("}")
}

/// The fixed error sent under the same stream id when a response would not
/// fit a frame (the client's id is nulled: it may be what overflowed).
pub open spec fn too_large(sid: u64) -> Seq<u8> {
    bytes_of("{\"id\":") + dec(sid as nat)
        + bytes_of(",\"type\":\"rpc\",\"rpc\":{\"jsonrpc\":\"2.0\",\"id\":null,\"error\":{\"code\":-32001,\"message\":\"response too large\"}}}")
}

/// What a response puts on the wire: its frame, or the too-large error.
pub open spec fn rpc_out(sid: u64, body: Seq<u8>) -> Seq<u8> {
    if envelope(sid, body).len() <= CAPACITY { wire_frame(envelope(sid, body)) } else { framed(too_large(sid)) }
}

/// Every request is answered: the too-large error always fits a frame, so a
/// response never vanishes.
pub proof fn lemma_too_large_fits(sid: u64)
    ensures
        too_large(sid).len() <= CAPACITY,
        framed(too_large(sid)) == wire_frame(too_large(sid)),
{
    lemma_dec_u64_len(sid);
    let a = "{\"id\":";
    let b = ",\"type\":\"rpc\",\"rpc\":{\"jsonrpc\":\"2.0\",\"id\":null,\"error\":{\"code\":-32001,\"message\":\"response too large\"}}}";
    reveal_strlit("{\"id\":");
    reveal_strlit(",\"type\":\"rpc\",\"rpc\":{\"jsonrpc\":\"2.0\",\"id\":null,\"error\":{\"code\":-32001,\"message\":\"response too large\"}}}");
    assert(vstd::string::is_ascii(a));
    assert(vstd::string::is_ascii(b));
    vstd::string::is_ascii_spec_bytes(a);
    vstd::string::is_ascii_spec_bytes(b);
}

/// Emit one control-plane frame around the JSON-RPC object `body`.
pub fn emit_rpc(ev: &mut Events, wire: &mut Vec<u8>, body: &[u8])
    ensures
        final(ev).next == advanced(old(ev).next),
        final(wire)@ == old(wire)@ + rpc_out(old(ev).next, body@),
{
    let sid = next_id(ev);
    let mut v: Vec<u8> = Vec::new();
    push_str(&mut v, "{\"id\":");
    push_dec(&mut v, sid);
    push_str(&mut v, ",\"type\":\"rpc\",\"rpc\":");
    push_bytes(&mut v, body);
    push_str(&mut v, "}");
    assert(v@ =~= envelope(sid, body@));
    if v.len() > CAPACITY {
        let mut e: Vec<u8> = Vec::new();
        push_str(&mut e, "{\"id\":");
        push_dec(&mut e, sid);
        push_str(&mut e, ",\"type\":\"rpc\",\"rpc\":{\"jsonrpc\":\"2.0\",\"id\":null,\"error\":{\"code\":-32001,\"message\":\"response too large\"}}}");
        assert(e@ =~= too_large(sid));
        emit_json(wire, e.as_slice());
    } else {
        let mut f = FrameBuf::new();
        let _ = f.write_bytes(v.as_slice());
        f.emit(wire);
    }
}

/// A JSON-RPC result object answering request `id`.
pub open spec fn result_body(id: Seq<u8>, result: Seq<u8>) -> Seq<u8> {
    bytes_of("{\"jsonrpc\":\"2.0\",\"id\":") + id_json(id) + bytes_of(",\"result\":") + result + bytes_of("}")
}

/// A JSON-RPC error object answering request `id`.
pub open spec fn error_body(id: Seq<u8>, code: i32, message: Seq<u8>) -> Seq<u8> {
    bytes_of("{\"jsonrpc\":\"2.0\",\"id\":") + id_json(id) + bytes_of(",\"error\":{\"code\":") + sdec(code as int)
        + bytes_of(",\"message\":\"") + escaped(message) + bytes_of("\"}}")
}

/// Answer request `id` with `result`.
pub fn respond_result(ev: &mut Events, wire: &mut Vec<u8>, id: &[u8], result: &[u8])
    ensures
        final(ev).next == advanced(old(ev).next),
        final(wire)@ == old(wire)@ + rpc_out(old(ev).next, result_body(id@, result@)),
{
    let mut v: Vec<u8> = Vec::new();
    push_str(&mut v, "{\"jsonrpc\":\"2.0\",\"id\":");
    push_id(&mut v, id);
    push_str(&mut v, ",\"result\":");
    push_bytes(&mut v, result);
    push_str(&mut v, "}");
    assert(v@ =~= result_body(id@, result@));
    emit_rpc(ev, wire, v.as_slice());
}

/// Answer request `id` with a result built in a frame buffer; a result that
/// did not fit its buffer does not fit a response either.
pub fn respond_frame(ev: &mut Events, wire: &mut Vec<u8>, id: &[u8], result: &FrameBuf)
    requires
        result.wf(),
    ensures
        final(ev).next == advanced(old(ev).next),
        final(wire)@ == old(wire)@ + rpc_out(old(ev).next, result_body(id@, piece_of(*result))),
{
    if result.overflowed() {
        let long: Vec<u8> = vec![0u8; CAPACITY + 1];
        assert(long@ =~= piece_of(*result));
        respond_result(ev, wire, id, long.as_slice());
    } else {
        respond_result(ev, wire, id, result.as_bytes());
    }
}

/// Answer request `id` with an error.
pub fn respond_error(ev: &mut Events, wire: &mut Vec<u8>, id: &[u8], code: i32, message: &str)
    ensures
        final(ev).next == advanced(old(ev).next),
        final(wire)@ == old(wire)@ + rpc_out(old(ev).next, error_body(id@, code, bytes_of(message))),
{
    let mut v: Vec<u8> = Vec::new();
    push_str(&mut v, "{\"jsonrpc\":\"2.0\",\"id\":");
    push_id(&mut v, id);
    push_str(&mut v, ",\"error\":{\"code\":");
    push_i64(&mut v, code as i64);
    push_str(&mut v, ",\"message\":\"");
    push_escaped(&mut v, message.as_bytes());
    push_str(&mut v, "\"}}");
    assert(v@ =~= error_body(id@, code, bytes_of(message)));
    emit_rpc(ev, wire, v.as_slice());
}

/// The result acknowledging an accepted suite.
pub open spec fn accepted_json(suite: Seq<u8>) -> Seq<u8> {
    bytes_of("{\"status\":\"accepted\",\"suite\":\"") + escaped(suite) + bytes_of("\"}")
}

pub fn respond_accepted(ev: &mut Events, wire: &mut Vec<u8>, id: &[u8], suite: &[u8])
    ensures
        final(ev).next == advanced(old(ev).next),
        final(wire)@ == old(wire)@ + rpc_out(old(ev).next, result_body(id@, accepted_json(suite@))),
{
    let mut v: Vec<u8> = Vec::new();
    push_str(&mut v, "{\"status\":\"accepted\",\"suite\":\"");
    push_escaped(&mut v, suite);
    push_str(&mut v, "\"}");
    assert(v@ =~= accepted_json(suite@));
    respond_result(ev, wire, id, v.as_slice());
}

/// The result acknowledging a replayed operation without re-running it.
pub open spec fn duplicate_json(op: Seq<u8>) -> Seq<u8> {
    bytes_of("{\"status\":\"duplicate\",\"opId\":\"") + escaped(op) + bytes_of("\"}")
}

pub fn respond_duplicate(ev: &mut Events, wire: &mut Vec<u8>, id: &[u8], op: &[u8])
    ensures
        final(ev).next == advanced(old(ev).next),
        final(wire)@ == old(wire)@ + rpc_out(old(ev).next, result_body(id@, duplicate_json(op@))),
{
    let mut v: Vec<u8> = Vec::new();
    push_str(&mut v, "{\"status\":\"duplicate\",\"opId\":\"");
    push_escaped(&mut v, op);
    push_str(&mut v, "\"}");
    assert(v@ =~= duplicate_json(op@));
    respond_result(ev, wire, id, v.as_slice());
}

/// The `initialize` result.
pub open spec fn initialize_json() -> Seq<u8> {
    bytes_of("{\"protocolVersion\":\"2024-11-05\",") + bytes_of("\"serverInfo\":{\"name\":\"kernai\",\"version\":\"0\"},")
        + bytes_of("\"capabilities\":{\"tools\":{},\"resources\":{}}}")
}

pub fn respond_initialize(ev: &mut Events, wire: &mut Vec<u8>, id: &[u8])
    ensures
        final(ev).next == advanced(old(ev).next),
        final(wire)@ == old(wire)@ + rpc_out(old(ev).next, result_body(id@, initialize_json())),
{
    let mut v: Vec<u8> = Vec::new();
    push_str(&mut v, "{\"protocolVersion\":\"2024-11-05\",");
    push_str(&mut v, "\"serverInfo\":{\"name\":\"kernai\",\"version\":\"0\"},");
    push_str(&mut v, "\"capabilities\":{\"tools\":{},\"resources\":{}}}");
    assert(v@ =~= initialize_json());
    respond_result(ev, wire, id, v.as_slice());
}

/// One tool descriptor, with an optional single required string property.
pub open spec fn tool_json(name: Seq<u8>, desc: Seq<u8>, prop: Option<Seq<u8>>) -> Seq<u8> {
    bytes_of("{\"name\":\"") + name + bytes_of("\",\"description\":\"") + desc
        + bytes_of("\",\"inputSchema\":{\"type\":\"object\"")
        + (match prop {
            Some(p) => bytes_of(",\"properties\":{\"") + p + bytes_of("\":{\"type\":\"string\"}},\"required\":[\"") + p + bytes_of("\"]"),
            None => Seq::empty(),
        })
        + bytes_of("}}")
}

/// Append one tool descriptor.
pub fn tool(v: &mut Vec<u8>, name: &str, desc: &str, prop: Option<&str>)
    ensures
        final(v)@ == old(v)@ + tool_json(bytes_of(name), bytes_of(desc), match prop { Some(p) => Some(bytes_of(p)), None => None }),
{
    push_str(v, "{\"name\":\"");
    push_str(v, name);
    push_str(v, "\",\"description\":\"");
    push_str(v, desc);
    push_str(v, "\",\"inputSchema\":{\"type\":\"object\"");
    if let Some(p) = prop {
        push_str(v, ",\"properties\":{\"");
        push_str(v, p);
        push_str(v, "\":{\"type\":\"string\"}},\"required\":[\"");
        push_str(v, p);
        push_str(v, "\"]");
    }
    push_str(v, "}}");
    assert(v@ =~= old(v)@ + tool_json(bytes_of(name), bytes_of(desc), match prop { Some(p) => Some(bytes_of(p)), None => None }));
}

/// The `set_budget` tool's descriptor (two required properties).
pub open spec fn budget_tool_json() -> Seq<u8> {
    bytes_of("{\"name\":\"set_budget\",\"description\":\"Set a live payload's instruction budget: deadline in timebase units from its start, 0 = none (P1).\",\"inputSchema\":{\"type\":\"object\",\"properties\":{\"pid\":{\"type\":\"string\"},\"deadline\":{\"type\":\"string\"}},\"required\":[\"pid\",\"deadline\"]}}")
}

/// The `tools/list` result.
pub open spec fn tools_list_json() -> Seq<u8> {
    bytes_of("{\"tools\":[")
        + tool_json(bytes_of("run_suite"), bytes_of("Run a payload suite (p|m|i|f|d|e|e2; feature builds add craycast/doom)."), Some(bytes_of("suite")))
        + bytes_of(",") + tool_json(bytes_of("crash"), bytes_of("Trigger a deliberate kernel fault → shutdown."), None)
        + bytes_of(",") + tool_json(bytes_of("kill"), bytes_of("Kill a live payload by pid — servable mid-run (M13/E2 remediation)."), Some(bytes_of("pid")))
        + bytes_of(",") + budget_tool_json()
        + bytes_of(",") + tool_json(bytes_of("ring_read"), bytes_of("Read the trap ring buffer."), None)
        + bytes_of(",") + tool_json(bytes_of("set_surface"), bytes_of("Select the diagnostic surface: classic|agentic (P6/E1)."), Some(bytes_of("mode")))
        + bytes_of(",") + tool_json(bytes_of("set_autonomy"), bytes_of("Set the autonomy dial: reactive|autonomous (P1/P3)."), Some(bytes_of("mode")))
        + bytes_of("]}")
}

pub fn respond_tools_list(ev: &mut Events, wire: &mut Vec<u8>, id: &[u8])
    ensures
        final(ev).next == advanced(old(ev).next),
        final(wire)@ == old(wire)@ + rpc_out(old(ev).next, result_body(id@, tools_list_json())),
{
    let mut v: Vec<u8> = Vec::new();
    push_str(&mut v, "{\"tools\":[");
    tool(&mut v, "run_suite", "Run a payload suite (p|m|i|f|d|e|e2; feature builds add craycast/doom).", Some("suite"));
    push_str(&mut v, ",");
    tool(&mut v, "crash", "Trigger a deliberate kernel fault → shutdown.", None);
    push_str(&mut v, ",");
    tool(&mut v, "kill", "Kill a live payload by pid — servable mid-run (M13/E2 remediation).", Some("pid"));
    push_str(&mut v, ",");
    push_str(&mut v, "{\"name\":\"set_budget\",\"description\":\"Set a live payload's instruction budget: deadline in timebase units from its start, 0 = none (P1).\",\"inputSchema\":{\"type\":\"object\",\"properties\":{\"pid\":{\"type\":\"string\"},\"deadline\":{\"type\":\"string\"}},\"required\":[\"pid\",\"deadline\"]}}");
    push_str(&mut v, ",");
    tool(&mut v, "ring_read", "Read the trap ring buffer.", None);
    push_str(&mut v, ",");
    tool(&mut v, "set_surface", "Select the diagnostic surface: classic|agentic (P6/E1).", Some("mode"));
    push_str(&mut v, ",");
    tool(&mut v, "set_autonomy", "Set the autonomy dial: reactive|autonomous (P1/P3).", Some("mode"));
    push_str(&mut v, "]}");
    assert(v@ =~= tools_list_json());
    respond_result(ev, wire, id, v.as_slice());
}

/// One resource descriptor.
pub open spec fn resource_json(uri: Seq<u8>, desc: Seq<u8>) -> Seq<u8> {
    bytes_of("{\"uri\":\"") + uri + bytes_of("\",\"name\":\"") + uri + bytes_of("\",\"description\":\"") + desc
        + bytes_of("\",\"mimeType\":\"application/json\"}")
}

/// Append one resource descriptor.
pub fn resource(v: &mut Vec<u8>, uri: &str, desc: &str)
    ensures
        final(v)@ == old(v)@ + resource_json(bytes_of(uri), bytes_of(desc)),
{
    push_str(v, "{\"uri\":\"");
    push_str(v, uri);
    push_str(v, "\",\"name\":\"");
    push_str(v, uri);
    push_str(v, "\",\"description\":\"");
    push_str(v, desc);
    push_str(v, "\",\"mimeType\":\"application/json\"}");
    assert(v@ =~= old(v)@ + resource_json(bytes_of(uri), bytes_of(desc)));
}

/// The `resources/list` result.
pub open spec fn resources_list_json() -> Seq<u8> {
    bytes_of("{\"resources\":[")
        + resource_json(bytes_of("trap_ring"), bytes_of("The trap ring buffer (last N traps)."))
        + bytes_of(",") + resource_json(bytes_of("processes"), bytes_of("The process table."))
        + bytes_of(",") + resource_json(bytes_of("spec"), bytes_of("Self-describing surface: syscalls, caps, memory map (P5)."))
        + bytes_of(",") + resource_json(bytes_of("surface"), bytes_of("The active diagnostic surface (classic|agentic)."))
        + bytes_of(",") + resource_json(bytes_of("autonomy"), bytes_of("The active autonomy dial (reactive|autonomous)."))
        + bytes_of(",") + resource_json(bytes_of("digest"), bytes_of("Budgeted, coalesced activity summary; takes a `budget` param (P3)."))
        + bytes_of(",") + resource_json(bytes_of("memory"), bytes_of("Frame-allocator state: frames allocated and pool capacity (P11)."))
        + bytes_of("]}")
}

pub fn respond_resources_list(ev: &mut Events, wire: &mut Vec<u8>, id: &[u8])
    ensures
        final(ev).next == advanced(old(ev).next),
        final(wire)@ == old(wire)@ + rpc_out(old(ev).next, result_body(id@, resources_list_json())),
{
    let mut v: Vec<u8> = Vec::new();
    push_str(&mut v, "{\"resources\":[");
    resource(&mut v, "trap_ring", "The trap ring buffer (last N traps).");
    push_str(&mut v, ",");
    resource(&mut v, "processes", "The process table.");
    push_str(&mut v, ",");
    resource(&mut v, "spec", "Self-describing surface: syscalls, caps, memory map (P5).");
    push_str(&mut v, ",");
    resource(&mut v, "surface", "The active diagnostic surface (classic|agentic).");
    push_str(&mut v, ",");
    resource(&mut v, "autonomy", "The active autonomy dial (reactive|autonomous).");
    push_str(&mut v, ",");
    resource(&mut v, "digest", "Budgeted, coalesced activity summary; takes a `budget` param (P3).");
    push_str(&mut v, ",");
    resource(&mut v, "memory", "Frame-allocator state: frames allocated and pool capacity (P11).");
    push_str(&mut v, "]}");
    assert(v@ =~= resources_list_json());
    respond_result(ev, wire, id, v.as_slice());
}


// ---- Requests -------------------------------------------------------------------

/// A response built in a fresh frame buffer answers exactly as its text
/// would: when the text did not fit the buffer, it does not fit a response.
pub proof fn lemma_piece_reply(sid: u64, id: Seq<u8>, f0: FrameBuf, f: FrameBuf, x: Seq<u8>)
    requires
        f0.content().len() == 0,
        !f0.poisoned(),
        wrote(f0, f, x),
    ensures
        rpc_out(sid, result_body(id, piece_of(f))) == rpc_out(sid, result_body(id, x)),
{
    if !fits(f0, x) {
        assert(envelope(sid, result_body(id, piece_of(f))).len() > CAPACITY);
        assert(envelope(sid, result_body(id, x)).len() > CAPACITY);
    } else {
        assert(f.content() =~= x);
    }
}

/// The value of member `key` of `s`, or `dflt` when it has none.
pub open spec fn member_or(s: Seq<u8>, key: Seq<u8>, dflt: Seq<u8>) -> Seq<u8> {
    match member_value(s, key) { Some(v) => v, None => dflt }
}

/// The content of member `key` of `s` when it is a JSON string.
pub open spec fn str_member(s: Seq<u8>, key: Seq<u8>) -> Option<Seq<u8>> {
    match member_value(s, key) { Some(v) => string_inner(v), None => None }
}

/// The request's `params` object (`{}` when absent).
pub open spec fn params_of(json: Seq<u8>) -> Seq<u8> {
    member_or(json, bytes_of("params"), bytes_of("{}"))
}

/// The tool call's `arguments` object (`{}` when absent).
pub open spec fn args_of(json: Seq<u8>) -> Seq<u8> {
    member_or(params_of(json), bytes_of("arguments"), bytes_of("{}"))
}

/// `object_get(s, key)`, with the length bound the reader needs.
fn get<'a>(s: &'a [u8], key: &str) -> (r: Option<&'a [u8]>)
    requires
        s@.len() <= MAX_REQ,
    ensures
        r.is_some() == member_value(s@, bytes_of(key)).is_some(),
        r matches Some(x) ==> x@ == member_value(s@, bytes_of(key)).unwrap() && x@.len() <= MAX_REQ,
{
    object_get(s, key.as_bytes())
}

/// `{}` is two bytes.
proof fn lemma_empty_object()
    ensures
        bytes_of("{}").len() == 2,
{
    reveal_strlit("{}");
    assert(vstd::string::is_ascii("{}"));
    vstd::string::is_ascii_spec_bytes("{}");
}

/// `get`, falling back to `dflt`.
fn get_or<'a>(s: &'a [u8], key: &str, dflt: &'a str) -> (r: &'a [u8])
    requires
        s@.len() <= MAX_REQ,
        bytes_of(dflt).len() <= MAX_REQ,
    ensures
        r@ == member_or(s@, bytes_of(key), bytes_of(dflt)),
        r@.len() <= MAX_REQ,
{
    match get(s, key) {
        Some(x) => x,
        None => dflt.as_bytes(),
    }
}

/// The string content of member `key`.
fn get_str<'a>(s: &'a [u8], key: &str) -> (r: Option<&'a [u8]>)
    requires
        s@.len() <= MAX_REQ,
    ensures
        match r { Some(x) => str_member(s@, bytes_of(key)) == Some(x@), None => str_member(s@, bytes_of(key)) is None },
{
    match get(s, key) {
        Some(x) => as_string(x),
        None => None,
    }
}

fn is(s: &[u8], lit: &str) -> (r: bool)
    ensures
        r == (s@ == bytes_of(lit)),
{
    bytes_eq(s, lit.as_bytes())
}

/// A `{"key":"value"}` result.
pub open spec fn pair_json(key: Seq<u8>, value: Seq<u8>) -> Seq<u8> {
    bytes_of("{\"") + key + bytes_of("\":\"") + value + bytes_of("\"}")
}

fn respond_pair(ev: &mut Events, wire: &mut Vec<u8>, id: &[u8], key: &str, value: &str)
    ensures
        final(ev).next == advanced(old(ev).next),
        final(wire)@ == old(wire)@ + rpc_out(old(ev).next, result_body(id@, pair_json(bytes_of(key), bytes_of(value)))),
{
    let mut v: Vec<u8> = Vec::new();
    push_str(&mut v, "{\"");
    push_str(&mut v, key);
    push_str(&mut v, "\":\"");
    push_str(&mut v, value);
    push_str(&mut v, "\"}");
    assert(v@ =~= pair_json(bytes_of(key), bytes_of(value)));
    respond_result(ev, wire, id, v.as_slice());
}

/// The budget a digest request asks for: its `budget` (4 by default),
/// clamped to 64.
pub open spec fn digest_budget(params: Seq<u8>) -> usize {
    let b: u32 = match member_value(params, bytes_of("budget")) {
        Some(v) => match parsed_u32(v) { Some(n) => n, None => 4 },
        None => 4,
    };
    if b < 64 { b as usize } else { 64 }
}

/// The `memory` resource: frames allocated out of the pool's capacity.
pub open spec fn memory_json(allocated: nat) -> Seq<u8> {
    bytes_of("{\"allocated\":") + dec(allocated) + bytes_of(",\"capacity\":") + dec(POOL_FRAMES as nat) + bytes_of("}")
}

/// The answer to `resources/read`, with `allocated` frames in use.
pub open spec fn resources_read_body(t: Traps, p: Payloads, allocated: nat, json: Seq<u8>, id: Seq<u8>) -> Seq<u8> {
    let params = params_of(json);
    match str_member(params, bytes_of("uri")) {
        Some(u) => if u == bytes_of("trap_ring") { result_body(id, ring_resource_json(t)) }
            else if u == bytes_of("processes") { result_body(id, process_table_json(p.table@)) }
            else if u == bytes_of("spec") { result_body(id, spec_json()) }
            else if u == bytes_of("surface") {
                result_body(id, pair_json(bytes_of("surface"), if t.classic_surface { bytes_of("classic") } else { bytes_of("agentic") }))
            } else if u == bytes_of("autonomy") {
                result_body(id, pair_json(bytes_of("autonomy"), if t.autonomous { bytes_of("autonomous") } else { bytes_of("reactive") }))
            } else if u == bytes_of("digest") { result_body(id, digest_json(t, digest_budget(params))) }
            else if u == bytes_of("memory") { result_body(id, memory_json(allocated)) }
            else { error_body(id, -32602i32, bytes_of("unknown resource")) },
        None => error_body(id, -32602i32, bytes_of("missing uri")),
    }
}

/// `resources/read`: the trap ring, the process table, the self-describing
/// spec, the active surface or autonomy dial, a budgeted digest, or the
/// frame allocator's state.
pub fn handle_resources_read(t: &Traps, p: &Payloads, fa: &FrameAllocator, ev: &mut Events, wire: &mut Vec<u8>,
    json: &[u8], id: &[u8])
    requires
        t.wf(),
        p.wf(),
        fa.wf(),
        json@.len() <= MAX_REQ,
    ensures
        final(ev).next == advanced(old(ev).next),
        final(wire)@ == old(wire)@ + rpc_out(old(ev).next, resources_read_body(*t, *p, fa.count(), json@, id@)),
{
    proof { lemma_empty_object(); }
    let params = get_or(json, "params", "{}");
    let uri = match get_str(params, "uri") {
        Some(u) => u,
        None => {
            respond_error(ev, wire, id, -32602, "missing uri");
            return;
        },
    };
    let ghost sid = ev.next;
    if is(uri, "trap_ring") {
        let mut f = FrameBuf::new();
        let ghost f0 = f;
        let _ = write_ring_resource(t, &mut f);
        proof { lemma_piece_reply(sid, id@, f0, f, ring_resource_json(*t)); }
        respond_frame(ev, wire, id, &f);
    } else if is(uri, "processes") {
        let mut f = FrameBuf::new();
        let ghost f0 = f;
        let _ = write_process_table(p, &mut f);
        proof { lemma_piece_reply(sid, id@, f0, f, process_table_json(p.table@)); }
        respond_frame(ev, wire, id, &f);
    } else if is(uri, "spec") {
        let mut f = FrameBuf::new();
        let ghost f0 = f;
        let _ = write_spec(&mut f);
        proof { lemma_piece_reply(sid, id@, f0, f, spec_json()); }
        respond_frame(ev, wire, id, &f);
    } else if is(uri, "surface") {
        respond_pair(ev, wire, id, "surface", if t.classic_surface { "classic" } else { "agentic" });
    } else if is(uri, "autonomy") {
        respond_pair(ev, wire, id, "autonomy", if t.autonomous { "autonomous" } else { "reactive" });
    } else if is(uri, "digest") {
        let b: u32 = match get(params, "budget") {
            Some(x) => match parse_u32(x) {
                Some(n) => n,
                None => 4,
            },
            None => 4,
        };
        let budget: usize = if b < 64 { b as usize } else { 64 };
        let mut f = FrameBuf::new();
        let ghost f0 = f;
        let _ = write_digest(t, &mut f, budget);
        proof { lemma_piece_reply(sid, id@, f0, f, digest_json(*t, budget)); }
        respond_frame(ev, wire, id, &f);
    } else if is(uri, "memory") {
        let (allocated, capacity) = stats(fa);
        let mut v: Vec<u8> = Vec::new();
        push_str(&mut v, "{\"allocated\":");
        push_dec(&mut v, allocated as u64);
        push_str(&mut v, ",\"capacity\":");
        push_dec(&mut v, capacity as u64);
        push_str(&mut v, "}");
        assert(v@ =~= memory_json(fa.count()));
        respond_result(ev, wire, id, v.as_slice());
    } else {
        respond_error(ev, wire, id, -32602, "unknown resource");
    }
}


/// A payload suite the control plane can start.
#[derive(Clone, Copy, PartialEq, Eq, Structural)]
pub enum Suite {
    M3,
    M4,
    M5,
    M6,
}

/// What the kernel does once a request has been answered.
#[derive(Clone, Copy, PartialEq, Eq, Structural)]
pub enum RpcAction {
    /// Back to the idle loop.
    Idle,
    /// Seed the suite and run the scheduler.
    RunSuite(Suite),
    /// Execute a deliberate illegal instruction (a kernel fault follows).
    Crash,
}

/// The suite a `run_suite` argument names.
pub open spec fn suite_of(s: Seq<u8>) -> Option<Suite> {
    if s == bytes_of("p") || s == bytes_of("m3") { Some(Suite::M3) }
    else if s == bytes_of("m") || s == bytes_of("m4") { Some(Suite::M4) }
    else if s == bytes_of("i") || s == bytes_of("m5") { Some(Suite::M5) }
    else if s == bytes_of("f") || s == bytes_of("m6") { Some(Suite::M6) }
    else { None }
}

fn suite_named(s: &[u8]) -> (r: Option<Suite>)
    ensures
        r == suite_of(s@),
{
    if is(s, "p") || is(s, "m3") {
        Some(Suite::M3)
    } else if is(s, "m") || is(s, "m4") {
        Some(Suite::M4)
    } else if is(s, "i") || is(s, "m5") {
        Some(Suite::M5)
    } else if is(s, "f") || is(s, "m6") {
        Some(Suite::M6)
    } else {
        None
    }
}

/// How a `tools/call` request is decided.
pub enum ToolDecision {
    Error(i32, Seq<u8>),
    Duplicate(Seq<u8>),
    Accepted(Suite, Seq<u8>),
    Crashing,
    Killed(usize),
    KillRefused,
    RingRead,
    Surface(bool),
    Autonomy(bool),
    BudgetSet(usize, u64),
    BudgetRefused,
}

pub open spec fn tool_name(json: Seq<u8>) -> Option<Seq<u8>> {
    str_member(params_of(json), bytes_of("name"))
}

pub open spec fn tool_op(json: Seq<u8>) -> Option<Seq<u8>> {
    str_member(params_of(json), bytes_of("opId"))
}

pub open spec fn suite_arg(json: Seq<u8>) -> Seq<u8> {
    match str_member(args_of(json), bytes_of("suite")) { Some(x) => x, None => Seq::empty() }
}

pub open spec fn mode_arg(json: Seq<u8>) -> Option<Seq<u8>> {
    str_member(args_of(json), bytes_of("mode"))
}

pub open spec fn pid_arg(json: Seq<u8>) -> Option<u32> {
    match member_value(args_of(json), bytes_of("pid")) { Some(v) => parsed_u32(v), None => None }
}

pub open spec fn deadline_arg(json: Seq<u8>) -> Option<u32> {
    match member_value(args_of(json), bytes_of("deadline")) { Some(v) => parsed_u32(v), None => None }
}

/// The request replays an operation id already seen.
pub open spec fn replayed(log: OpLog, json: Seq<u8>) -> bool {
    tool_op(json) matches Some(o) && seen(log, fnv(o))
}

/// The decision on a `tools/call` request. Mutating calls (`run_suite`,
/// `crash`, `kill`) with a seen `opId` are acknowledged as duplicates and
/// not run again; `run_suite` and `crash` are refused while payloads are
/// alive.
pub open spec fn decide_tool(log: OpLog, p: Payloads, json: Seq<u8>) -> ToolDecision {
    match tool_name(json) {
        None => ToolDecision::Error(-32602i32, bytes_of("missing tool name")),
        Some(n) => if n == bytes_of("run_suite") {
            match suite_of(suite_arg(json)) {
                None => ToolDecision::Error(-32602i32, bytes_of("unknown suite")),
                Some(st) => if alive(p) { ToolDecision::Error(-32002i32, bytes_of("busy: payloads active")) }
                    else if replayed(log, json) { ToolDecision::Duplicate(tool_op(json).unwrap()) }
                    else { ToolDecision::Accepted(st, suite_arg(json)) },
            }
        } else if n == bytes_of("crash") {
            if alive(p) { ToolDecision::Error(-32002i32, bytes_of("busy: payloads active")) }
            else if replayed(log, json) { ToolDecision::Duplicate(tool_op(json).unwrap()) }
            else { ToolDecision::Crashing }
        } else if n == bytes_of("kill") {
            match pid_arg(json) {
                None => ToolDecision::Error(-32602i32, bytes_of("missing pid")),
                Some(pid) => if replayed(log, json) { ToolDecision::Duplicate(tool_op(json).unwrap()) }
                    else if live(p, pid as usize) { ToolDecision::Killed(pid as usize) }
                    else { ToolDecision::KillRefused },
            }
        } else if n == bytes_of("set_budget") {
            match pid_arg(json) {
                None => ToolDecision::Error(-32602i32, bytes_of("missing pid")),
                Some(pid) => match deadline_arg(json) {
                    None => ToolDecision::Error(-32602i32, bytes_of("missing deadline")),
                    Some(dl) => if replayed(log, json) { ToolDecision::Duplicate(tool_op(json).unwrap()) }
                        else if live(p, pid as usize) { ToolDecision::BudgetSet(pid as usize, dl as u64) }
                        else { ToolDecision::BudgetRefused },
                },
            }
        } else if n == bytes_of("ring_read") {
            ToolDecision::RingRead
        } else if n == bytes_of("set_surface") {
            if mode_arg(json) == Some(bytes_of("classic")) { ToolDecision::Surface(true) }
            else if mode_arg(json) == Some(bytes_of("agentic")) { ToolDecision::Surface(false) }
            else { ToolDecision::Error(-32602i32, bytes_of("mode must be classic|agentic")) }
        } else if n == bytes_of("set_autonomy") {
            if mode_arg(json) == Some(bytes_of("autonomous")) { ToolDecision::Autonomy(true) }
            else if mode_arg(json) == Some(bytes_of("reactive")) { ToolDecision::Autonomy(false) }
            else { ToolDecision::Error(-32602i32, bytes_of("mode must be reactive|autonomous")) }
        } else {
            ToolDecision::Error(-32602i32, bytes_of("unknown tool"))
        },
    }
}

/// The decision runs an operation, so its `opId` (if any) is remembered.
pub open spec fn records_op(d: ToolDecision) -> bool {
    d is Accepted || d is Crashing || d is Killed || d is KillRefused || d is BudgetSet || d is BudgetRefused
}

/// The `set_budget` result.
pub open spec fn budget_result(pid: usize, deadline: u64) -> Seq<u8> {
    bytes_of("{\"status\":\"budget_set\",\"pid\":") + dec(pid as nat) + bytes_of(",\"deadline\":") + dec(deadline as nat)
        + bytes_of("}")
}

/// The `kill` result.
pub open spec fn killed_result(pid: usize, elapsed: u64) -> Seq<u8> {
    bytes_of("{\"status\":\"killed\",\"pid\":") + dec(pid as nat) + bytes_of(",\"elapsed\":") + dec(elapsed as nat)
        + bytes_of("}")
}

/// Time a killed payload had run: only a running one has started.
pub open spec fn kill_elapsed(p: Payloads, pid: usize, now: u64) -> u64 {
    let slot = p.table@[pid as int];
    if slot.state == RUNNING { elapsed_since(now, slot.started_at) } else { 0 }
}

/// The answer to a `tools/call` request.
pub open spec fn tool_reply(d: ToolDecision, t: Traps, p: Payloads, id: Seq<u8>, now: u64) -> Seq<u8> {
    match d {
        ToolDecision::Error(code, msg) => error_body(id, code, msg),
        ToolDecision::Duplicate(o) => result_body(id, duplicate_json(o)),
        ToolDecision::Accepted(_, suite) => result_body(id, accepted_json(suite)),
        ToolDecision::Crashing => result_body(id, bytes_of("{\"status\":\"crashing\"}")),
        ToolDecision::Killed(pid) => result_body(id, killed_result(pid, kill_elapsed(p, pid, now))),
        ToolDecision::KillRefused => error_body(id, -32602i32, bytes_of("no live payload with that pid")),
        ToolDecision::RingRead => result_body(id, ring_resource_json(t)),
        ToolDecision::Surface(c) => result_body(id, pair_json(bytes_of("surface"), if c { bytes_of("classic") } else { bytes_of("agentic") })),
        ToolDecision::Autonomy(a) => result_body(id, pair_json(bytes_of("autonomy"), if a { bytes_of("autonomous") } else { bytes_of("reactive") })),
        ToolDecision::BudgetSet(pid, dl) => result_body(id, budget_result(pid, dl)),
        ToolDecision::BudgetRefused => error_body(id, -32602i32, bytes_of("no live payload with that pid")),
    }
}

/// What the kernel does after the decision.
pub open spec fn tool_action(d: ToolDecision) -> RpcAction {
    match d {
        ToolDecision::Accepted(st, _) => RpcAction::RunSuite(st),
        ToolDecision::Crashing => RpcAction::Crash,
        _ => RpcAction::Idle,
    }
}

/// The effect of a `tools/call` request: the decision, its answer, the
/// operation id remembered, and the dial, table and event changes.
pub open spec fn tools_called(log0: OpLog, log1: OpLog, t0: Traps, t1: Traps, p0: Payloads, p1: Payloads, e0: u64, e1: u64,
    w0: Seq<u8>, w1: Seq<u8>, json: Seq<u8>, id: Seq<u8>, now: u64, act: RpcAction) -> bool {
    let d = decide_tool(log0, p0, json);
    &&& log1.wf()
    &&& t1.wf()
    &&& p1.wf()
    &&& act == tool_action(d)
    &&& (records_op(d) && tool_op(json) is Some) ==>
            log1.ids@ == log0.ids@.update((log0.head % OP_SLOTS) as int, fnv(tool_op(json).unwrap()))
            && log1.head == log0.head.wrapping_add(1)
    &&& !(records_op(d) && tool_op(json) is Some) ==> log1 == log0
    &&& t1 == (match d {
            ToolDecision::Surface(c) => Traps { classic_surface: c, ..t0 },
            ToolDecision::Autonomy(a) => Traps { autonomous: a, ..t0 },
            _ => t0,
        })
    &&& d matches ToolDecision::Killed(pid) ==> {
            let slot = p0.table@[pid as int];
            &&& p1.table@ == p0.table@.update(pid as int, (Slot { state: KILLED, ..slot }))
            &&& e1 == advanced(advanced(e0))
            &&& w1 == w0 + framed(operator_killed_json(e0, pid, kill_elapsed(p0, pid, now),
                    if slot.state == RUNNING { Some(slot.start_event) } else { None }))
                + rpc_out(advanced(e0), tool_reply(d, t0, p0, id, now))
        }
    &&& d matches ToolDecision::BudgetSet(pid, dl) ==>
            p1.table@ == p0.table@.update(pid as int, (Slot { deadline: dl, ..p0.table@[pid as int] }))
            && e1 == advanced(e0) && w1 == w0 + rpc_out(e0, tool_reply(d, t0, p0, id, now))
    &&& !(d is Killed) && !(d is BudgetSet) ==> p1.table@ == p0.table@ && e1 == advanced(e0)
            && w1 == w0 + rpc_out(e0, tool_reply(d, t0, p0, id, now))
    &&& p1.current == p0.current
    &&& p1.snaps@ == p0.snaps@
    &&& p1.last_snap == p0.last_snap
    &&& p1.auto_fork == p0.auto_fork
    &&& p1.kernel_root == p0.kernel_root
}

/// Answer a replayed operation as a duplicate, or remember a new one.
/// Returns true when the request was a replay (and has been answered).
fn check_replay(log: &mut OpLog, ev: &mut Events, wire: &mut Vec<u8>, id: &[u8], op: Option<&[u8]>) -> (dup: bool)
    requires
        old(log).wf(),
    ensures
        final(log).wf(),
        dup == (op matches Some(o) && seen(*old(log), fnv(o@))),
        dup ==> *final(log) == *old(log) && final(ev).next == advanced(old(ev).next)
            && final(wire)@ == old(wire)@ + rpc_out(old(ev).next, result_body(id@, duplicate_json(op.unwrap()@))),
        !dup ==> *final(ev) == *old(ev) && final(wire)@ == old(wire)@,
        !dup && op is Some ==> final(log).ids@ == old(log).ids@.update((old(log).head % OP_SLOTS) as int, fnv(op.unwrap()@))
            && final(log).head == old(log).head.wrapping_add(1),
        !dup && op is None ==> *final(log) == *old(log),
{
    match op {
        Some(o) => {
            let h = fnv1a(o);
            if op_seen(log, h) {
                respond_duplicate(ev, wire, id, o);
                return true;
            }
            op_record(log, h);
            false
        },
        None => false,
    }
}

/// `tools/call`: run a suite, crash, kill a payload, read the ring, or turn
/// the surface or autonomy dial.
#[verifier::rlimit(60)]
#[verifier::spinoff_prover]
pub fn handle_tools_call(log: &mut OpLog, t: &mut Traps, p: &mut Payloads, ev: &mut Events, wire: &mut Vec<u8>,
    json: &[u8], id: &[u8], now: u64) -> (act: RpcAction)
    requires
        old(log).wf(),
        old(t).wf(),
        old(p).wf(),
        json@.len() <= MAX_REQ,
    ensures
        tools_called(*old(log), *final(log), *old(t), *final(t), *old(p), *final(p), old(ev).next, final(ev).next,
            old(wire)@, final(wire)@, json@, id@, now, act),
{
    proof { lemma_empty_object(); }
    let params = get_or(json, "params", "{}");
    let name = get_str(params, "name");
    let op = get_str(params, "opId");
    let args = get_or(params, "arguments", "{}");
    let ghost d = decide_tool(*log, *p, json@);
    let ghost t0 = *t;
    let ghost p0 = *p;
    let n = match name {
        Some(n) => n,
        None => {
            respond_error(ev, wire, id, -32602, "missing tool name");
            return RpcAction::Idle;
        },
    };
    if is(n, "run_suite") {
        let suite = match get_str(args, "suite") {
            Some(x) => x,
            None => "".as_bytes(),
        };
        proof {
            if str_member(args@, bytes_of("suite")) is None {
                reveal_strlit("");
                assert(bytes_of("") =~= Seq::<u8>::empty());
            }
        }
        let st = match suite_named(suite) {
            Some(x) => x,
            None => {
                respond_error(ev, wire, id, -32602, "unknown suite");
                return RpcAction::Idle;
            },
        };
        if any_alive(p) {
            respond_error(ev, wire, id, -32002, "busy: payloads active");
            return RpcAction::Idle;
        }
        if check_replay(log, ev, wire, id, op) {
            return RpcAction::Idle;
        }
        respond_accepted(ev, wire, id, suite);
        RpcAction::RunSuite(st)
    } else if is(n, "crash") {
        if any_alive(p) {
            respond_error(ev, wire, id, -32002, "busy: payloads active");
            return RpcAction::Idle;
        }
        if check_replay(log, ev, wire, id, op) {
            return RpcAction::Idle;
        }
        respond_result(ev, wire, id, "{\"status\":\"crashing\"}".as_bytes());
        RpcAction::Crash
    } else if is(n, "kill") {
        let pid = match get(args, "pid") {
            Some(x) => match parse_u32(x) {
                Some(v) => v as usize,
                None => {
                    respond_error(ev, wire, id, -32602, "missing pid");
                    return RpcAction::Idle;
                },
            },
            None => {
                respond_error(ev, wire, id, -32602, "missing pid");
                return RpcAction::Idle;
            },
        };
        if check_replay(log, ev, wire, id, op) {
            return RpcAction::Idle;
        }
        match kill_pid(p, ev, wire, pid, now) {
            Ok(elapsed) => {
                let mut v: Vec<u8> = Vec::new();
                push_str(&mut v, "{\"status\":\"killed\",\"pid\":");
                push_dec(&mut v, pid as u64);
                push_str(&mut v, ",\"elapsed\":");
                push_dec(&mut v, elapsed);
                push_str(&mut v, "}");
                assert(v@ =~= killed_result(pid, elapsed));
                respond_result(ev, wire, id, v.as_slice());
            },
            Err(reason) => {
                respond_error(ev, wire, id, -32602, reason);
            },
        }
        RpcAction::Idle
    } else if is(n, "set_budget") {
        let pid = match get(args, "pid") {
            Some(x) => match parse_u32(x) {
                Some(v) => v as usize,
                None => {
                    respond_error(ev, wire, id, -32602, "missing pid");
                    return RpcAction::Idle;
                },
            },
            None => {
                respond_error(ev, wire, id, -32602, "missing pid");
                return RpcAction::Idle;
            },
        };
        let deadline = match get(args, "deadline") {
            Some(x) => match parse_u32(x) {
                Some(v) => v as u64,
                None => {
                    respond_error(ev, wire, id, -32602, "missing deadline");
                    return RpcAction::Idle;
                },
            },
            None => {
                respond_error(ev, wire, id, -32602, "missing deadline");
                return RpcAction::Idle;
            },
        };
        if check_replay(log, ev, wire, id, op) {
            return RpcAction::Idle;
        }
        if set_budget(p, pid, deadline) {
            let mut v: Vec<u8> = Vec::new();
            push_str(&mut v, "{\"status\":\"budget_set\",\"pid\":");
            push_dec(&mut v, pid as u64);
            push_str(&mut v, ",\"deadline\":");
            push_dec(&mut v, deadline);
            push_str(&mut v, "}");
            assert(v@ =~= budget_result(pid, deadline));
            respond_result(ev, wire, id, v.as_slice());
        } else {
            respond_error(ev, wire, id, -32602, "no live payload with that pid");
        }
        RpcAction::Idle
    } else if is(n, "ring_read") {
        let mut f = FrameBuf::new();
        let ghost f0 = f;
        let ghost sid = ev.next;
        let _ = write_ring_resource(t, &mut f);
        proof { lemma_piece_reply(sid, id@, f0, f, ring_resource_json(*t)); }
        respond_frame(ev, wire, id, &f);
        RpcAction::Idle
    } else if is(n, "set_surface") {
        match get_str(args, "mode") {
            Some(m) => {
                if is(m, "classic") {
                    set_classic_surface(t, true);
                    respond_pair(ev, wire, id, "surface", "classic");
                    return RpcAction::Idle;
                } else if is(m, "agentic") {
                    set_classic_surface(t, false);
                    respond_pair(ev, wire, id, "surface", "agentic");
                    return RpcAction::Idle;
                }
            },
            None => {},
        }
        respond_error(ev, wire, id, -32602, "mode must be classic|agentic");
        RpcAction::Idle
    } else if is(n, "set_autonomy") {
        match get_str(args, "mode") {
            Some(m) => {
                if is(m, "autonomous") {
                    set_autonomous(t, true);
                    respond_pair(ev, wire, id, "autonomy", "autonomous");
                    return RpcAction::Idle;
                } else if is(m, "reactive") {
                    set_autonomous(t, false);
                    respond_pair(ev, wire, id, "autonomy", "reactive");
                    return RpcAction::Idle;
                }
            },
            None => {},
        }
        respond_error(ev, wire, id, -32602, "mode must be reactive|autonomous");
        RpcAction::Idle
    } else {
        respond_error(ev, wire, id, -32602, "unknown tool");
        RpcAction::Idle
    }
}


/// `logs[i + 1]` is `logs[i]` with `hs[i]` recorded by `op_record`.
pub open spec fn records_in_turn(logs: Seq<OpLog>, hs: Seq<u64>) -> bool {
    &&& logs.len() == hs.len() + 1
    &&& forall|i: int| 0 <= i < hs.len() ==> {
        &&& logs[i + 1].head == logs[i].head.wrapping_add(1)
        &&& logs[i + 1].ids@ == logs[i].ids@.update((logs[i].head % OP_SLOTS) as int, #[trigger] hs[i])
    }
}

/// Recording moves to the next slot of the ring.
proof fn lemma_next_slot(h: usize)
    ensures
        h.wrapping_add(1) % 8 == (h % 8 + 1) % 8,
{
    if h == usize::MAX {
        assert(usize::MAX % 8 == 7) by {
            assert(usize::MAX == 0xffff_ffff || usize::MAX == 0xffff_ffff_ffff_ffff);
        }
    }
}

/// After `hs` is recorded in turn, the id recorded at step `i` sits in its
/// slot while fewer than `OP_SLOTS` records have come since.
proof fn lemma_recorded_slot(logs: Seq<OpLog>, hs: Seq<u64>, i: int, n: int)
    requires
        records_in_turn(logs, hs),
        logs[0].wf(),
        0 <= i < n <= hs.len(),
        n - i <= OP_SLOTS,
    ensures
        logs[n].ids@.len() == OP_SLOTS,
        logs[n].head % 8 == (logs[i].head % 8 + (n - i)) % 8,
        logs[n].ids@[(logs[i].head % 8) as int] == hs[i],
    decreases n,
{
    lemma_log_len(logs, hs, n - 1);
    assert(logs[n].ids@ == logs[n - 1].ids@.update((logs[n - 1].head % OP_SLOTS) as int, hs[n - 1]));
    lemma_next_slot(logs[n - 1].head);
    if n - 1 > i {
        lemma_recorded_slot(logs, hs, i, n - 1);
        assert((logs[n - 1].head % 8) as int != (logs[i].head % 8) as int);
    }
}

/// Recording keeps the log's slot count.
proof fn lemma_log_len(logs: Seq<OpLog>, hs: Seq<u64>, n: int)
    requires
        records_in_turn(logs, hs),
        logs[0].wf(),
        0 <= n <= hs.len(),
    ensures
        logs[n].ids@.len() == OP_SLOTS,
    decreases n,
{
    if n > 0 {
        lemma_log_len(logs, hs, n - 1);
        assert(logs[n].ids@ == logs[n - 1].ids@.update((logs[n - 1].head % OP_SLOTS) as int, hs[n - 1]));
    }
}

/// A replay stays a duplicate: every operation id among the last
/// `OP_SLOTS` recorded is still remembered.
pub proof fn lemma_recent_ids_seen(logs: Seq<OpLog>, hs: Seq<u64>)
    requires
        records_in_turn(logs, hs),
        logs[0].wf(),
    ensures
        forall|i: int| 0 <= i < hs.len() && hs.len() - i <= OP_SLOTS ==> seen(logs[hs.len() as int], #[trigger] hs[i]),
{
    assert forall|i: int| 0 <= i < hs.len() && hs.len() - i <= OP_SLOTS implies seen(logs[hs.len() as int], #[trigger] hs[i]) by {
        lemma_recorded_slot(logs, hs, i, hs.len() as int);
        let k = (logs[i].head % 8) as int;
        assert(0 <= k < OP_SLOTS && logs[hs.len() as int].ids@[k] == hs[i]);
    }
}

/// A repeated mutating call is a duplicate: once a call with an `opId` has
/// run, the same request sent again finds its id remembered.
pub proof fn lemma_replay_is_duplicate(log0: OpLog, log1: OpLog, t0: Traps, t1: Traps, p0: Payloads, p1: Payloads,
    e0: u64, e1: u64, w0: Seq<u8>, w1: Seq<u8>, json: Seq<u8>, id: Seq<u8>, now: u64, act: RpcAction)
    requires
        log0.wf(),
        tools_called(log0, log1, t0, t1, p0, p1, e0, e1, w0, w1, json, id, now, act),
        records_op(decide_tool(log0, p0, json)),
        tool_op(json) is Some,
    ensures
        replayed(log1, json),
{
    let k = (log0.head % OP_SLOTS) as int;
    assert(log1.ids@[k] == fnv(tool_op(json).unwrap()));
}

/// A replayed call changes nothing but the wire: no suite starts, no
/// payload is killed, no dial turns, and no new id is remembered.
pub proof fn lemma_replay_not_rerun(log0: OpLog, log1: OpLog, t0: Traps, t1: Traps, p0: Payloads, p1: Payloads,
    e0: u64, e1: u64, w0: Seq<u8>, w1: Seq<u8>, json: Seq<u8>, id: Seq<u8>, now: u64, act: RpcAction)
    requires
        tools_called(log0, log1, t0, t1, p0, p1, e0, e1, w0, w1, json, id, now, act),
        decide_tool(log0, p0, json) is Duplicate,
    ensures
        log1 == log0,
        t1 == t0,
        p1.table@ == p0.table@,
        act == RpcAction::Idle,
        w1 == w0 + rpc_out(e0, result_body(id, duplicate_json(tool_op(json).unwrap()))),
{
}

/// The request's `id` (`null` when absent) and `method`.
pub open spec fn id_of(json: Seq<u8>) -> Seq<u8> {
    member_or(json, bytes_of("id"), bytes_of("null"))
}

pub open spec fn method_of(json: Seq<u8>) -> Option<Seq<u8>> {
    str_member(json, bytes_of("method"))
}

/// Route one JSON-RPC request to its handler; unknown methods and requests
/// without one are answered with JSON-RPC errors.
pub fn dispatch(log: &mut OpLog, t: &mut Traps, p: &mut Payloads, fa: &FrameAllocator, ev: &mut Events,
    wire: &mut Vec<u8>, json: &[u8], now: u64) -> (act: RpcAction)
    requires
        old(log).wf(),
        old(t).wf(),
        old(p).wf(),
        fa.wf(),
        json@.len() <= MAX_REQ,
    ensures
        ({
            let id = id_of(json@);
            let e0 = old(ev).next;
            let quiet = *final(log) == *old(log) && *final(t) == *old(t) && *final(p) == *old(p)
                && final(ev).next == advanced(e0) && act == RpcAction::Idle;
            match method_of(json@) {
                Some(m) => if m == bytes_of("initialize") {
                    quiet && final(wire)@ == old(wire)@ + rpc_out(e0, result_body(id, initialize_json()))
                } else if m == bytes_of("tools/list") {
                    quiet && final(wire)@ == old(wire)@ + rpc_out(e0, result_body(id, tools_list_json()))
                } else if m == bytes_of("tools/call") {
                    tools_called(*old(log), *final(log), *old(t), *final(t), *old(p), *final(p), e0, final(ev).next,
                        old(wire)@, final(wire)@, json@, id, now, act)
                } else if m == bytes_of("resources/list") {
                    quiet && final(wire)@ == old(wire)@ + rpc_out(e0, result_body(id, resources_list_json()))
                } else if m == bytes_of("resources/read") {
                    quiet && final(wire)@ == old(wire)@ + rpc_out(e0, resources_read_body(*old(t), *old(p), fa.count(), json@, id))
                } else {
                    quiet && final(wire)@ == old(wire)@ + rpc_out(e0, error_body(id, -32601i32, bytes_of("method not found")))
                },
                None => quiet && final(wire)@ == old(wire)@ + rpc_out(e0, error_body(id, -32600i32, bytes_of("missing method"))),
            }
        }),
        final(t).classic_surface != old(t).classic_surface ==> method_of(json@) == Some(bytes_of("tools/call"))
            && decide_tool(*old(log), *old(p), json@) is Surface,
{
    let id = match get(json, "id") {
        Some(x) => x,
        None => "null".as_bytes(),
    };
    match get_str(json, "method") {
        Some(m) => {
            if is(m, "initialize") {
                respond_initialize(ev, wire, id);
                RpcAction::Idle
            } else if is(m, "tools/list") {
                respond_tools_list(ev, wire, id);
                RpcAction::Idle
            } else if is(m, "tools/call") {
                handle_tools_call(log, t, p, ev, wire, json, id, now)
            } else if is(m, "resources/list") {
                respond_resources_list(ev, wire, id);
                RpcAction::Idle
            } else if is(m, "resources/read") {
                handle_resources_read(t, p, fa, ev, wire, json, id);
                RpcAction::Idle
            } else {
                respond_error(ev, wire, id, -32601, "method not found");
                RpcAction::Idle
            }
        },
        None => {
            respond_error(ev, wire, id, -32600, "missing method");
            RpcAction::Idle
        },
    }
}

// ---- The inbound frame reader ---------------------------------------------------------

/// Whether `bytes` are well-formed UTF-8, asked of `core::str::from_utf8`.
/// Trusted, not proved: the contract claims that the call succeeds exactly
/// when the bytes are valid UTF-8 in the sense of vstd's `valid_utf8`, as
/// the standard library documents `from_utf8` (it errs on any invalid
/// sequence and accepts every valid one).
#[verifier::external_body]
fn utf8_valid(bytes: &[u8]) -> (r: bool)
    ensures
        r == vstd::utf8::valid_utf8(bytes@),
{
    core::str::from_utf8(bytes).is_ok()
}

/// The little-endian value of four bytes.
pub open spec fn le32(b: Seq<u8>) -> int {
    b[0] + 256 * b[1] + 65536 * b[2] + 16777216 * b[3]
}

/// How a reader that has taken `bytes` (everything after the leading 0xAA)
/// stands.
pub enum Verdict {
    /// The frame is incomplete.
    More,
    /// Transport junk: dropped silently and the reader resyncs.
    Drop,
    /// A complete request: a JSON object in UTF-8.
    Request(Seq<u8>),
}

/// Whether `body` is a request worth dispatching: UTF-8 text whose first
/// non-whitespace character opens an object.
pub open spec fn is_request(body: Seq<u8>) -> bool {
    vstd::utf8::valid_utf8(body) && crate::json::trimmed_start(body).len() > 0 && crate::json::trimmed_start(body)[0] == 123
}

/// The reader's verdict on `bytes`: the second magic byte, a length in
/// `1..=MAX_REQ` (anything else is a desync, never drained), then the body.
pub open spec fn verdict(bytes: Seq<u8>) -> Verdict {
    if bytes.len() == 0 {
        Verdict::More
    } else if bytes[0] != 0x99 {
        Verdict::Drop
    } else if bytes.len() < 5 {
        Verdict::More
    } else if le32(bytes.subrange(1, 5)) == 0 || le32(bytes.subrange(1, 5)) > MAX_REQ {
        Verdict::Drop
    } else if bytes.len() < 5 + le32(bytes.subrange(1, 5)) {
        Verdict::More
    } else if is_request(bytes.subrange(5, bytes.len() as int)) {
        Verdict::Request(bytes.subrange(5, bytes.len() as int))
    } else {
        Verdict::Drop
    }
}

/// An inbound frame being read, byte by byte, after its leading 0xAA.
pub struct RequestReader {
    bytes: Vec<u8>,
    len: usize,
    idle: u32,
}

/// Consecutive idle waits a frame may stall for before the reader gives up
/// on it and resyncs.
pub const MAX_STALL_WAITS: u32 = 16;

/// What one more byte makes of the frame being read.
pub enum ReadStep {
    More,
    Drop,
    Request(Vec<u8>),
}

impl RequestReader {
    /// The bytes taken since the leading 0xAA.
    pub closed spec fn taken(&self) -> Seq<u8> {
        self.bytes@
    }

    /// Idle waits since the last byte.
    pub closed spec fn idle(&self) -> nat {
        self.idle as nat
    }

    pub closed spec fn wf(&self) -> bool {
        &&& self.idle <= MAX_STALL_WAITS
        &&& verdict(self.bytes@) is More
        &&& self.bytes@.len() <= 5 + MAX_REQ
        &&& self.bytes@.len() >= 5 ==> self.len == le32(self.bytes@.subrange(1, 5))
    }

    /// A reader that has just seen 0xAA.
    pub fn new() -> (r: RequestReader)
        ensures
            r.wf(),
            r.taken() == Seq::<u8>::empty(),
            r.idle() == 0,
    {
        RequestReader { bytes: Vec::new(), len: 0, idle: 0 }
    }

    /// Abandon a stalled frame: the reader starts over.
    pub fn reset(&mut self)
        ensures
            final(self).wf(),
            final(self).taken() == Seq::<u8>::empty(),
            final(self).idle() == 0,
    {
        self.bytes = Vec::new();
        self.len = 0;
        self.idle = 0;
    }
}

/// Take one byte of an inbound frame: the frame is incomplete, junk (the
/// reader starts over), or a complete request (returned; the reader starts
/// over).
pub fn read_request(r: &mut RequestReader, byte: u8) -> (step: ReadStep)
    requires
        old(r).wf(),
    ensures
        final(r).wf(),
        ({
            let v = verdict(old(r).taken().push(byte));
            match step {
                ReadStep::More => v is More && final(r).taken() == old(r).taken().push(byte),
                ReadStep::Drop => v is Drop && final(r).taken() == Seq::<u8>::empty(),
                ReadStep::Request(b) => v == Verdict::Request(b@) && final(r).taken() == Seq::<u8>::empty(),
            }
        }),
        final(r).idle() == 0,
{
    r.idle = 0;
    let ghost before = r.bytes@;
    r.bytes.push(byte);
    let n = r.bytes.len();
    let ghost s = r.bytes@;
    assert(s.len() >= 2 ==> s.subrange(0, s.len() - 1) == before) by {
        if s.len() >= 2 { assert(s.subrange(0, s.len() - 1) =~= before); }
    }
    if r.bytes[0] != 0x99 {
        r.reset();
        return ReadStep::Drop;
    }
    if n < 5 {
        return ReadStep::More;
    }
    if n == 5 {
        let len: usize = r.bytes[1] as usize + 256 * (r.bytes[2] as usize) + 65536 * (r.bytes[3] as usize)
            + 16777216 * (r.bytes[4] as usize);
        proof {
            assert(s.subrange(1, 5)[0] == s[1] && s.subrange(1, 5)[1] == s[2] && s.subrange(1, 5)[2] == s[3] && s.subrange(1, 5)[3] == s[4]);
        }
        if len == 0 || len > MAX_REQ {
            r.reset();
            return ReadStep::Drop;
        }
        r.len = len;
        return ReadStep::More;
    }
    proof {
        assert(before.subrange(1, 5) =~= s.subrange(1, 5));
    }
    if n < 5 + r.len {
        return ReadStep::More;
    }
    let body = r.bytes.split_off(5);
    assert(body@ =~= s.subrange(5, s.len() as int));
    let ok = utf8_valid(body.as_slice()) && starts_object(body.as_slice());
    r.reset();
    if ok { ReadStep::Request(body) } else { ReadStep::Drop }
}

/// One idle wait with no byte arriving: past `MAX_STALL_WAITS` consecutive
/// waits the stalled frame is abandoned (the reader resyncs), so a withheld
/// body never wedges the command plane.
pub fn idle_wait(r: &mut RequestReader) -> (step: ReadStep)
    requires
        old(r).wf(),
    ensures
        final(r).wf(),
        old(r).idle() + 1 > MAX_STALL_WAITS ==> step is Drop && final(r).taken() == Seq::<u8>::empty()
            && final(r).idle() == 0,
        old(r).idle() + 1 <= MAX_STALL_WAITS ==> step is More && final(r).taken() == old(r).taken()
            && final(r).idle() == old(r).idle() + 1,
{
    if r.idle >= MAX_STALL_WAITS {
        r.reset();
        ReadStep::Drop
    } else {
        r.idle = r.idle + 1;
        ReadStep::More
    }
}

/// The first non-whitespace character opens an object.
fn starts_object(body: &[u8]) -> (r: bool)
    ensures
        r == (crate::json::trimmed_start(body@).len() > 0 && crate::json::trimmed_start(body@)[0] == 123),
{
    let t = crate::json::trim_start(body);
    t.len() > 0 && t[0] == 123
}

} // verus!

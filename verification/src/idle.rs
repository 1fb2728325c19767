//! Boot and the idle command loop: the `hello` event, the panic report, and
//! what each single operator command byte asks for. A leading 0xAA starts
//! a framed JSON-RPC request instead.
use vstd::prelude::*;
use crate::console::{bytes_of, dec, escaped, framed, emit_json, push_str, push_dec, push_escaped};
use crate::events::{Events, next_id, advanced};
use crate::rpc::Suite;

verus! {

/// The first frame on the wire.
pub open spec fn hello_json(id: u64) -> Seq<u8> {
    bytes_of("{\"id\":") + dec(id as nat) + bytes_of(",\"type\":\"hello\",\"name\":\"kernai\",\"proto\":0}")
}

/// Announce the kernel.
pub fn emit_hello(ev: &mut Events, wire: &mut Vec<u8>)
    ensures
        final(ev).next == advanced(old(ev).next),
        final(wire)@ == old(wire)@ + framed(hello_json(old(ev).next)),
{
    let id = next_id(ev);
    let mut v: Vec<u8> = Vec::new();
    push_str(&mut v, "{\"id\":");
    push_dec(&mut v, id);
    push_str(&mut v, ",\"type\":\"hello\",\"name\":\"kernai\",\"proto\":0}");
    assert(v@ =~= hello_json(id));
    emit_json(wire, v.as_slice());
}

/// The report of a kernel panic: where, and the message, both escaped.
pub open spec fn panic_json(id: u64, location: Seq<u8>, msg: Seq<u8>) -> Seq<u8> {
    bytes_of("{\"id\":") + dec(id as nat) + bytes_of(",\"type\":\"panic\",\"location\":\"") + escaped(location)
        + bytes_of("\",\"msg\":\"") + escaped(msg) + bytes_of("\"}")
}

/// Report a kernel panic (`location` is `file:line`, empty when unknown).
pub fn emit_panic(ev: &mut Events, wire: &mut Vec<u8>, location: &[u8], msg: &[u8])
    ensures
        final(ev).next == advanced(old(ev).next),
        final(wire)@ == old(wire)@ + framed(panic_json(old(ev).next, location@, msg@)),
{
    let id = next_id(ev);
    let mut v: Vec<u8> = Vec::new();
    push_str(&mut v, "{\"id\":");
    push_dec(&mut v, id);
    push_str(&mut v, ",\"type\":\"panic\",\"location\":\"");
    push_escaped(&mut v, location);
    push_str(&mut v, "\",\"msg\":\"");
    push_escaped(&mut v, msg);
    push_str(&mut v, "\"}");
    assert(v@ =~= panic_json(id, location@, msg@));
    emit_json(wire, v.as_slice());
}

/// What one byte read in the idle loop asks for.
#[derive(Clone, Copy, PartialEq, Eq, Structural)]
pub enum IdleAction {
    /// `r`: dump the trap ring.
    RingDump,
    /// `x`: execute a deliberate illegal instruction (a kernel fault).
    Crash,
    /// `p`, `m`, `i`, `f`: run the suite.
    RunSuite(Suite),
    /// 0xAA: read a framed JSON-RPC request.
    Request,
    /// Anything else: park until the next interrupt.
    Wait,
}

/// The command a byte names.
pub open spec fn command_of(b: u8) -> IdleAction {
    if b == 0x72 { IdleAction::RingDump }
    else if b == 0x78 { IdleAction::Crash }
    else if b == 0x70 { IdleAction::RunSuite(Suite::M3) }
    else if b == 0x6d { IdleAction::RunSuite(Suite::M4) }
    else if b == 0x69 { IdleAction::RunSuite(Suite::M5) }
    else if b == 0x66 { IdleAction::RunSuite(Suite::M6) }
    else if b == 0xAA { IdleAction::Request }
    else { IdleAction::Wait }
}

/// Decide what an idle-loop byte asks for (None, no byte: wait).
pub fn idle_command(b: Option<u8>) -> (a: IdleAction)
    ensures
        a == (match b { Some(x) => command_of(x), None => IdleAction::Wait }),
{
    match b {
        Some(0x72) => IdleAction::RingDump,
        Some(0x78) => IdleAction::Crash,
        Some(0x70) => IdleAction::RunSuite(Suite::M3),
        Some(0x6d) => IdleAction::RunSuite(Suite::M4),
        Some(0x69) => IdleAction::RunSuite(Suite::M5),
        Some(0x66) => IdleAction::RunSuite(Suite::M6),
        Some(0xAA) => IdleAction::Request,
        _ => IdleAction::Wait,
    }
}

} // verus!

//! Syscall dispatch (ecall from U-mode). ABI v0: number in a7, arguments in
//! a0..a2, result in a0 (0/positive ok, negative errno). Every
//! capability-gated call checks the running payload's CapSet first.
use vstd::prelude::*;
use crate::console::bytes_of;
use crate::events::{Events, advanced};
use crate::phys::PhysMem;
use crate::frames::FrameAllocator;
use crate::traps::{TrapFrame, frame_saved};
use crate::payload::{Payloads, Cap, Slot, holds, current_has, emit_denied, emit_output, on_exit, on_yield, on_spawn,
    on_snapshot, denied_json, output_json, current_root, user_readable, user_bytes, spawnable, first_in_state,
    first_free_snap, exit_json, yield_json, spawned, snapshot_json, WRITE_QUOTA, EMPTY, EXITED, NO_PID};
use crate::console::framed;
use crate::mm::{keeps_frames, frame_of, space_wf, copy_of};

verus! {

pub const SYS_EXIT: u64 = 0;
pub const SYS_WRITE: u64 = 1;
pub const SYS_YIELD: u64 = 2;
pub const SYS_SPAWN: u64 = 3;
pub const SYS_SNAPSHOT: u64 = 4;
pub const SYS_BLIT: u64 = 5;

pub const ENOSYS: isize = -1;
pub const ENOCAP: isize = -2;
pub const EFAULT: isize = -3;
pub const EINVAL: isize = -4;
/// No free process or snapshot slot.
pub const EAGAIN: isize = -5;
/// Frame pool exhausted.
pub const ENOMEM: isize = -6;

/// What the trap handler does after a syscall.
#[derive(Clone, Copy, PartialEq, Eq, Structural)]
pub enum Outcome {
    /// Resume the same payload with this value in a0.
    Resume(isize),
    /// The payload is leaving the CPU (it exited): hand over to the scheduler.
    Leave,
}

/// Bytes a `write` of `len` accepts: at most `WRITE_QUOTA`.
pub open spec fn write_take(len: usize) -> int {
    if len < WRITE_QUOTA { len as int } else { WRITE_QUOTA as int }
}

/// The result of `write(ptr, len)`: ENOCAP without `Cap::Write`, else the
/// bytes accepted, or EFAULT when they are not all readable through the
/// payload's table.
pub open spec fn write_result(p: Payloads, m: Seq<u8>, ptr: usize, len: usize) -> isize {
    if !holds(p, Cap::Write) {
        ENOCAP
    } else if current_root(p) matches Some(root) && user_readable(m, root, ptr, write_take(len)) {
        write_take(len) as isize
    } else {
        EFAULT
    }
}

/// write(ptr, len): emit up to `WRITE_QUOTA` payload bytes as an untrusted
/// output event. Requires `Cap::Write`. Returns the bytes accepted, or an
/// errno; a refusal is itself an event.
pub fn sys_write(p: &Payloads, mem: &PhysMem, ev: &mut Events, wire: &mut Vec<u8>, ptr: usize, len: usize) -> (r: isize)
    requires
        p.wf(),
        mem.wf(),
    ensures
        r == write_result(*p, mem@, ptr, len),
        !holds(*p, Cap::Write) ==> final(ev).next == advanced(old(ev).next)
            && final(wire)@ == old(wire)@ + crate::console::framed(denied_json(old(ev).next, p.current, bytes_of("write"), bytes_of("write"))),
        r == EFAULT ==> *final(ev) == *old(ev) && final(wire)@ == old(wire)@,
        r >= 0 ==> final(ev).next == advanced(old(ev).next)
            && final(wire)@ == old(wire)@ + crate::console::framed(output_json(old(ev).next, p.current,
                p.table@[p.current as int].start_event, user_bytes(mem@, current_root(*p).unwrap(), ptr, write_take(len)))),
{
    if !current_has(p, Cap::Write) {
        emit_denied(p, ev, wire, "write", "write");
        return ENOCAP;
    }
    let take = if len < WRITE_QUOTA { len } else { WRITE_QUOTA };
    match emit_output(p, mem, ev, wire, ptr, len) {
        Ok(()) => take as isize,
        Err(()) => EFAULT,
    }
}

/// The result of `spawn(selector, requested)`.
pub open spec fn spawn_result(p: Payloads, selector: usize) -> isize {
    if p.current == NO_PID { EINVAL }
    else if !holds(p, Cap::Spawn) { ENOCAP }
    else if spawnable(selector) is None { EINVAL }
    else if first_in_state(p.table@, EMPTY, 0) is None { EAGAIN }
    else { first_in_state(p.table@, EMPTY, 0).unwrap() as isize }
}

/// What `exit(code)` does: the running payload, if any, becomes EXITED with
/// `code` and its `payload_exit` event goes out.
pub open spec fn exit_effect(p0: Payloads, p1: Payloads, e0: u64, e1: u64, w0: Seq<u8>, w1: Seq<u8>, code: usize) -> bool {
    if p0.current == NO_PID {
        p1 == p0 && e1 == e0 && w1 == w0
    } else {
        let pid = p0.current as int;
        &&& p1.table@ == p0.table@.update(pid, (Slot { state: EXITED, exit_code: code as isize, ..p0.table@[pid] }))
        &&& e1 == advanced(e0)
        &&& w1 == w0 + framed(exit_json(e0, pid as usize, code as isize, p0.table@[pid].start_event))
    }
}

/// What `write(ptr, len)` emits: a denial without `Cap::Write`, nothing on
/// EFAULT, else the accepted bytes as an untrusted output event.
pub open spec fn write_effect(p0: Payloads, m0: Seq<u8>, e0: u64, e1: u64, w0: Seq<u8>, w1: Seq<u8>, ptr: usize, len: usize) -> bool {
    let r = write_result(p0, m0, ptr, len);
    if r == ENOCAP {
        e1 == advanced(e0) && w1 == w0 + framed(denied_json(e0, p0.current, bytes_of("write"), bytes_of("write")))
    } else if r == EFAULT {
        e1 == e0 && w1 == w0
    } else {
        &&& e1 == advanced(e0)
        &&& w1 == w0 + framed(output_json(e0, p0.current, p0.table@[p0.current as int].start_event,
                user_bytes(m0, current_root(p0).unwrap(), ptr, write_take(len))))
    }
}

/// What `yield()` returns and emits.
pub open spec fn yield_effect(p0: Payloads, e0: u64, e1: u64, w0: Seq<u8>, w1: Seq<u8>, v: isize) -> bool {
    if holds(p0, Cap::Yield) {
        v == 0 && e1 == advanced(e0) && w1 == w0 + framed(yield_json(e0, p0.current))
    } else {
        v == ENOCAP && e1 == advanced(e0)
            && w1 == w0 + framed(denied_json(e0, p0.current, bytes_of("yield"), bytes_of("yield")))
    }
}

/// What `spawn(selector, requested)` does to the table and the wire.
pub open spec fn spawn_effect(p0: Payloads, p1: Payloads, e0: u64, e1: u64, w0: Seq<u8>, w1: Seq<u8>, selector: usize,
    requested: u32, v: isize) -> bool {
    &&& v == spawn_result(p0, selector)
    &&& p1.current == p0.current && p1.snaps@ == p0.snaps@ && p1.last_snap == p0.last_snap
    &&& p1.auto_fork == p0.auto_fork && p1.kernel_root == p0.kernel_root
    &&& if p0.current == NO_PID {
        p1.table@ == p0.table@ && e1 == e0 && w1 == w0
    } else if !holds(p0, Cap::Spawn) {
        p1.table@ == p0.table@ && e1 == advanced(e0)
            && w1 == w0 + framed(denied_json(e0, p0.current, bytes_of("spawn"), bytes_of("spawn")))
    } else if spawnable(selector) is None || first_in_state(p0.table@, EMPTY, 0) is None {
        p1.table@ == p0.table@ && e1 == e0 && w1 == w0
    } else {
        spawned(p0, p1, e0, e1, w0, w1, selector, requested, v)
    }
}

/// What `snapshot()` does: the snapshot slot it fills, the frame it saves
/// (with a0 = 0, so a continuation sees 0), the copy of the address space,
/// and the event; nothing but memory outside allocated frames on failure.
pub open spec fn snapshot_effect(p0: Payloads, p1: Payloads, fa0: FrameAllocator, fa1: FrameAllocator, m0: Seq<u8>,
    m1: Seq<u8>, e0: u64, e1: u64, w0: Seq<u8>, w1: Seq<u8>, frame: TrapFrame, v: isize) -> bool {
    &&& p1.table@ == p0.table@ && p1.current == p0.current
    &&& p1.auto_fork == p0.auto_fork && p1.kernel_root == p0.kernel_root
    &&& keeps_frames(m0, m1, fa0.frames())
    &&& current_root(p0) is None ==> v == EINVAL
    &&& current_root(p0) is Some && first_free_snap(p0.snaps@, 0) is None ==> v == EAGAIN
    &&& current_root(p0) is Some && first_free_snap(p0.snaps@, 0) is Some ==> v == ENOMEM || v > 0
    &&& v <= 0 ==> p1.snaps@ == p0.snaps@ && p1.last_snap == p0.last_snap && e1 == e0 && w1 == w0
    &&& v > 0 ==> {
        let sid = first_free_snap(p0.snaps@, 0).unwrap();
        let pid = p0.current;
        let slot = p0.table@[pid as int];
        let snap = p1.snaps@[sid];
        &&& v == sid + 1
        &&& p1.snaps@ == p0.snaps@.update(sid, snap)
        &&& snap.valid && snap.caps == slot.caps && snap.image == slot.image
        &&& !fa0.frames().contains(frame_of(snap.root as int))
        &&& !fa0.frames().contains(frame_of(snap.frame as int))
        &&& frame_saved(m1, snap.frame as int, frame, 0)
        &&& p1.last_snap == sid + 1
        &&& e1 == advanced(e0)
        &&& w1 == w0 + framed(snapshot_json(e0, pid, (sid + 1) as usize))
        &&& space_wf(m0, fa0, slot.root as int) ==>
            copy_of(m0, m1, fa0.frames(), fa1.frames(), slot.root as int, snap.root as int)
    }
}

/// The effect of dispatching the syscall in `frame` on the process table,
/// the frame allocator, memory, the event counter and the wire, and the
/// outcome.
pub open spec fn dispatched(p0: Payloads, p1: Payloads, fa0: FrameAllocator, fa1: FrameAllocator, m0: Seq<u8>, m1: Seq<u8>,
    e0: u64, e1: u64, w0: Seq<u8>, w1: Seq<u8>, frame: TrapFrame, out: Outcome) -> bool {
    let nr = frame.regs@[16];
    let a0 = frame.regs@[9] as usize;
    let a1 = frame.regs@[10] as usize;
    if nr == SYS_EXIT {
        &&& out == Outcome::Leave
        &&& exit_effect(p0, p1, e0, e1, w0, w1, a0)
        &&& p1.current == p0.current && p1.snaps@ == p0.snaps@ && p1.last_snap == p0.last_snap
        &&& p1.auto_fork == p0.auto_fork && p1.kernel_root == p0.kernel_root
        &&& m1 == m0 && fa1 == fa0
    } else if nr == SYS_WRITE {
        &&& out == Outcome::Resume(write_result(p0, m0, a0, a1))
        &&& write_effect(p0, m0, e0, e1, w0, w1, a0, a1)
        &&& p1 == p0 && m1 == m0 && fa1 == fa0
    } else if nr == SYS_YIELD {
        &&& out matches Outcome::Resume(v)
        &&& yield_effect(p0, e0, e1, w0, w1, v)
        &&& p1 == p0 && m1 == m0 && fa1 == fa0
    } else if nr == SYS_SPAWN {
        &&& out matches Outcome::Resume(v)
        &&& spawn_effect(p0, p1, e0, e1, w0, w1, a0, a1 as u32, v)
        &&& m1 == m0 && fa1 == fa0
    } else if nr == SYS_SNAPSHOT {
        &&& out matches Outcome::Resume(v)
        &&& snapshot_effect(p0, p1, fa0, fa1, m0, m1, e0, e1, w0, w1, frame, v)
    } else {
        out == Outcome::Resume(ENOSYS) && p1 == p0 && w1 == w0 && e1 == e0
            && m1 == m0 && fa1 == fa0
    }
}

/// Dispatch the syscall in `frame` (number in a7, arguments in a0..a1).
/// `exit` leaves the CPU; `write`, `yield`, `spawn` and `snapshot` resume
/// the caller with their result; any other number resumes it with ENOSYS.
pub fn dispatch(p: &mut Payloads, fa: &mut FrameAllocator, mem: &mut PhysMem, ev: &mut Events, wire: &mut Vec<u8>,
    frame: &TrapFrame) -> (out: Outcome)
    requires
        old(p).wf(),
        old(fa).wf(),
        old(mem).wf(),
    ensures
        final(p).wf(),
        final(fa).wf(),
        final(mem).wf(),
        final(p).current == old(p).current,
        dispatched(*old(p), *final(p), *old(fa), *final(fa), old(mem)@, final(mem)@, old(ev).next, final(ev).next,
            old(wire)@, final(wire)@, *frame, out),
{
    let nr = frame.a7();
    let a0 = frame.a0() as usize;
    let a1 = frame.a1() as usize;
    if nr == SYS_EXIT {
        on_exit(p, ev, wire, a0);
        Outcome::Leave
    } else if nr == SYS_WRITE {
        Outcome::Resume(sys_write(p, mem, ev, wire, a0, a1))
    } else if nr == SYS_YIELD {
        Outcome::Resume(on_yield(p, ev, wire))
    } else if nr == SYS_SPAWN {
        Outcome::Resume(on_spawn(p, ev, wire, a0, a1 as u32))
    } else if nr == SYS_SNAPSHOT {
        Outcome::Resume(on_snapshot(p, fa, mem, ev, wire, frame))
    } else {
        Outcome::Resume(ENOSYS)
    }
}

} // verus!

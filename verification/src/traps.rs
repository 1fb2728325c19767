//! Trap bookkeeping: the saved register frame, the timer cadence, the trap
//! ring (the last `RING_SIZE` traps, queryable), the per-severity totals and
//! the tick-proof ring of notable traps behind the budgeted digest, and the
//! fault report (the structured diagnostic frame, or its one-line classic
//! twin).
use vstd::prelude::*;
use crate::console::{FrameBuf, FmtError, CAPACITY, bytes_of, dec, hex, wrote, fits, framed, wire_frame,
    push_str, push_dec, push_hex, push_bytes, emit_json, join, lemma_join_push};
use crate::events::{Events, next_id, advanced};
use crate::phys::{PhysMem, POOL_BASE, POOL_SIZE, in_pool, phys_write_u64};
use crate::mm::{rd, agree_except, lemma_rd_unchanged, lemma_write_effect, WalkChain};
use crate::payload::{Payloads, current_pid, current_cause, current_pagewalk, on_tick, mark_faulted, leave_current,
    over_deadline, killed_json, elapsed_since, running_pid, current_root, Slot, KILLED, FAULTED, NO_PID, MAX_PROC};
use crate::syscall::{Outcome, dispatch, dispatched};
use crate::frames::FrameAllocator;

verus! {

/// Timer cadence in timebase units: ticks fire every `TICK_INTERVAL` units,
/// an instruction-count cadence under icount, never wall time.
pub const TICK_INTERVAL: u64 = 10_000;

pub const INTERRUPT_BIT: u64 = 0x8000_0000_0000_0000;
pub const CAUSE_S_TIMER: u64 = 0x8000_0000_0000_0005;
pub const CAUSE_ILLEGAL_INSTRUCTION: u64 = 2;
/// Environment call from U-mode.
pub const CAUSE_U_ECALL: u64 = 8;

/// sstatus.SPP: previous privilege (0 = U, 1 = S).
pub const SSTATUS_SPP: u64 = 0x100;
/// sstatus.SPIE: interrupts on after `sret`.
pub const SSTATUS_SPIE: u64 = 0x20;

// Register indices into `TrapFrame::regs` (`regs[i]` holds x(i+1)).
pub const X_SP: usize = 1;
pub const X_A0: usize = 9;
pub const X_A1: usize = 10;
pub const X_A2: usize = 11;
pub const X_A7: usize = 16;

/// Byte offsets of `sepc` and `sstatus` in a saved frame (x_n sits at
/// (n-1)*8).
pub const SEPC_OFF: usize = 248;
pub const SSTATUS_OFF: usize = 256;
/// Bytes a saved frame occupies.
pub const FRAME_BYTES: usize = 264;

/// The registers the trap vector saves.
#[derive(Clone, Copy)]
pub struct TrapFrame {
    /// x1..x31: `regs[i]` holds x(i+1); x0 is hardwired zero.
    pub regs: [u64; 31],
    pub sepc: u64,
    pub sstatus: u64,
}

/// `sepc + 4`, wrapping as the hardware adder does.
pub open spec fn past_ecall(pc: u64) -> u64 {
    if pc + 4 > u64::MAX { (pc + 4 - 0x1_0000_0000_0000_0000) as u64 } else { (pc + 4) as u64 }
}

impl TrapFrame {
    /// Register x`n` (x0 reads 0).
    pub open spec fn xs(&self, n: int) -> u64 {
        if n == 0 { 0 } else { self.regs@[n - 1] }
    }

    pub fn x(&self, n: usize) -> (r: u64)
        requires
            n <= 31,
        ensures
            r == self.xs(n as int),
    {
        if n == 0 { 0 } else { self.regs[n - 1] }
    }

    pub fn a0(&self) -> (r: u64)
        ensures
            r == self.regs@[X_A0 as int],
    {
        self.regs[X_A0]
    }

    pub fn a1(&self) -> (r: u64)
        ensures
            r == self.regs@[X_A1 as int],
    {
        self.regs[X_A1]
    }

    pub fn a2(&self) -> (r: u64)
        ensures
            r == self.regs@[X_A2 as int],
    {
        self.regs[X_A2]
    }

    pub fn a7(&self) -> (r: u64)
        ensures
            r == self.regs@[X_A7 as int],
    {
        self.regs[X_A7]
    }

    pub fn set_a0(&mut self, v: u64)
        ensures
            final(self).regs@ == old(self).regs@.update(X_A0 as int, v),
            final(self).sepc == old(self).sepc,
            final(self).sstatus == old(self).sstatus,
    {
        self.regs[X_A0] = v;
    }

    pub fn set_sp(&mut self, v: u64)
        ensures
            final(self).regs@ == old(self).regs@.update(X_SP as int, v),
            final(self).sepc == old(self).sepc,
            final(self).sstatus == old(self).sstatus,
    {
        self.regs[X_SP] = v;
    }

    /// True if the trap came from U-mode (a payload), false if from S-mode
    /// (the kernel itself).
    pub fn is_from_user(&self) -> (r: bool)
        ensures
            r == (self.sstatus & SSTATUS_SPP == 0),
    {
        self.sstatus & SSTATUS_SPP == 0
    }

    /// Step past the 4-byte `ecall` so the payload resumes after it.
    pub fn advance_past_ecall(&mut self)
        ensures
            final(self).sepc == past_ecall(old(self).sepc),
            final(self).regs == old(self).regs,
            final(self).sstatus == old(self).sstatus,
    {
        self.sepc = self.sepc.wrapping_add(4);
    }
}

/// Size of the trap ring.
pub const RING_SIZE: usize = 8;
/// Size of the ring of notable (non-timer) traps.
pub const NOTABLE_SIZE: usize = 4;

/// One recorded trap.
#[derive(Clone, Copy)]
pub struct RingSlot {
    pub id: u64,
    pub scause: u64,
    pub sepc: u64,
    pub stval: u64,
}

impl RingSlot {
    pub fn new() -> (s: RingSlot)
        ensures
            s == (RingSlot { id: 0, scause: 0, sepc: 0, stval: 0 }),
    {
        RingSlot { id: 0, scause: 0, sepc: 0, stval: 0 }
    }
}

/// The trap bookkeeping of the kernel.
pub struct Traps {
    /// Slot `n % RING_SIZE` holds trap `n`.
    pub ring: Vec<RingSlot>,
    /// Traps ever recorded.
    pub ring_count: u64,
    /// Timer ticks serviced.
    pub ticks: u64,
    /// The timebase value the current tick was scheduled for.
    pub next_deadline: u64,
    pub ecall_traps: u64,
    pub fault_traps: u64,
    /// Slot `n % NOTABLE_SIZE` holds notable trap `n`; ticks never evict.
    pub notable: Vec<RingSlot>,
    pub notable_count: u64,
    /// Autonomous attention: tick frames are kept off the wire.
    pub autonomous: bool,
    /// Faults render as one classic console line instead of a frame.
    pub classic_surface: bool,
    /// Every trap recorded, oldest first.
    pub history: Ghost<Seq<RingSlot>>,
    /// Every notable trap recorded, oldest first.
    pub notable_history: Ghost<Seq<RingSlot>>,
}

/// The first index of the last `k` of `count` records.
pub open spec fn window_start(count: int, k: int) -> int {
    if count > k { count - k } else { 0 }
}

impl Traps {
    /// The rings hold the most recent records of the histories.
    pub open spec fn wf(&self) -> bool {
        &&& self.ring@.len() == RING_SIZE
        &&& self.notable@.len() == NOTABLE_SIZE
        &&& self.history@.len() == self.ring_count
        &&& self.notable_history@.len() == self.notable_count
        &&& self.notable_count <= self.ring_count
        &&& forall|n: int| window_start(self.ring_count as int, RING_SIZE as int) <= n < self.ring_count
            ==> #[trigger] self.history@[n] == self.ring@[n % (RING_SIZE as int)]
        &&& forall|n: int| window_start(self.notable_count as int, NOTABLE_SIZE as int) <= n < self.notable_count
            ==> #[trigger] self.notable_history@[n] == self.notable@[n % (NOTABLE_SIZE as int)]
    }

    /// The traps the ring still holds, oldest first.
    pub open spec fn recent(&self) -> Seq<RingSlot> {
        self.history@.subrange(window_start(self.ring_count as int, RING_SIZE as int), self.ring_count as int)
    }

    /// Nothing recorded, reactive, agentic surface.
    pub fn new() -> (t: Traps)
        ensures
            t.wf(),
            t.ring_count == 0,
            t.ticks == 0,
            t.next_deadline == 0,
            t.ecall_traps == 0,
            t.fault_traps == 0,
            t.notable_count == 0,
            !t.autonomous,
            !t.classic_surface,
            t.history@ == Seq::<RingSlot>::empty(),
            t.notable_history@ == Seq::<RingSlot>::empty(),
            notable_ordered(t),
    {
        let ring: Vec<RingSlot> = vec![RingSlot::new(); RING_SIZE];
        let notable: Vec<RingSlot> = vec![RingSlot::new(); NOTABLE_SIZE];
        Traps {
            ring,
            ring_count: 0,
            ticks: 0,
            next_deadline: 0,
            ecall_traps: 0,
            fault_traps: 0,
            notable,
            notable_count: 0,
            autonomous: false,
            classic_surface: false,
            history: Ghost(Seq::empty()),
            notable_history: Ghost(Seq::empty()),
        }
    }
}

/// Select the classic (true) or agentic (false) diagnostic surface.
pub fn set_classic_surface(t: &mut Traps, on: bool)
    ensures
        *final(t) == (Traps { classic_surface: on, ..*old(t) }),
{
    t.classic_surface = on;
}

/// True if faults currently render on the classic surface.
pub fn classic_surface(t: &Traps) -> (r: bool)
    ensures
        r == t.classic_surface,
{
    t.classic_surface
}

/// Select autonomous (true) or reactive (false) event handling.
pub fn set_autonomous(t: &mut Traps, on: bool)
    ensures
        *final(t) == (Traps { autonomous: on, ..*old(t) }),
{
    t.autonomous = on;
}

/// True if the kernel is currently self-managing operator attention.
pub fn autonomous(t: &Traps) -> (r: bool)
    ensures
        r == t.autonomous,
{
    t.autonomous
}

/// The severity of a trap by cause: faults are errors, syscalls info, ticks
/// trace, other interrupts warnings.
pub open spec fn severity_text(scause: u64) -> Seq<u8> {
    if scause == CAUSE_S_TIMER { bytes_of("trace") }
    else if scause == CAUSE_U_ECALL { bytes_of("info") }
    else if scause & INTERRUPT_BIT != 0 { bytes_of("warn") }
    else { bytes_of("error") }
}

pub fn severity_of(scause: u64) -> (r: &'static str)
    ensures
        bytes_of(r) == severity_text(scause),
{
    if scause == CAUSE_S_TIMER {
        "trace"
    } else if scause == CAUSE_U_ECALL {
        "info"
    } else if scause & INTERRUPT_BIT != 0 {
        "warn"
    } else {
        "error"
    }
}

/// The name of a trap cause.
pub open spec fn cause_text(scause: u64) -> Seq<u8> {
    if scause == 0 { bytes_of("instruction_address_misaligned") }
    else if scause == 1 { bytes_of("instruction_access_fault") }
    else if scause == 2 { bytes_of("illegal_instruction") }
    else if scause == 3 { bytes_of("breakpoint") }
    else if scause == 4 { bytes_of("load_address_misaligned") }
    else if scause == 5 { bytes_of("load_access_fault") }
    else if scause == 6 { bytes_of("store_address_misaligned") }
    else if scause == 7 { bytes_of("store_access_fault") }
    else if 8 <= scause <= 11 { bytes_of("ecall") }
    else if scause == 12 { bytes_of("instruction_page_fault") }
    else if scause == 13 { bytes_of("load_page_fault") }
    else if scause == 15 { bytes_of("store_page_fault") }
    else if scause == CAUSE_S_TIMER { bytes_of("timer") }
    else if scause & INTERRUPT_BIT != 0 { bytes_of("unexpected_interrupt") }
    else { bytes_of("unknown") }
}

/// The exception causes are named apart: two exception codes share a name
/// only when both are environment calls (codes 8 to 11).
pub proof fn lemma_cause_names_distinct(a: u64, b: u64)
    requires
        a < 16,
        b < 16,
    ensures
        cause_text(a) == cause_text(b) ==> a == b || (8 <= a <= 11 && 8 <= b <= 11),
        cause_text(12) == bytes_of("instruction_page_fault") && cause_text(13) == bytes_of("load_page_fault")
            && cause_text(15) == bytes_of("store_page_fault") && cause_text(2) == bytes_of("illegal_instruction")
            && cause_text(4) == bytes_of("load_address_misaligned") && cause_text(5) == bytes_of("load_access_fault")
            && cause_text(6) == bytes_of("store_address_misaligned") && cause_text(7) == bytes_of("store_access_fault"),
{
    broadcast use vstd::string::is_ascii_spec_bytes;
    reveal_strlit("instruction_address_misaligned");
    reveal_strlit("instruction_access_fault");
    reveal_strlit("illegal_instruction");
    reveal_strlit("breakpoint");
    reveal_strlit("load_address_misaligned");
    reveal_strlit("load_access_fault");
    reveal_strlit("store_address_misaligned");
    reveal_strlit("store_access_fault");
    reveal_strlit("ecall");
    reveal_strlit("instruction_page_fault");
    reveal_strlit("load_page_fault");
    reveal_strlit("store_page_fault");
    reveal_strlit("unknown");
    assert(vstd::string::is_ascii("instruction_address_misaligned"));
    assert(vstd::string::is_ascii("instruction_access_fault"));
    assert(vstd::string::is_ascii("illegal_instruction"));
    assert(vstd::string::is_ascii("breakpoint"));
    assert(vstd::string::is_ascii("load_address_misaligned"));
    assert(vstd::string::is_ascii("load_access_fault"));
    assert(vstd::string::is_ascii("store_address_misaligned"));
    assert(vstd::string::is_ascii("store_access_fault"));
    assert(vstd::string::is_ascii("ecall"));
    assert(vstd::string::is_ascii("instruction_page_fault"));
    assert(vstd::string::is_ascii("load_page_fault"));
    assert(vstd::string::is_ascii("store_page_fault"));
    assert(vstd::string::is_ascii("unknown"));
    assert(a & 0x8000_0000_0000_0000u64 == 0 && b & 0x8000_0000_0000_0000u64 == 0) by (bit_vector)
        requires a < 16, b < 16;
    assert(cause_text(a).len() > 0 && cause_text(b).len() > 0);
    if cause_text(a) == cause_text(b) {
        assert(cause_text(a).len() == cause_text(b).len());
        assert(cause_text(a)[0] == cause_text(b)[0]);
    }
}

/// A cause's name says what the trap touched and how: loads (codes 4, 5,
/// 13) are named `load_...`, stores and AMOs (6, 7, 15) `store_...`,
/// instruction fetches (0, 1, 12) `instruction_...`, and the three page
/// faults (12, 13, 15) end in `page_fault`.
pub proof fn lemma_cause_name_classes(c: u64)
    ensures
        (c == 4 || c == 5 || c == 13) ==> cause_text(c).subrange(0, 5) == bytes_of("load_"),
        (c == 6 || c == 7 || c == 15) ==> cause_text(c).subrange(0, 6) == bytes_of("store_"),
        (c == 0 || c == 1 || c == 12) ==> cause_text(c).subrange(0, 12) == bytes_of("instruction_"),
        (c == 12 || c == 13 || c == 15) ==> cause_text(c).len() >= 10
            && cause_text(c).subrange(cause_text(c).len() - 10, cause_text(c).len() as int) == bytes_of("page_fault"),
{
    broadcast use vstd::string::is_ascii_spec_bytes;
    reveal_strlit("instruction_address_misaligned");
    reveal_strlit("instruction_access_fault");
    reveal_strlit("illegal_instruction");
    reveal_strlit("breakpoint");
    reveal_strlit("load_address_misaligned");
    reveal_strlit("load_access_fault");
    reveal_strlit("store_address_misaligned");
    reveal_strlit("store_access_fault");
    reveal_strlit("ecall");
    reveal_strlit("instruction_page_fault");
    reveal_strlit("load_page_fault");
    reveal_strlit("store_page_fault");
    reveal_strlit("unknown");
    assert(vstd::string::is_ascii("instruction_address_misaligned"));
    assert(vstd::string::is_ascii("instruction_access_fault"));
    assert(vstd::string::is_ascii("illegal_instruction"));
    assert(vstd::string::is_ascii("breakpoint"));
    assert(vstd::string::is_ascii("load_address_misaligned"));
    assert(vstd::string::is_ascii("load_access_fault"));
    assert(vstd::string::is_ascii("store_address_misaligned"));
    assert(vstd::string::is_ascii("store_access_fault"));
    assert(vstd::string::is_ascii("ecall"));
    assert(vstd::string::is_ascii("instruction_page_fault"));
    assert(vstd::string::is_ascii("load_page_fault"));
    assert(vstd::string::is_ascii("store_page_fault"));
    assert(vstd::string::is_ascii("unknown"));
    reveal_strlit("load_");
    reveal_strlit("store_");
    reveal_strlit("instruction_");
    reveal_strlit("page_fault");
    assert(vstd::string::is_ascii("load_"));
    assert(vstd::string::is_ascii("store_"));
    assert(vstd::string::is_ascii("instruction_"));
    assert(vstd::string::is_ascii("page_fault"));
    if c == 4 || c == 5 || c == 13 {
        assert(cause_text(c).subrange(0, 5) =~= bytes_of("load_"));
    }
    if c == 6 || c == 7 || c == 15 {
        assert(cause_text(c).subrange(0, 6) =~= bytes_of("store_"));
    }
    if c == 0 || c == 1 || c == 12 {
        assert(cause_text(c).subrange(0, 12) =~= bytes_of("instruction_"));
    }
    if c == 12 || c == 13 || c == 15 {
        assert(cause_text(c).subrange(cause_text(c).len() - 10, cause_text(c).len() as int) =~= bytes_of("page_fault"));
    }
}

pub fn cause_name(scause: u64) -> (r: &'static str)
    ensures
        bytes_of(r) == cause_text(scause),
{
    match scause {
        0 => "instruction_address_misaligned",
        1 => "instruction_access_fault",
        2 => "illegal_instruction",
        3 => "breakpoint",
        4 => "load_address_misaligned",
        5 => "load_access_fault",
        6 => "store_address_misaligned",
        7 => "store_access_fault",
        8..=11 => "ecall",
        12 => "instruction_page_fault",
        13 => "load_page_fault",
        15 => "store_page_fault",
        CAUSE_S_TIMER => "timer",
        s => if s & INTERRUPT_BIT != 0 { "unexpected_interrupt" } else { "unknown" },
    }
}

/// The deadline of the first tick, armed at boot from the time `now`.
pub fn arm_first_tick(t: &mut Traps, now: u64) -> (deadline: u64)
    requires
        now + TICK_INTERVAL <= u64::MAX,
    ensures
        deadline == now + TICK_INTERVAL,
        *final(t) == (Traps { next_deadline: deadline, ..*old(t) }),
{
    let deadline = now + TICK_INTERVAL;
    t.next_deadline = deadline;
    deadline
}

/// `n + 1`, wrapping at 2^64 as a counter does.
pub open spec fn bump(n: u64) -> u64 {
    if n == u64::MAX { 0 } else { (n + 1) as u64 }
}

/// The bookkeeping after recording trap `rec`: appended to the history
/// (and the ring); a non-timer trap is also tallied (ecall or fault) and
/// appended to the notable history. Ticks are counted by the timer path.
pub open spec fn recorded(before: Traps, after: Traps, rec: RingSlot) -> bool {
    &&& after.history@ == before.history@.push(rec)
    &&& after.ring_count == before.ring_count + 1
    &&& after.ticks == before.ticks
    &&& after.next_deadline == before.next_deadline
    &&& after.autonomous == before.autonomous
    &&& after.classic_surface == before.classic_surface
    &&& if rec.scause == CAUSE_S_TIMER {
        &&& after.notable_history@ == before.notable_history@
        &&& after.notable_count == before.notable_count
        &&& after.ecall_traps == before.ecall_traps
        &&& after.fault_traps == before.fault_traps
    } else {
        &&& after.notable_history@ == before.notable_history@.push(rec)
        &&& after.notable_count == before.notable_count + 1
        &&& after.ecall_traps == (if rec.scause == CAUSE_U_ECALL { bump(before.ecall_traps) } else { before.ecall_traps })
        &&& after.fault_traps == (if rec.scause == CAUSE_U_ECALL { before.fault_traps } else { bump(before.fault_traps) })
    }
}

/// Record one trap.
pub fn ring_record(t: &mut Traps, id: u64, scause: u64, sepc: u64, stval: u64)
    requires
        old(t).wf(),
        old(t).ring_count < u64::MAX,
        old(t).notable_count < u64::MAX,
    ensures
        final(t).wf(),
        recorded(*old(t), *final(t), RingSlot { id, scause, sepc, stval }),
        final(t).classic_surface == old(t).classic_surface,
{
    let rec = RingSlot { id, scause, sepc, stval };
    let n = t.ring_count;
    let idx = (n % (RING_SIZE as u64)) as usize;
    t.ring.set(idx, rec);
    t.ring_count = n + 1;
    proof {
        t.history@ = t.history@.push(rec);
    }
    if scause != CAUSE_S_TIMER {
        if scause == CAUSE_U_ECALL {
            t.ecall_traps = t.ecall_traps.wrapping_add(1);
        } else {
            t.fault_traps = t.fault_traps.wrapping_add(1);
        }
        let m = t.notable_count;
        let nidx = (m % (NOTABLE_SIZE as u64)) as usize;
        t.notable.set(nidx, rec);
        t.notable_count = m + 1;
        proof {
            t.notable_history@ = t.notable_history@.push(rec);
        }
    }
    proof {
        let o = old(t);
        assert forall|k: int| window_start(t.ring_count as int, RING_SIZE as int) <= k < t.ring_count
            implies #[trigger] t.history@[k] == t.ring@[k % (RING_SIZE as int)] by {
            if k < n {
                assert(k % 8 != n % 8);
                assert(o.history@[k] == o.ring@[k % 8]);
            }
        }
        assert forall|k: int| window_start(t.notable_count as int, NOTABLE_SIZE as int) <= k < t.notable_count
            implies #[trigger] t.notable_history@[k] == t.notable@[k % (NOTABLE_SIZE as int)] by {
            if k < o.notable_count {
                if scause != CAUSE_S_TIMER {
                    assert(k % 4 != o.notable_count % 4);
                }
                assert(o.notable_history@[k] == o.notable@[k % 4]);
            }
        }
    }
}

/// The value a saved frame holds at register slot `i` (x(i+1)), with a0
/// overridden.
pub open spec fn saved_reg(frame: TrapFrame, a0: u64, i: int) -> u64 {
    if i == X_A0 as int { a0 } else { frame.regs@[i] }
}

/// Memory `m` holds `frame` saved at `pa` in the trap vector's layout.
pub open spec fn frame_saved(m: Seq<u8>, pa: int, frame: TrapFrame, a0: u64) -> bool {
    &&& forall|i: int| 0 <= i < 31 ==> #[trigger] rd(m, pa + 8 * i) == saved_reg(frame, a0, i)
    &&& rd(m, pa + SEPC_OFF) == frame.sepc
    &&& rd(m, pa + SSTATUS_OFF) == frame.sstatus
}

/// Serialize `frame` into the pool frame at `pa` in the trap vector's
/// layout, with a0 overridden: a restored continuation sees `a0`.
pub fn save_frame_to(frame: &TrapFrame, mem: &mut PhysMem, pa: usize, a0: u64)
    requires
        old(mem).wf(),
    ensures
        final(mem).wf(),
        agree_except(old(mem)@, final(mem)@, pa as int, FRAME_BYTES as int),
        pa % 8 == 0 && in_pool(pa as int, FRAME_BYTES as int) ==> frame_saved(final(mem)@, pa as int, *frame, a0),
{
    let ghost m0 = mem@;
    let ok = pa % 8 == 0 && pa >= POOL_BASE && pa <= POOL_BASE + POOL_SIZE - FRAME_BYTES;
    let mut i: usize = 0;
    while i < 31
        invariant
            mem.wf(),
            m0.len() == POOL_SIZE,
            i <= 31,
            ok == (pa % 8 == 0 && in_pool(pa as int, FRAME_BYTES as int)),
            agree_except(m0, mem@, pa as int, FRAME_BYTES as int),
            ok ==> forall|j: int| 0 <= j < i ==> #[trigger] rd(mem@, pa + 8 * j) == frame.regs@[j],
        decreases 31 - i,
    {
        let ghost before = mem@;
        if ok {
            phys_write_u64(mem, pa + i * 8, frame.regs[i]);
            proof {
                lemma_write_effect(before, mem@, pa + i * 8, frame.regs@[i as int]);
                assert forall|j: int| 0 <= j < i implies #[trigger] rd(mem@, pa + 8 * j) == frame.regs@[j] by {
                    lemma_rd_unchanged(before, mem@, pa + i * 8, 8, pa + 8 * j);
                }
            }
        }
        i += 1;
    }
    if ok {
        let ghost m1 = mem@;
        phys_write_u64(mem, pa + X_A0 * 8, a0);
        let ghost m2 = mem@;
        phys_write_u64(mem, pa + SEPC_OFF, frame.sepc);
        let ghost m3 = mem@;
        phys_write_u64(mem, pa + SSTATUS_OFF, frame.sstatus);
        proof {
            lemma_write_effect(m1, m2, pa + 72, a0);
            lemma_write_effect(m2, m3, pa + 248, frame.sepc);
            lemma_write_effect(m3, mem@, pa + 256, frame.sstatus);
            assert forall|j: int| 0 <= j < 31 implies #[trigger] rd(mem@, pa + 8 * j) == saved_reg(*frame, a0, j) by {
                if j != 9 {
                    lemma_rd_unchanged(m1, m2, pa + 72, 8, pa + 8 * j);
                }
                lemma_rd_unchanged(m2, m3, pa + 248, 8, pa + 8 * j);
                lemma_rd_unchanged(m3, mem@, pa + 256, 8, pa + 8 * j);
            }
            lemma_rd_unchanged(m3, mem@, pa + 256, 8, pa + 248);
        }
    }
}

/// Initialize the zeroed pool frame at `pa` as a fresh-start trap frame:
/// sepc = `entry`, sstatus = SPIE (interrupts on after `sret`, SPP = 0 =
/// U-mode). The GPRs stay as they are (zero in a fresh frame).
pub fn init_frame_to(mem: &mut PhysMem, pa: usize, entry: usize)
    requires
        old(mem).wf(),
    ensures
        final(mem).wf(),
        agree_except(old(mem)@, final(mem)@, pa + SEPC_OFF, 16),
        pa % 8 == 0 && in_pool(pa as int, FRAME_BYTES as int) ==> rd(final(mem)@, pa + SEPC_OFF) == entry as u64
            && rd(final(mem)@, pa + SSTATUS_OFF) == SSTATUS_SPIE,
{
    if pa % 8 == 0 && pa >= POOL_BASE && pa <= POOL_BASE + POOL_SIZE - FRAME_BYTES {
        let ghost m0 = mem@;
        phys_write_u64(mem, pa + SEPC_OFF, entry as u64);
        let ghost m1 = mem@;
        phys_write_u64(mem, pa + SSTATUS_OFF, SSTATUS_SPIE);
        proof {
            lemma_write_effect(m0, m1, pa + 248, entry as u64);
            lemma_write_effect(m1, mem@, pa + 256, SSTATUS_SPIE);
            lemma_rd_unchanged(m1, mem@, pa + 256, 8, pa + 248);
        }
    }
}


// ---- The ring as JSON ---------------------------------------------------------

/// One ring entry: `{"id":..,"cause":"..","sepc":"0x.."}`.
pub open spec fn entry_json(r: RingSlot) -> Seq<u8> {
    bytes_of("{\"id\":") + dec(r.id as nat) + bytes_of(",\"cause\":\"") + cause_text(r.scause)
        + bytes_of("\",\"sepc\":\"0x") + hex(r.sepc as nat) + bytes_of("\"}")
}

/// The ring contents, oldest first, as a JSON array.
pub open spec fn ring_json(t: Traps) -> Seq<u8> {
    bytes_of("[") + join(t.recent().map_values(|r: RingSlot| entry_json(r))) + bytes_of("]")
}

#[verifier::spinoff_prover]
#[verifier::rlimit(30)]
fn push_entry(v: &mut Vec<u8>, r: RingSlot)
    ensures
        final(v)@ == old(v)@ + entry_json(r),
{
    push_str(v, "{\"id\":");
    push_dec(v, r.id);
    push_str(v, ",\"cause\":\"");
    push_str(v, cause_name(r.scause));
    push_str(v, "\",\"sepc\":\"0x");
    push_hex(v, r.sepc);
    push_str(v, "\"}");
    assert(v@ =~= old(v)@ + entry_json(r));
}

fn push_ring(v: &mut Vec<u8>, t: &Traps)
    requires
        t.wf(),
    ensures
        final(v)@ == old(v)@ + ring_json(*t),
{
    let count = t.ring_count;
    let first: u64 = if count > RING_SIZE as u64 { count - RING_SIZE as u64 } else { 0 };
    let ghost items = t.recent().map_values(|r: RingSlot| entry_json(r));
    push_str(v, "[");
    let ghost v0 = v@;
    let mut n: u64 = first;
    while n < count
        invariant
            t.wf(),
            count == t.ring_count,
            first == window_start(count as int, RING_SIZE as int),
            first <= n <= count,
            items == t.recent().map_values(|r: RingSlot| entry_json(r)),
            items.len() == count - first,
            v@ == v0 + join(items.take(n - first)),
        decreases count - n,
    {
        let slot = t.ring[(n % (RING_SIZE as u64)) as usize];
        proof {
            assert(t.history@[n as int] == slot);
            assert(items[n - first] == entry_json(slot));
            lemma_join_push(items, n - first);
        }
        if n > first {
            v.push(44u8);
        }
        push_entry(v, slot);
        proof {
            assert(v@ =~= v0 + join(items.take(n + 1 - first)));
        }
        n += 1;
    }
    push_str(v, "]");
    assert(items.take(count - first) =~= items);
    assert(v@ =~= old(v)@ + ring_json(*t));
}

/// Append the ring contents (oldest first) as a JSON array.
pub fn write_ring(t: &Traps, f: &mut FrameBuf) -> (r: Result<(), FmtError>)
    requires
        t.wf(),
        old(f).wf(),
    ensures
        final(f).wf(),
        wrote(*old(f), *final(f), ring_json(*t)),
        r.is_ok() == fits(*old(f), ring_json(*t)),
{
    let mut v: Vec<u8> = Vec::new();
    push_ring(&mut v, t);
    f.write_bytes(v.as_slice())
}

/// The `trap_ring` event.
pub open spec fn ring_dump_json(id: u64, t: Traps) -> Seq<u8> {
    bytes_of("{\"id\":") + dec(id as nat) + bytes_of(",\"type\":\"trap_ring\",\"count\":") + dec(t.ring_count as nat)
        + bytes_of(",\"entries\":") + ring_json(t) + bytes_of("}")
}

/// Emit the ring as a `trap_ring` event.
pub fn emit_ring_dump(t: &Traps, ev: &mut Events, wire: &mut Vec<u8>)
    requires
        t.wf(),
    ensures
        final(ev).next == advanced(old(ev).next),
        final(wire)@ == old(wire)@ + framed(ring_dump_json(old(ev).next, *t)),
{
    let id = next_id(ev);
    let mut v: Vec<u8> = Vec::new();
    push_str(&mut v, "{\"id\":");
    push_dec(&mut v, id);
    push_str(&mut v, ",\"type\":\"trap_ring\",\"count\":");
    push_dec(&mut v, t.ring_count);
    push_str(&mut v, ",\"entries\":");
    push_ring(&mut v, t);
    push_str(&mut v, "}");
    assert(v@ =~= ring_dump_json(id, *t));
    emit_json(wire, v.as_slice());
}

/// The ring as a resource body: `{"count":N,"entries":[..]}`.
pub open spec fn ring_resource_json(t: Traps) -> Seq<u8> {
    bytes_of("{\"count\":") + dec(t.ring_count as nat) + bytes_of(",\"entries\":") + ring_json(t) + bytes_of("}")
}

/// The ring as a resource body, embedded in a reply.
pub fn write_ring_resource(t: &Traps, f: &mut FrameBuf) -> (r: Result<(), FmtError>)
    requires
        t.wf(),
        old(f).wf(),
    ensures
        final(f).wf(),
        wrote(*old(f), *final(f), ring_resource_json(*t)),
        r.is_ok() == fits(*old(f), ring_resource_json(*t)),
{
    let mut v: Vec<u8> = Vec::new();
    push_str(&mut v, "{\"count\":");
    push_dec(&mut v, t.ring_count);
    push_str(&mut v, ",\"entries\":");
    push_ring(&mut v, t);
    push_str(&mut v, "}");
    assert(v@ =~= ring_resource_json(*t));
    f.write_bytes(v.as_slice())
}


// ---- The budgeted digest --------------------------------------------------------

/// How many notable traps a digest with `budget` shows: at most the budget,
/// and at most what the notable ring holds.
pub open spec fn shown(t: Traps, budget: usize) -> int {
    let c = t.notable_count as int;
    let a = if c < budget { c } else { budget as int };
    if a < NOTABLE_SIZE { a } else { NOTABLE_SIZE as int }
}

/// The notable traps a digest shows, newest first.
pub open spec fn digest_picks(t: Traps, budget: usize) -> Seq<RingSlot> {
    Seq::new(shown(t, budget) as nat, |k: int| t.notable_history@[t.notable_count - 1 - k])
}

/// One digest item.
pub open spec fn digest_item_json(r: RingSlot) -> Seq<u8> {
    bytes_of("{\"id\":") + dec(r.id as nat) + bytes_of(",\"severity\":\"") + severity_text(r.scause)
        + bytes_of("\",\"cause\":\"") + cause_text(r.scause) + bytes_of("\",\"sepc\":\"0x") + hex(r.sepc as nat)
        + bytes_of("\"}")
}

/// Traps the digest summarized away: all traps minus the few shown.
pub open spec fn elided(t: Traps, budget: usize) -> int {
    if t.ring_count >= shown(t, budget) { t.ring_count - shown(t, budget) } else { 0 }
}

/// The digest resource body: per-severity totals (every tick collapsed into
/// a count), the shown notable traps newest first, and what was elided.
pub open spec fn digest_json(t: Traps, budget: usize) -> Seq<u8> {
    bytes_of("{\"budget\":") + dec(budget as nat) + bytes_of(",\"autonomy\":\"")
        + (if t.autonomous { bytes_of("autonomous") } else { bytes_of("reactive") })
        + bytes_of("\",\"totals\":{\"traps\":") + dec(t.ring_count as nat)
        + bytes_of(",\"timer\":") + dec(t.ticks as nat) + bytes_of(",\"ecall\":") + dec(t.ecall_traps as nat)
        + bytes_of(",\"fault\":") + dec(t.fault_traps as nat)
        + bytes_of("},\"by_severity\":{\"error\":") + dec(t.fault_traps as nat)
        + bytes_of(",\"info\":") + dec(t.ecall_traps as nat) + bytes_of(",\"trace\":") + dec(t.ticks as nat)
        + bytes_of("},\"items\":[") + join(digest_picks(t, budget).map_values(|r: RingSlot| digest_item_json(r)))
        + bytes_of("],\"elided\":") + dec(elided(t, budget) as nat) + bytes_of("}")
}

#[verifier::spinoff_prover]
#[verifier::rlimit(30)]
fn push_digest_item(v: &mut Vec<u8>, r: RingSlot)
    ensures
        final(v)@ == old(v)@ + digest_item_json(r),
{
    push_str(v, "{\"id\":");
    push_dec(v, r.id);
    push_str(v, ",\"severity\":\"");
    push_str(v, severity_of(r.scause));
    push_str(v, "\",\"cause\":\"");
    push_str(v, cause_name(r.scause));
    push_str(v, "\",\"sepc\":\"0x");
    push_hex(v, r.sepc);
    push_str(v, "\"}");
    assert(v@ =~= old(v)@ + digest_item_json(r));
}

/// A budgeted, coalesced digest of kernel activity: totals by severity plus
/// up to `budget` of the most recent notable traps, newest first.
#[verifier::spinoff_prover]
#[verifier::rlimit(30)]
pub fn write_digest(t: &Traps, f: &mut FrameBuf, budget: usize) -> (r: Result<(), FmtError>)
    requires
        t.wf(),
        old(f).wf(),
    ensures
        final(f).wf(),
        wrote(*old(f), *final(f), digest_json(*t, budget)),
        r.is_ok() == fits(*old(f), digest_json(*t, budget)),
{
    let mut v: Vec<u8> = Vec::new();
    push_str(&mut v, "{\"budget\":");
    push_dec(&mut v, budget as u64);
    push_str(&mut v, ",\"autonomy\":\"");
    if t.autonomous {
        push_str(&mut v, "autonomous");
    } else {
        push_str(&mut v, "reactive");
    }
    push_str(&mut v, "\",\"totals\":{\"traps\":");
    push_dec(&mut v, t.ring_count);
    push_str(&mut v, ",\"timer\":");
    push_dec(&mut v, t.ticks);
    push_str(&mut v, ",\"ecall\":");
    push_dec(&mut v, t.ecall_traps);
    push_str(&mut v, ",\"fault\":");
    push_dec(&mut v, t.fault_traps);
    push_str(&mut v, "},\"by_severity\":{\"error\":");
    push_dec(&mut v, t.fault_traps);
    push_str(&mut v, ",\"info\":");
    push_dec(&mut v, t.ecall_traps);
    push_str(&mut v, ",\"trace\":");
    push_dec(&mut v, t.ticks);
    push_str(&mut v, "},\"items\":[");
    let recorded = t.notable_count;
    let mut show: u64 = recorded;
    if (budget as u64) < show {
        show = budget as u64;
    }
    if (NOTABLE_SIZE as u64) < show {
        show = NOTABLE_SIZE as u64;
    }
    let ghost items = digest_picks(*t, budget).map_values(|r: RingSlot| digest_item_json(r));
    let ghost v0 = v@;
    let mut k: u64 = 0;
    while k < show
        invariant
            t.wf(),
            recorded == t.notable_count,
            show == shown(*t, budget),
            show <= recorded,
            show <= NOTABLE_SIZE,
            k <= show,
            items == digest_picks(*t, budget).map_values(|r: RingSlot| digest_item_json(r)),
            items.len() == show,
            v@ == v0 + join(items.take(k as int)),
        decreases show - k,
    {
        let idx = ((recorded - 1 - k) % (NOTABLE_SIZE as u64)) as usize;
        let slot = t.notable[idx];
        proof {
            let n = recorded - 1 - k;
            assert(window_start(recorded as int, NOTABLE_SIZE as int) <= n);
            assert(t.notable_history@[n as int] == slot);
            assert(items[k as int] == digest_item_json(slot));
            lemma_join_push(items, k as int);
        }
        if k > 0 {
            v.push(44u8);
        }
        push_digest_item(&mut v, slot);
        proof {
            assert(v@ =~= v0 + join(items.take(k + 1)));
        }
        k += 1;
    }
    assert(items.take(show as int) =~= items);
    let el = t.ring_count.saturating_sub(show);
    push_str(&mut v, "],\"elided\":");
    push_dec(&mut v, el);
    push_str(&mut v, "}");
    assert(v@ =~= digest_json(*t, budget));
    f.write_bytes(v.as_slice())
}

/// Ticks never evict notable traps: recording a timer tick leaves what a
/// digest of any budget shows unchanged (only the totals move).
pub proof fn lemma_ticks_keep_digest_items(t0: Traps, t1: Traps, rec: RingSlot, budget: usize)
    requires
        t0.wf(),
        recorded(t0, t1, rec),
        rec.scause == CAUSE_S_TIMER,
    ensures
        digest_picks(t1, budget) == digest_picks(t0, budget),
{
    assert(digest_picks(t1, budget) =~= digest_picks(t0, budget));
}

/// A digest shows at most `budget` and at most `NOTABLE_SIZE` traps, the
/// newest first, and counts every other trap as elided.
pub proof fn lemma_digest_bounded(t: Traps, budget: usize)
    requires
        t.wf(),
    ensures
        digest_picks(t, budget).len() <= budget,
        digest_picks(t, budget).len() <= NOTABLE_SIZE,
        forall|k: int| 0 <= k < digest_picks(t, budget).len() ==>
            #[trigger] digest_picks(t, budget)[k] == t.notable_history@[t.notable_count - 1 - k],
        digest_picks(t, budget).len() + elided(t, budget) == t.ring_count,
{
}

/// The notable history holds no timer tick, and its ids rise strictly.
pub open spec fn notable_ordered(t: Traps) -> bool {
    &&& forall|k: int| 0 <= k < t.notable_history@.len() ==> (#[trigger] t.notable_history@[k]).scause != CAUSE_S_TIMER
    &&& forall|j: int, k: int| 0 <= j < k < t.notable_history@.len()
        ==> (#[trigger] t.notable_history@[j]).id < (#[trigger] t.notable_history@[k]).id
}

/// Every notable trap's id is below `next`, the next event id.
pub open spec fn ids_below(t: Traps, next: u64) -> bool {
    forall|k: int| 0 <= k < t.notable_history@.len() ==> (#[trigger] t.notable_history@[k]).id < next
}

/// Recording a trap whose id is newer than every notable one keeps the
/// notable history free of ticks and in rising id order; a fresh trap state
/// (empty history) has it too.
pub proof fn lemma_record_keeps_notable_ordered(t0: Traps, t1: Traps, rec: RingSlot)
    requires
        notable_ordered(t0),
        recorded(t0, t1, rec),
        forall|k: int| 0 <= k < t0.notable_history@.len() ==> (#[trigger] t0.notable_history@[k]).id < rec.id,
    ensures
        notable_ordered(t1),
{
    if rec.scause != CAUSE_S_TIMER {
        let n = t0.notable_history@.len() as int;
        assert(t1.notable_history@[n] == rec);
        assert forall|j: int, k: int| 0 <= j < k < t1.notable_history@.len()
            implies (#[trigger] t1.notable_history@[j]).id < (#[trigger] t1.notable_history@[k]).id by {
            assert(t1.notable_history@[j] == t0.notable_history@[j]);
            if k < n {
                assert(t1.notable_history@[k] == t0.notable_history@[k]);
            }
        }
    }
}

/// Digest items are never timer ticks and come newest first: each shown
/// item has a larger id than every item after it.
pub proof fn lemma_digest_items(t: Traps, budget: usize)
    requires
        t.wf(),
        notable_ordered(t),
    ensures
        forall|k: int| 0 <= k < digest_picks(t, budget).len() ==> (#[trigger] digest_picks(t, budget)[k]).scause != CAUSE_S_TIMER,
        forall|j: int, k: int| 0 <= j < k < digest_picks(t, budget).len()
            ==> (#[trigger] digest_picks(t, budget)[j]).id > (#[trigger] digest_picks(t, budget)[k]).id,
{
    let c = t.notable_count as int;
    assert forall|k: int| 0 <= k < digest_picks(t, budget).len() implies (#[trigger] digest_picks(t, budget)[k]).scause != CAUSE_S_TIMER by {
        assert(digest_picks(t, budget)[k] == t.notable_history@[c - 1 - k]);
    }
    assert forall|j: int, k: int| 0 <= j < k < digest_picks(t, budget).len()
        implies (#[trigger] digest_picks(t, budget)[j]).id > (#[trigger] digest_picks(t, budget)[k]).id by {
        assert(digest_picks(t, budget)[j] == t.notable_history@[c - 1 - j]);
        assert(digest_picks(t, budget)[k] == t.notable_history@[c - 1 - k]);
    }
}


// ---- The fault report -------------------------------------------------------------

/// The ABI name of x(i+1).
pub open spec fn reg_name_text(i: int) -> Seq<u8> {
    if i == 0 { bytes_of("ra") }
    else if i == 1 { bytes_of("sp") }
    else if i == 2 { bytes_of("gp") }
    else if i == 3 { bytes_of("tp") }
    else if i == 4 { bytes_of("t0") }
    else if i == 5 { bytes_of("t1") }
    else if i == 6 { bytes_of("t2") }
    else if i == 7 { bytes_of("s0") }
    else if i == 8 { bytes_of("s1") }
    else if i == 9 { bytes_of("a0") }
    else if i == 10 { bytes_of("a1") }
    else if i == 11 { bytes_of("a2") }
    else if i == 12 { bytes_of("a3") }
    else if i == 13 { bytes_of("a4") }
    else if i == 14 { bytes_of("a5") }
    else if i == 15 { bytes_of("a6") }
    else if i == 16 { bytes_of("a7") }
    else if i == 17 { bytes_of("s2") }
    else if i == 18 { bytes_of("s3") }
    else if i == 19 { bytes_of("s4") }
    else if i == 20 { bytes_of("s5") }
    else if i == 21 { bytes_of("s6") }
    else if i == 22 { bytes_of("s7") }
    else if i == 23 { bytes_of("s8") }
    else if i == 24 { bytes_of("s9") }
    else if i == 25 { bytes_of("s10") }
    else if i == 26 { bytes_of("s11") }
    else if i == 27 { bytes_of("t3") }
    else if i == 28 { bytes_of("t4") }
    else if i == 29 { bytes_of("t5") }
    else if i == 30 { bytes_of("t6") }
    else { bytes_of("t6") }
}

pub fn reg_name(i: usize) -> (r: &'static str)
    requires
        i < 31,
    ensures
        bytes_of(r) == reg_name_text(i as int),
{
    match i {
        0 => "ra",
        1 => "sp",
        2 => "gp",
        3 => "tp",
        4 => "t0",
        5 => "t1",
        6 => "t2",
        7 => "s0",
        8 => "s1",
        9 => "a0",
        10 => "a1",
        11 => "a2",
        12 => "a3",
        13 => "a4",
        14 => "a5",
        15 => "a6",
        16 => "a7",
        17 => "s2",
        18 => "s3",
        19 => "s4",
        20 => "s5",
        21 => "s6",
        22 => "s7",
        23 => "s8",
        24 => "s9",
        25 => "s10",
        26 => "s11",
        27 => "t3",
        28 => "t4",
        29 => "t5",
        _ => "t6",
    }
}

/// One register of the register file: `"name":"0x.."`.
pub open spec fn reg_json(frame: TrapFrame, i: int) -> Seq<u8> {
    bytes_of("\"") + reg_name_text(i) + bytes_of("\":\"0x") + hex(frame.xs(i + 1) as nat) + bytes_of("\"")
}

/// The 31 GPRs, ABI-named, as a JSON object.
pub open spec fn regs_json(frame: TrapFrame) -> Seq<u8> {
    bytes_of("{") + join(Seq::new(31, |i: int| reg_json(frame, i))) + bytes_of("}")
}

fn push_regs(v: &mut Vec<u8>, frame: &TrapFrame)
    ensures
        final(v)@ == old(v)@ + regs_json(*frame),
{
    let ghost items = Seq::new(31, |i: int| reg_json(*frame, i));
    push_str(v, "{");
    let ghost v0 = v@;
    let mut i: usize = 0;
    while i < 31
        invariant
            i <= 31,
            items == Seq::new(31, |i: int| reg_json(*frame, i)),
            v@ == v0 + join(items.take(i as int)),
        decreases 31 - i,
    {
        proof {
            lemma_join_push(items, i as int);
        }
        if i > 0 {
            v.push(44u8);
        }
        push_str(v, "\"");
        push_str(v, reg_name(i));
        push_str(v, "\":\"0x");
        push_hex(v, frame.x(i + 1));
        push_str(v, "\"");
        assert(v@ =~= v0 + join(items.take(i + 1)));
        i += 1;
    }
    push_str(v, "}");
    assert(items.take(31) =~= items);
    assert(v@ =~= old(v)@ + regs_json(*frame));
}

/// The register file as a JSON object.
pub fn write_regs(f: &mut FrameBuf, frame: &TrapFrame) -> (r: Result<(), FmtError>)
    requires
        old(f).wf(),
    ensures
        final(f).wf(),
        wrote(*old(f), *final(f), regs_json(*frame)),
        r.is_ok() == fits(*old(f), regs_json(*frame)),
{
    let mut v: Vec<u8> = Vec::new();
    push_regs(&mut v, frame);
    f.write_bytes(v.as_slice())
}

/// The decoded instruction of an illegal-instruction fault (its encoding is
/// in stval), or `null`.
pub open spec fn insn_json(scause: u64, stval: u64) -> Seq<u8> {
    if scause == CAUSE_ILLEGAL_INSTRUCTION && stval != 0 {
        bytes_of("{\"bits\":\"0x") + hex(stval as nat) + bytes_of("\",\"opcode\":\"0x") + hex((stval & 0x7f) as nat)
            + bytes_of("\",\"rd\":") + dec(((stval >> 7u64) & 0x1f) as nat)
            + bytes_of(",\"funct3\":") + dec(((stval >> 12u64) & 0x7) as nat)
            + bytes_of(",\"rs1\":") + dec(((stval >> 15u64) & 0x1f) as nat)
            + bytes_of(",\"rs2\":") + dec(((stval >> 20u64) & 0x1f) as nat)
            + bytes_of(",\"funct7\":\"0x") + hex(((stval >> 25u64) & 0x7f) as nat) + bytes_of("\"")
            + (if stval & 0x7f == 0x73 { bytes_of(",\"csr\":\"0x") + hex(((stval >> 20u64) & 0xfff) as nat) + bytes_of("\"") }
               else { Seq::empty() })
            + bytes_of("}")
    } else {
        bytes_of("null")
    }
}

#[verifier::spinoff_prover]
#[verifier::rlimit(30)]
fn push_insn(v: &mut Vec<u8>, scause: u64, stval: u64)
    ensures
        final(v)@ == old(v)@ + insn_json(scause, stval),
{
    if scause == CAUSE_ILLEGAL_INSTRUCTION && stval != 0 {
        push_str(v, "{\"bits\":\"0x");
        push_hex(v, stval);
        push_str(v, "\",\"opcode\":\"0x");
        push_hex(v, stval & 0x7f);
        push_str(v, "\",\"rd\":");
        push_dec(v, (stval >> 7u64) & 0x1f);
        push_str(v, ",\"funct3\":");
        push_dec(v, (stval >> 12u64) & 0x7);
        push_str(v, ",\"rs1\":");
        push_dec(v, (stval >> 15u64) & 0x1f);
        push_str(v, ",\"rs2\":");
        push_dec(v, (stval >> 20u64) & 0x1f);
        push_str(v, ",\"funct7\":\"0x");
        push_hex(v, (stval >> 25u64) & 0x7f);
        push_str(v, "\"");
        let ghost mid = v@;
        if stval & 0x7f == 0x73 {
            push_str(v, ",\"csr\":\"0x");
            push_hex(v, (stval >> 20u64) & 0xfff);
            push_str(v, "\"");
        }
        push_str(v, "}");
    } else {
        push_str(v, "null");
    }
    assert(v@ =~= old(v)@ + insn_json(scause, stval));
}

/// One level of a page-table walk, with its permission bits decoded.
pub open spec fn walk_entry_json(level: u8, pte: u64) -> Seq<u8> {
    bytes_of("{\"level\":") + dec(level as nat) + bytes_of(",\"pte\":\"0x") + hex(pte as nat)
        + bytes_of("\",\"v\":") + dec((pte & 1) as nat) + bytes_of(",\"r\":") + dec(((pte >> 1u64) & 1) as nat)
        + bytes_of(",\"w\":") + dec(((pte >> 2u64) & 1) as nat) + bytes_of(",\"x\":") + dec(((pte >> 3u64) & 1) as nat)
        + bytes_of(",\"u\":") + dec(((pte >> 4u64) & 1) as nat) + bytes_of("}")
}

/// A walk as a JSON array of per-level entries, or `null` without one.
pub open spec fn pagewalk_json(walk: Option<Seq<(u8, u64)>>) -> Seq<u8> {
    match walk {
        Some(w) => bytes_of("[") + join(w.map_values(|p: (u8, u64)| walk_entry_json(p.0, p.1))) + bytes_of("]"),
        None => bytes_of("null"),
    }
}

/// The pairs of a walk, if there is one.
pub open spec fn walk_pairs(walk: Option<WalkChain>) -> Option<Seq<(u8, u64)>> {
    match walk {
        Some(w) => Some(w.pairs()),
        None => None,
    }
}

#[verifier::spinoff_prover]
#[verifier::rlimit(30)]
fn push_walk_entry(v: &mut Vec<u8>, level: u8, pte: u64)
    ensures
        final(v)@ == old(v)@ + walk_entry_json(level, pte),
{
    push_str(v, "{\"level\":");
    push_dec(v, level as u64);
    push_str(v, ",\"pte\":\"0x");
    push_hex(v, pte);
    push_str(v, "\",\"v\":");
    push_dec(v, pte & 1);
    push_str(v, ",\"r\":");
    push_dec(v, (pte >> 1u64) & 1);
    push_str(v, ",\"w\":");
    push_dec(v, (pte >> 2u64) & 1);
    push_str(v, ",\"x\":");
    push_dec(v, (pte >> 3u64) & 1);
    push_str(v, ",\"u\":");
    push_dec(v, (pte >> 4u64) & 1);
    push_str(v, "}");
    assert(v@ =~= old(v)@ + walk_entry_json(level, pte));
}

fn push_pagewalk(v: &mut Vec<u8>, walk: &Option<WalkChain>)
    requires
        walk matches Some(w) ==> w.wf(),
    ensures
        final(v)@ == old(v)@ + pagewalk_json(walk_pairs(*walk)),
{
    match walk {
        None => {
            push_str(v, "null");
        },
        Some(w) => {
            let pairs = w.entries();
            let ghost items = w.pairs().map_values(|p: (u8, u64)| walk_entry_json(p.0, p.1));
            push_str(v, "[");
            let ghost v0 = v@;
            let mut i: usize = 0;
            while i < pairs.len()
                invariant
                    i <= pairs@.len(),
                    pairs@ == w.pairs(),
                    items == w.pairs().map_values(|p: (u8, u64)| walk_entry_json(p.0, p.1)),
                    v@ == v0 + join(items.take(i as int)),
                decreases pairs@.len() - i,
            {
                proof {
                    lemma_join_push(items, i as int);
                }
                if i > 0 {
                    v.push(44u8);
                }
                let (level, pte) = pairs[i];
                push_walk_entry(v, level, pte);
                assert(v@ =~= v0 + join(items.take(i + 1)));
                i += 1;
            }
            push_str(v, "]");
            assert(items.take(pairs@.len() as int) =~= items);
            assert(v@ =~= old(v)@ + pagewalk_json(walk_pairs(*walk)));
        },
    }
}

/// A page-table walk (the current payload's, for the faulting address) as
/// a JSON array of per-level PTEs with decoded permission flags, or `null`
/// when there is no walk.
pub fn write_pagewalk(f: &mut FrameBuf, walk: &Option<WalkChain>) -> (r: Result<(), FmtError>)
    requires
        old(f).wf(),
        walk matches Some(w) ==> w.wf(),
    ensures
        final(f).wf(),
        wrote(*old(f), *final(f), pagewalk_json(walk_pairs(*walk))),
        r.is_ok() == fits(*old(f), pagewalk_json(walk_pairs(*walk))),
{
    let mut v: Vec<u8> = Vec::new();
    push_pagewalk(&mut v, walk);
    f.write_bytes(v.as_slice())
}

/// `{"id":..,"type":"fault","origin":..` up to the comma after the origin
/// (and pid, for a payload fault).
pub open spec fn fault_head(id: u64, pid: Option<usize>) -> Seq<u8> {
    match pid {
        Some(p) => bytes_of("{\"id\":") + dec(id as nat) + bytes_of(",\"type\":\"fault\",\"origin\":\"payload\",\"pid\":")
            + dec(p as nat) + bytes_of(","),
        None => bytes_of("{\"id\":") + dec(id as nat) + bytes_of(",\"type\":\"fault\",\"origin\":\"kernel\","),
    }
}

/// A page fault (instruction, load or store).
pub open spec fn is_page_fault(scause: u64) -> bool {
    scause == 12 || scause == 13 || scause == 15
}

/// The full diagnostic frame: origin, causal parent (the payload's start
/// event, `null` for a kernel fault), cause, PC, faulting address, the
/// register file, the decoded instruction, the page-table walk of a payload
/// page fault, and the trap ring.
pub open spec fn fault_json(t: Traps, frame: TrapFrame, id: u64, scause: u64, stval: u64, pid: Option<usize>,
    cause: Option<u64>, walk: Option<Seq<(u8, u64)>>) -> Seq<u8> {
    fault_head(id, pid) + bytes_of("\"caused_by\":")
        + (if pid is Some && cause is Some { dec(cause.unwrap() as nat) } else { bytes_of("null") })
        + bytes_of(",\"cause\":\"0x") + hex(scause as nat) + bytes_of("\",\"cause_name\":\"") + cause_text(scause)
        + bytes_of("\",\"sepc\":\"0x") + hex(frame.sepc as nat) + bytes_of("\",\"stval\":\"0x") + hex(stval as nat)
        + bytes_of("\",\"ra\":\"0x") + hex(frame.xs(1) as nat) + bytes_of("\",\"sp\":\"0x") + hex(frame.xs(2) as nat)
        + bytes_of("\",\"regs\":") + regs_json(frame) + bytes_of(",\"insn\":") + insn_json(scause, stval)
        + bytes_of(",\"pagewalk\":")
        + (if pid is Some && is_page_fault(scause) { pagewalk_json(walk) } else { bytes_of("null") })
        + bytes_of(",\"ring\":") + ring_json(t) + bytes_of("}")
}

/// The minimal frame sent under the same id when the full one would not
/// fit: origin, cause, PC and faulting address, tagged `overflow`.
pub open spec fn fault_min_json(id: u64, pid: Option<usize>, scause: u64, sepc: u64, stval: u64) -> Seq<u8> {
    fault_head(id, pid) + bytes_of("\"overflow\":true,\"cause_name\":\"") + cause_text(scause)
        + bytes_of("\",\"sepc\":\"0x") + hex(sepc as nat) + bytes_of("\",\"stval\":\"0x") + hex(stval as nat)
        + bytes_of("\"}")
}

/// The classic surface: the same fault as one printf-style console line.
pub open spec fn classic_line(frame: TrapFrame, scause: u64, stval: u64, pid: Option<usize>) -> Seq<u8> {
    bytes_of("[FAULT] ") + (if pid is Some { bytes_of("payload") } else { bytes_of("kernel") }) + bytes_of(" ")
        + cause_text(scause) + bytes_of(" pc=0x") + hex(frame.sepc as nat) + bytes_of(" stval=0x") + hex(stval as nat)
        + bytes_of(" ra=0x") + hex(frame.xs(1) as nat) + bytes_of(" sp=0x") + hex(frame.xs(2) as nat) + bytes_of("\n")
}

/// What a fault puts on the console: the classic line, the full frame, or,
/// when the full frame would not fit, the minimal one.
pub open spec fn fault_output(t: Traps, frame: TrapFrame, id: u64, scause: u64, stval: u64, pid: Option<usize>,
    cause: Option<u64>, walk: Option<Seq<(u8, u64)>>) -> Seq<u8> {
    if t.classic_surface {
        classic_line(frame, scause, stval, pid)
    } else if fault_json(t, frame, id, scause, stval, pid, cause, walk).len() <= CAPACITY {
        wire_frame(fault_json(t, frame, id, scause, stval, pid, cause, walk))
    } else {
        framed(fault_min_json(id, pid, scause, frame.sepc, stval))
    }
}

/// No cause name is longer than 32 bytes.
proof fn lemma_cause_text_len(scause: u64)
    ensures
        cause_text(scause).len() <= 32,
{
    broadcast use vstd::string::is_ascii_spec_bytes;
    reveal_strlit("instruction_address_misaligned");
    reveal_strlit("instruction_access_fault");
    reveal_strlit("illegal_instruction");
    reveal_strlit("breakpoint");
    reveal_strlit("load_address_misaligned");
    reveal_strlit("load_access_fault");
    reveal_strlit("store_address_misaligned");
    reveal_strlit("store_access_fault");
    reveal_strlit("ecall");
    reveal_strlit("instruction_page_fault");
    reveal_strlit("load_page_fault");
    reveal_strlit("store_page_fault");
    reveal_strlit("timer");
    reveal_strlit("unexpected_interrupt");
    reveal_strlit("unknown");
    assert(vstd::string::is_ascii("instruction_address_misaligned"));
    assert(vstd::string::is_ascii("instruction_access_fault"));
    assert(vstd::string::is_ascii("illegal_instruction"));
    assert(vstd::string::is_ascii("breakpoint"));
    assert(vstd::string::is_ascii("load_address_misaligned"));
    assert(vstd::string::is_ascii("load_access_fault"));
    assert(vstd::string::is_ascii("store_address_misaligned"));
    assert(vstd::string::is_ascii("store_access_fault"));
    assert(vstd::string::is_ascii("ecall"));
    assert(vstd::string::is_ascii("instruction_page_fault"));
    assert(vstd::string::is_ascii("load_page_fault"));
    assert(vstd::string::is_ascii("store_page_fault"));
    assert(vstd::string::is_ascii("timer"));
    assert(vstd::string::is_ascii("unexpected_interrupt"));
    assert(vstd::string::is_ascii("unknown"));
}

/// The minimal fault frame always fits a frame.
proof fn lemma_fault_min_fits(id: u64, pid: Option<usize>, scause: u64, sepc: u64, stval: u64)
    ensures
        fault_min_json(id, pid, scause, sepc, stval).len() <= CAPACITY,
{
    broadcast use vstd::string::is_ascii_spec_bytes;
    lemma_cause_text_len(scause);
    crate::console::lemma_dec_u64_len(id);
    if let Some(p) = pid {
        crate::console::lemma_dec_u64_len(p as u64);
        assert(p as u64 as nat == p as nat);
    }
    crate::console::lemma_hex_u64_len(sepc);
    crate::console::lemma_hex_u64_len(stval);
    reveal_strlit("{\"id\":");
    reveal_strlit(",\"type\":\"fault\",\"origin\":\"payload\",\"pid\":");
    reveal_strlit(",");
    reveal_strlit(",\"type\":\"fault\",\"origin\":\"kernel\",");
    reveal_strlit("\"overflow\":true,\"cause_name\":\"");
    reveal_strlit("\",\"sepc\":\"0x");
    reveal_strlit("\",\"stval\":\"0x");
    reveal_strlit("\"}");
    assert(vstd::string::is_ascii("{\"id\":"));
    assert(vstd::string::is_ascii(",\"type\":\"fault\",\"origin\":\"payload\",\"pid\":"));
    assert(vstd::string::is_ascii(","));
    assert(vstd::string::is_ascii(",\"type\":\"fault\",\"origin\":\"kernel\","));
    assert(vstd::string::is_ascii("\"overflow\":true,\"cause_name\":\""));
    assert(vstd::string::is_ascii("\",\"sepc\":\"0x"));
    assert(vstd::string::is_ascii("\",\"stval\":\"0x"));
    assert(vstd::string::is_ascii("\"}"));
}

/// A fault report is never silent: on either surface, and however large the
/// full frame would be, the fault puts bytes on the console; the fallback
/// frame always fits.
pub proof fn lemma_fault_never_silent(t: Traps, frame: TrapFrame, id: u64, scause: u64, stval: u64, pid: Option<usize>,
    cause: Option<u64>, walk: Option<Seq<(u8, u64)>>)
    ensures
        fault_output(t, frame, id, scause, stval, pid, cause, walk).len() > 0,
        fault_min_json(id, pid, scause, frame.sepc, stval).len() <= CAPACITY,
{
    lemma_fault_min_fits(id, pid, scause, frame.sepc, stval);
    reveal_strlit("[FAULT] ");
    assert(vstd::string::is_ascii("[FAULT] "));
    vstd::string::is_ascii_spec_bytes("[FAULT] ");
}

/// The classic diagnostic surface: the fault as one raw console line.
#[verifier::spinoff_prover]
#[verifier::rlimit(30)]
pub fn emit_fault_classic(frame: &TrapFrame, scause: u64, stval: u64, pid: Option<usize>, wire: &mut Vec<u8>)
    ensures
        final(wire)@ == old(wire)@ + classic_line(*frame, scause, stval, pid),
{
    push_str(wire, "[FAULT] ");
    if pid.is_some() {
        push_str(wire, "payload");
    } else {
        push_str(wire, "kernel");
    }
    push_str(wire, " ");
    push_str(wire, cause_name(scause));
    push_str(wire, " pc=0x");
    push_hex(wire, frame.sepc);
    push_str(wire, " stval=0x");
    push_hex(wire, stval);
    push_str(wire, " ra=0x");
    push_hex(wire, frame.x(1));
    push_str(wire, " sp=0x");
    push_hex(wire, frame.x(2));
    push_str(wire, "\n");
    assert(wire@ =~= old(wire)@ + classic_line(*frame, scause, stval, pid));
}

fn push_fault_head(v: &mut Vec<u8>, id: u64, pid: Option<usize>)
    ensures
        final(v)@ == old(v)@ + fault_head(id, pid),
{
    match pid {
        Some(p) => {
            push_str(v, "{\"id\":");
            push_dec(v, id);
            push_str(v, ",\"type\":\"fault\",\"origin\":\"payload\",\"pid\":");
            push_dec(v, p as u64);
            push_str(v, ",");
        },
        None => {
            push_str(v, "{\"id\":");
            push_dec(v, id);
            push_str(v, ",\"type\":\"fault\",\"origin\":\"kernel\",");
        },
    }
    assert(v@ =~= old(v)@ + fault_head(id, pid));
}

/// Report a fault. `pid` is the faulting payload (None for a kernel fault),
/// `cause` the payload's start event, `walk` its page-table walk of the
/// faulting address. A fault report never vanishes: when the full frame
/// would not fit, a minimal one goes out under the same id.
#[verifier::spinoff_prover]
#[verifier::rlimit(30)]
pub fn emit_fault(t: &Traps, frame: &TrapFrame, id: u64, scause: u64, stval: u64, pid: Option<usize>,
    cause: Option<u64>, walk: &Option<WalkChain>, wire: &mut Vec<u8>)
    requires
        t.wf(),
        walk matches Some(w) ==> w.wf(),
    ensures
        final(wire)@ == old(wire)@ + fault_output(*t, *frame, id, scause, stval, pid, cause, walk_pairs(*walk)),
{
    if t.classic_surface {
        emit_fault_classic(frame, scause, stval, pid, wire);
        return;
    }
    let mut v: Vec<u8> = Vec::new();
    push_fault_head(&mut v, id, pid);
    push_str(&mut v, "\"caused_by\":");
    if pid.is_some() && cause.is_some() {
        push_dec(&mut v, cause.unwrap());
    } else {
        push_str(&mut v, "null");
    }
    push_str(&mut v, ",\"cause\":\"0x");
    push_hex(&mut v, scause);
    push_str(&mut v, "\",\"cause_name\":\"");
    push_str(&mut v, cause_name(scause));
    push_str(&mut v, "\",\"sepc\":\"0x");
    push_hex(&mut v, frame.sepc);
    push_str(&mut v, "\",\"stval\":\"0x");
    push_hex(&mut v, stval);
    push_str(&mut v, "\",\"ra\":\"0x");
    push_hex(&mut v, frame.x(1));
    push_str(&mut v, "\",\"sp\":\"0x");
    push_hex(&mut v, frame.x(2));
    push_str(&mut v, "\",\"regs\":");
    push_regs(&mut v, frame);
    push_str(&mut v, ",\"insn\":");
    push_insn(&mut v, scause, stval);
    push_str(&mut v, ",\"pagewalk\":");
    if pid.is_some() && (scause == 12 || scause == 13 || scause == 15) {
        push_pagewalk(&mut v, walk);
    } else {
        push_str(&mut v, "null");
    }
    push_str(&mut v, ",\"ring\":");
    push_ring(&mut v, t);
    push_str(&mut v, "}");
    assert(v@ =~= fault_json(*t, *frame, id, scause, stval, pid, cause, walk_pairs(*walk)));
    if v.len() > CAPACITY {
        let mut g: Vec<u8> = Vec::new();
        push_fault_head(&mut g, id, pid);
        push_str(&mut g, "\"overflow\":true,\"cause_name\":\"");
        push_str(&mut g, cause_name(scause));
        push_str(&mut g, "\",\"sepc\":\"0x");
        push_hex(&mut g, frame.sepc);
        push_str(&mut g, "\",\"stval\":\"0x");
        push_hex(&mut g, stval);
        push_str(&mut g, "\"}");
        assert(g@ =~= fault_min_json(id, pid, scause, frame.sepc, stval));
        emit_json(wire, g.as_slice());
    } else {
        emit_json(wire, v.as_slice());
    }
}


// ---- The trap handler -------------------------------------------------------------------

/// The `tick` event.
pub open spec fn tick_json(id: u64, seq: u64, time: u64) -> Seq<u8> {
    bytes_of("{\"id\":") + dec(id as nat) + bytes_of(",\"type\":\"tick\",\"seq\":") + dec(seq as nat)
        + bytes_of(",\"time\":") + dec(time as nat) + bytes_of("}")
}

/// The next tick deadline: one interval after the last, clamped forward
/// when the handler has fallen a whole interval behind (no catch-up storm).
pub open spec fn next_tick(deadline: u64, now: u64) -> u64 {
    if deadline + TICK_INTERVAL <= now { (now + TICK_INTERVAL) as u64 } else { (deadline + TICK_INTERVAL) as u64 }
}

/// What the hardware must do once a trap has been handled.
#[derive(Clone, Copy, PartialEq, Eq, Structural)]
pub struct TrapAction {
    /// Arm the timer for this deadline.
    pub set_timer: Option<u64>,
    /// A kernel fault: power off after the report.
    pub shutdown: bool,
}

/// `frame` rewritten so the trap return lands in the scheduler (at
/// `resume_pc`, S-mode, interrupts on after `sret`, on the stack at
/// `stack_top`), abandoning the departing payload.
pub open spec fn redirected(before: TrapFrame, after: TrapFrame, resume_pc: u64, stack_top: u64) -> bool {
    &&& after.sepc == resume_pc
    &&& after.sstatus == before.sstatus | SSTATUS_SPP | SSTATUS_SPIE
    &&& after.regs@ == before.regs@.update(X_SP as int, stack_top)
}

/// Hand the CPU back to the scheduler: the running payload leaves and the
/// trap return is redirected.
pub fn redirect_to_scheduler(p: &mut Payloads, frame: &mut TrapFrame, resume_pc: u64, stack_top: u64)
    ensures
        redirected(*old(frame), *final(frame), resume_pc, stack_top),
        final(p).current == NO_PID,
        final(p).table@ == old(p).table@,
        final(p).snaps@ == old(p).snaps@,
        final(p).last_snap == old(p).last_snap,
        final(p).auto_fork == old(p).auto_fork,
        final(p).kernel_root == old(p).kernel_root,
{
    leave_current(p);
    frame.sepc = resume_pc;
    frame.sstatus = frame.sstatus | SSTATUS_SPP;
    frame.sstatus = frame.sstatus | SSTATUS_SPIE;
    frame.set_sp(stack_top);
    proof {
        let b = old(frame).sstatus;
        assert((b | 0x100u64) | 0x20u64 == b | 0x100u64 | 0x20u64) by (bit_vector);
    }
}

/// Handle one trap (cause `scause`, value `stval`, at time `now`). Every
/// trap is recorded. A timer tick re-arms the timer, is reported unless the
/// kernel is autonomous, and kills a running payload past its deadline; an
/// ecall dispatches the syscall; anything else is a fault: a payload fault
/// is reported and kills only the payload, a kernel fault is reported and
/// powers off. A departing payload's frame is redirected to the scheduler.
#[verifier::rlimit(60)]
pub fn handle(t: &mut Traps, p: &mut Payloads, fa: &mut FrameAllocator, mem: &mut PhysMem, ev: &mut Events,
    wire: &mut Vec<u8>, frame: &mut TrapFrame, scause: u64, stval: u64, now: u64, resume_pc: u64, stack_top: u64)
    -> (act: TrapAction)
    requires
        old(t).wf(),
        old(p).wf(),
        old(fa).wf(),
        old(mem).wf(),
        old(t).ring_count < u64::MAX,
        old(t).notable_count < u64::MAX,
        old(t).next_deadline + TICK_INTERVAL <= u64::MAX,
        now + TICK_INTERVAL <= u64::MAX,
    ensures
        final(t).wf(),
        final(p).wf(),
        final(fa).wf(),
        final(mem).wf(),
        final(t).classic_surface == old(t).classic_surface,
        notable_ordered(*old(t)) && ids_below(*old(t), old(ev).next) && old(ev).next < final(ev).next
            ==> notable_ordered(*final(t)) && ids_below(*final(t), final(ev).next),
        ({
            let id = old(ev).next;
            let rec = RingSlot { id, scause, sepc: old(frame).sepc, stval };
            let e1 = advanced(id);
            if scause == CAUSE_S_TIMER {
                let next = next_tick(old(t).next_deadline, now);
                let seq = bump(old(t).ticks);
                let tick = if old(t).autonomous { Seq::<u8>::empty() } else { framed(tick_json(id, seq, now)) };
                &&& recorded(*old(t), Traps { ticks: old(t).ticks, next_deadline: old(t).next_deadline, ..*final(t) }, rec)
                &&& final(t).ticks == seq
                &&& final(t).next_deadline == next
                &&& act == TrapAction { set_timer: Some(next), shutdown: false }
                &&& *final(fa) == *old(fa) && final(mem)@ == old(mem)@
                &&& final(ev).next == if over_deadline(*old(p), now) { advanced(e1) } else { e1 }
                &&& if over_deadline(*old(p), now) {
                    let pid = old(p).current as int;
                    let slot = old(p).table@[pid];
                    &&& final(p).table@ == old(p).table@.update(pid, (Slot { state: KILLED, ..slot }))
                    &&& final(p).current == NO_PID
                    &&& final(wire)@ == old(wire)@ + tick + framed(killed_json(e1, pid as usize,
                            elapsed_since(now, slot.started_at), slot.deadline, slot.start_event))
                    &&& redirected(*old(frame), *final(frame), resume_pc, stack_top)
                } else {
                    &&& *final(p) == *old(p)
                    &&& final(wire)@ == old(wire)@ + tick
                    &&& *final(frame) == *old(frame)
                }
            } else if scause == CAUSE_U_ECALL {
                &&& recorded(*old(t), *final(t), rec)
                &&& act == TrapAction { set_timer: None, shutdown: false }
                &&& exists|f1: TrapFrame, out: Outcome, p1: Payloads| {
                    &&& f1 == (TrapFrame { sepc: past_ecall(old(frame).sepc), ..*old(frame) })
                    &&& dispatched(*old(p), p1, *old(fa), *final(fa), old(mem)@, final(mem)@, e1, final(ev).next,
                            old(wire)@, final(wire)@, f1, out)
                    &&& match out {
                        Outcome::Resume(v) => *final(p) == p1
                            && final(frame).regs@ == f1.regs@.update(X_A0 as int, v as u64)
                            && final(frame).sepc == f1.sepc && final(frame).sstatus == f1.sstatus,
                        Outcome::Leave => final(p).table@ == p1.table@ && final(p).current == NO_PID
                            && redirected(f1, *final(frame), resume_pc, stack_top),
                    }
                }
            } else {
                let user = old(frame).sstatus & SSTATUS_SPP == 0;
                let pid = if user { running_pid(*old(p)) } else { None };
                let cause = if user && old(p).current != NO_PID { Some(old(p).table@[old(p).current as int].start_event) } else { None };
                let walk = if user { match current_root(*old(p)) {
                        Some(root) => Some(crate::mm::walk_chain(old(mem)@, root as u64, stval as usize, 2)),
                        None => None,
                    } } else { None };
                &&& recorded(*old(t), *final(t), rec)
                &&& final(wire)@ == old(wire)@ + fault_output(*final(t), *old(frame), id, scause, stval, pid, cause, walk)
                &&& final(mem)@ == old(mem)@ && *final(fa) == *old(fa)
                &&& final(ev).next == e1
                &&& user ==> {
                    &&& act == TrapAction { set_timer: None, shutdown: false }
                    &&& final(p).table@ == (if old(p).current == NO_PID { old(p).table@ } else {
                            old(p).table@.update(old(p).current as int, (Slot { state: FAULTED, ..old(p).table@[old(p).current as int] })) })
                    &&& final(p).current == NO_PID
                    &&& redirected(*old(frame), *final(frame), resume_pc, stack_top)
                }
                &&& !user ==> act == TrapAction { set_timer: None, shutdown: true } && *final(p) == *old(p)
                    && *final(frame) == *old(frame)
            }
        }),
{
    let id = next_id(ev);
    ring_record(t, id, scause, frame.sepc, stval);
    proof {
        if notable_ordered(*old(t)) && ids_below(*old(t), old(ev).next) {
            lemma_record_keeps_notable_ordered(*old(t), *t, RingSlot { id, scause, sepc: old(frame).sepc, stval });
        }
    }
    if scause == CAUSE_S_TIMER {
        let mut next = t.next_deadline + TICK_INTERVAL;
        if next <= now {
            next = now + TICK_INTERVAL;
        }
        t.next_deadline = next;
        t.ticks = t.ticks.wrapping_add(1);
        let seq = t.ticks;
        if !t.autonomous {
            let mut v: Vec<u8> = Vec::new();
            push_str(&mut v, "{\"id\":");
            push_dec(&mut v, id);
            push_str(&mut v, ",\"type\":\"tick\",\"seq\":");
            push_dec(&mut v, seq);
            push_str(&mut v, ",\"time\":");
            push_dec(&mut v, now);
            push_str(&mut v, "}");
            assert(v@ =~= tick_json(id, seq, now));
            emit_json(wire, v.as_slice());
        }
        let ghost w1 = wire@;
        if on_tick(p, ev, wire, now) {
            redirect_to_scheduler(p, frame, resume_pc, stack_top);
        }
        proof {
            if old(t).autonomous {
                assert(w1 =~= old(wire)@ + Seq::<u8>::empty());
            }
        }
        return TrapAction { set_timer: Some(next), shutdown: false };
    }
    if scause == CAUSE_U_ECALL {
        frame.advance_past_ecall();
        let ghost f1 = *frame;
        let out = dispatch(p, fa, mem, ev, wire, frame);
        let ghost p1 = *p;
        match out {
            Outcome::Resume(v) => {
                frame.set_a0(v as u64);
            },
            Outcome::Leave => {
                redirect_to_scheduler(p, frame, resume_pc, stack_top);
            },
        }
        return TrapAction { set_timer: None, shutdown: false };
    }
    if frame.is_from_user() {
        let pid = current_pid(p);
        let cause = current_cause(p);
        let walk = current_pagewalk(p, mem, stval as usize);
        emit_fault(t, frame, id, scause, stval, pid, cause, &walk, wire);
        mark_faulted(p);
        redirect_to_scheduler(p, frame, resume_pc, stack_top);
        TrapAction { set_timer: None, shutdown: false }
    } else {
        let walk: Option<WalkChain> = None;
        emit_fault(t, frame, id, scause, stval, None, None, &walk, wire);
        TrapAction { set_timer: None, shutdown: true }
    }
}

} // verus!

//! Payloads: the process table, capability sets, checkpoints and the
//! sequential scheduler's decisions. Every emitted event is appended to the
//! wire as a frame; reading the clock and switching to U-mode stay outside.
use vstd::prelude::*;
use crate::console::{FrameBuf, FmtError, bytes_of, dec, sdec, hex, wrote, fits, framed, emit_json,
    push_str, push_bytes, push_dec, push_i64, push_hex};
use crate::events::{Events, next_id, advanced};
use crate::syscall::{SYS_EXIT, SYS_WRITE, SYS_YIELD, SYS_SPAWN, SYS_SNAPSHOT};
use crate::console::{escaped, push_escaped};
use crate::phys::PhysMem;
use crate::frames::{FrameAllocator, FRAME_SIZE, POOL_FRAMES, free, alloc_frame, without_pas, lemma_free_drops, lemma_without_union};
use crate::mm::{AddressSpace, WalkChain, walk_chain, root_pas, user_byte, keeps_frames, frame_of};
use crate::traps::{TrapFrame, save_frame_to, frame_saved, init_frame_to, SEPC_OFF, SSTATUS_OFF, SSTATUS_SPIE};
use crate::elf::{Arena, load, load_effect, elf_error_text};
use crate::mm::{map_kernel, rd, copy_of, space_wf};
use crate::phys::{phys_read, phys_write, in_pool, POOL_BASE};
use crate::syscall::{EINVAL, EAGAIN, ENOMEM};

verus! {

/// Per-call byte quota for `write`.
pub const WRITE_QUOTA: usize = 256;

pub const CAP_WRITE: u32 = 1;
pub const CAP_YIELD: u32 = 2;
pub const CAP_SPAWN: u32 = 4;

/// A capability the operator or a parent can grant a payload.
#[derive(Clone, Copy, Debug, PartialEq, Eq)]
pub enum Cap {
    Write,
    Yield,
    Spawn,
}

pub open spec fn cap_bit(c: Cap) -> u32 {
    match c {
        Cap::Write => CAP_WRITE,
        Cap::Yield => CAP_YIELD,
        Cap::Spawn => CAP_SPAWN,
    }
}

impl Cap {
    pub fn bit(self) -> (b: u32)
        ensures
            b == cap_bit(self),
    {
        match self {
            Cap::Write => CAP_WRITE,
            Cap::Yield => CAP_YIELD,
            Cap::Spawn => CAP_SPAWN,
        }
    }
}

// ---- Payload images -------------------------------------------------------

pub const NUM_IMAGES: usize = 10;
pub const IMG_HELLO: usize = 0;
pub const IMG_CRASHER: usize = 1;
pub const IMG_MUZZLED: usize = 2;
pub const IMG_SPAWNER: usize = 3;
pub const IMG_CHILD: usize = 4;
pub const IMG_RUNAWAY: usize = 5;
pub const IMG_WILD: usize = 6;
pub const IMG_WXVIOL: usize = 7;
pub const IMG_FORKER: usize = 8;
pub const IMG_LEAKER: usize = 9;

/// Ceiling of capabilities image `i` may ever hold.
pub open spec fn image_ceiling(i: int) -> u32 {
    if i == IMG_MUZZLED { 0 }
    else if i == IMG_SPAWNER { CAP_WRITE | CAP_SPAWN }
    else if i == IMG_CHILD { CAP_WRITE | CAP_YIELD }
    else if 0 <= i < NUM_IMAGES { CAP_WRITE }
    else { 0 }
}

/// Instruction-count deadline of image `i` in timebase units (0 = none).
pub open spec fn image_deadline_of(i: int) -> u64 {
    if i == IMG_RUNAWAY { 15_000 } else { 0 }
}

/// Name of image `i`.
pub open spec fn image_name_of(i: int) -> Seq<u8> {
    if i == IMG_HELLO { bytes_of("hello") }
    else if i == IMG_CRASHER { bytes_of("crasher") }
    else if i == IMG_MUZZLED { bytes_of("muzzled") }
    else if i == IMG_SPAWNER { bytes_of("spawner") }
    else if i == IMG_CHILD { bytes_of("child") }
    else if i == IMG_RUNAWAY { bytes_of("runaway") }
    else if i == IMG_WILD { bytes_of("wild") }
    else if i == IMG_WXVIOL { bytes_of("wxviol") }
    else if i == IMG_FORKER { bytes_of("forker") }
    else { bytes_of("leaker") }
}

pub fn image_caps(i: usize) -> (c: u32)
    requires
        i < NUM_IMAGES,
    ensures
        c == image_ceiling(i as int),
{
    if i == IMG_MUZZLED { 0 }
    else if i == IMG_SPAWNER { CAP_WRITE | CAP_SPAWN }
    else if i == IMG_CHILD { CAP_WRITE | CAP_YIELD }
    else { CAP_WRITE }
}

pub fn image_deadline(i: usize) -> (d: u64)
    ensures
        d == image_deadline_of(i as int),
{
    if i == IMG_RUNAWAY { 15_000 } else { 0 }
}

pub fn image_name(i: usize) -> (s: &'static str)
    requires
        i < NUM_IMAGES,
    ensures
        bytes_of(s) == image_name_of(i as int),
{
    if i == IMG_HELLO { "hello" }
    else if i == IMG_CRASHER { "crasher" }
    else if i == IMG_MUZZLED { "muzzled" }
    else if i == IMG_SPAWNER { "spawner" }
    else if i == IMG_CHILD { "child" }
    else if i == IMG_RUNAWAY { "runaway" }
    else if i == IMG_WILD { "wild" }
    else if i == IMG_WXVIOL { "wxviol" }
    else if i == IMG_FORKER { "forker" }
    else { "leaker" }
}

/// The image a payload-supplied spawn selector names, among those a payload
/// may spawn.
pub open spec fn spawnable(selector: usize) -> Option<usize> {
    if selector == 0 { Some(IMG_CHILD) } else { None }
}

/// Map a payload-supplied spawn selector to an image index.
pub fn spawnable_image(selector: usize) -> (r: Option<usize>)
    ensures
        r == spawnable(selector),
{
    match selector {
        0 => Some(IMG_CHILD),
        _ => None,
    }
}

// ---- Process table ----------------------------------------------------------

pub const MAX_PROC: usize = 8;
pub const NO_PID: usize = usize::MAX;

pub const EMPTY: u8 = 0;
pub const PENDING: u8 = 1;
pub const RUNNING: u8 = 2;
pub const EXITED: u8 = 3;
pub const FAULTED: u8 = 4;
pub const KILLED: u8 = 5;

/// One process-table entry.
#[derive(Clone, Copy)]
pub struct Slot {
    pub state: u8,
    pub image: usize,
    pub caps: u32,
    pub parent: usize,
    pub exit_code: isize,
    /// Timebase value when this payload started running.
    pub started_at: u64,
    /// Instruction-count deadline in timebase units (0 = none).
    pub deadline: u64,
    /// Root frame of this payload's address space (0 = none / reaped).
    pub root: usize,
    /// Pool frame holding a saved trap frame to resume from (0 = none).
    pub resume_frame: usize,
    /// Event id of this payload's `payload_start`.
    pub start_event: u64,
}

impl Slot {
    pub fn new() -> (s: Slot)
        ensures
            s.state == EMPTY,
            s.image == 0,
            s.caps == 0,
            s.parent == NO_PID,
            s.exit_code == 0,
            s.started_at == 0,
            s.deadline == 0,
            s.root == 0,
            s.resume_frame == 0,
            s.start_event == 0,
    {
        Slot {
            state: EMPTY,
            image: 0,
            caps: 0,
            parent: NO_PID,
            exit_code: 0,
            started_at: 0,
            deadline: 0,
            root: 0,
            resume_frame: 0,
            start_event: 0,
        }
    }
}

pub const MAX_SNAP: usize = 4;

/// A frozen copy of a payload: its address space, saved frame and CapSet.
#[derive(Clone, Copy)]
pub struct Snapshot {
    pub valid: bool,
    pub root: usize,
    pub frame: usize,
    pub caps: u32,
    pub image: usize,
}

impl Snapshot {
    pub fn new() -> (s: Snapshot)
        ensures
            !s.valid,
            s.root == 0,
            s.frame == 0,
            s.caps == 0,
            s.image == 0,
    {
        Snapshot { valid: false, root: 0, frame: 0, caps: 0, image: 0 }
    }
}

/// The process table, the running payload and the checkpoint store.
pub struct Payloads {
    pub table: Vec<Slot>,
    /// pid of the payload on the CPU, or `NO_PID`.
    pub current: usize,
    pub snaps: Vec<Snapshot>,
    /// The most recent snapshot id of this suite (1-based; 0 = none).
    pub last_snap: isize,
    /// Checkpoint continuations the current suite still owes.
    pub auto_fork: usize,
    /// Root frame of the kernel-only address space.
    pub kernel_root: usize,
}

impl Payloads {
    /// Shape, plus the capability ceiling: no slot or snapshot ever holds a
    /// capability beyond its image's ceiling.
    pub open spec fn wf(&self) -> bool {
        &&& self.table@.len() == MAX_PROC
        &&& self.snaps@.len() == MAX_SNAP
        &&& (self.current == NO_PID || self.current < MAX_PROC)
        &&& 0 <= self.last_snap <= MAX_SNAP
        &&& forall|k: int| 0 <= k < MAX_PROC ==> {
            &&& #[trigger] self.table@[k].image < NUM_IMAGES
            &&& self.table@[k].caps & !image_ceiling(self.table@[k].image as int) == 0
            &&& (self.table@[k].parent == NO_PID || self.table@[k].parent < MAX_PROC)
        }
        &&& forall|k: int| 0 <= k < MAX_SNAP ==> {
            &&& #[trigger] self.snaps@[k].image < NUM_IMAGES
            &&& self.snaps@[k].caps & !image_ceiling(self.snaps@[k].image as int) == 0
        }
    }

    pub fn new() -> (p: Payloads)
        ensures
            p.wf(),
            p.current == NO_PID,
            p.last_snap == 0,
            p.auto_fork == 0,
            p.kernel_root == 0,
            forall|k: int| 0 <= k < MAX_PROC ==> #[trigger] p.table@[k] == Slot::new_spec(),
            forall|k: int| 0 <= k < MAX_SNAP ==> !(#[trigger] p.snaps@[k]).valid,
    {
        let mut table: Vec<Slot> = Vec::new();
        let mut k: usize = 0;
        while k < MAX_PROC
            invariant
                k <= MAX_PROC,
                table@.len() == k,
                forall|j: int| 0 <= j < k ==> #[trigger] table@[j] == Slot::new_spec(),
            decreases MAX_PROC - k,
        {
            table.push(Slot::new());
            k += 1;
        }
        let mut snaps: Vec<Snapshot> = Vec::new();
        let mut k: usize = 0;
        while k < MAX_SNAP
            invariant
                k <= MAX_SNAP,
                snaps@.len() == k,
                forall|j: int| 0 <= j < k ==> #[trigger] snaps@[j] == Snapshot::new_spec(),
            decreases MAX_SNAP - k,
        {
            snaps.push(Snapshot::new());
            k += 1;
        }
        let p = Payloads { table, current: NO_PID, snaps, last_snap: 0, auto_fork: 0, kernel_root: 0 };
        proof {
            lemma_caps_attenuate(0, 0, image_ceiling(0));
        }
        p
    }
}

impl Slot {
    pub open spec fn new_spec() -> Slot {
        Slot {
            state: EMPTY,
            image: 0,
            caps: 0,
            parent: NO_PID,
            exit_code: 0,
            started_at: 0,
            deadline: 0,
            root: 0,
            resume_frame: 0,
            start_event: 0,
        }
    }
}

impl Snapshot {
    pub open spec fn new_spec() -> Snapshot {
        Snapshot { valid: false, root: 0, frame: 0, caps: 0, image: 0 }
    }
}

/// `a` holds no capability outside `b`.
pub open spec fn caps_within(a: u32, b: u32) -> bool {
    a & !b == 0
}

/// The attenuation lattice: `requested & parent & ceiling` lies within each
/// of the three, and a set within a set within `c` lies within `c`.
pub proof fn lemma_caps_attenuate(requested: u32, parent: u32, ceiling: u32)
    ensures
        caps_within(requested & parent & ceiling, requested),
        caps_within(requested & parent & ceiling, parent),
        caps_within(requested & parent & ceiling, ceiling),
        (requested & parent & ceiling) & ceiling == requested & parent & ceiling,
        caps_within(0, ceiling),
{
    assert(((requested & parent & ceiling) & !requested == 0)
        && ((requested & parent & ceiling) & !parent == 0)
        && ((requested & parent & ceiling) & !ceiling == 0)
        && ((requested & parent & ceiling) & ceiling == requested & parent & ceiling)
        && (0u32 & !ceiling == 0)) by (bit_vector);
}

/// Lying within is transitive.
pub proof fn lemma_caps_within_trans(a: u32, b: u32, c: u32)
    requires
        caps_within(a, b),
        caps_within(b, c),
    ensures
        caps_within(a, c),
{
    assert((a & !b == 0) && (b & !c == 0) ==> (a & !c == 0)) by (bit_vector);
}

/// The first slot at or after `from` in state `st`.
pub open spec fn first_in_state(t: Seq<Slot>, st: u8, from: int) -> Option<int>
    decreases t.len() - from,
{
    if from < 0 || from >= t.len() {
        None
    } else if t[from].state == st {
        Some(from)
    } else {
        first_in_state(t, st, from + 1)
    }
}

pub proof fn lemma_first_in_state(t: Seq<Slot>, st: u8, from: int)
    requires
        0 <= from,
    ensures
        first_in_state(t, st, from) matches Some(k) ==> from <= k < t.len() && t[k].state == st
            && forall|j: int| from <= j < k ==> t[j].state != st,
        first_in_state(t, st, from) is None ==> forall|j: int| from <= j < t.len() ==> t[j].state != st,
    decreases t.len() - from,
{
    if from < t.len() && t[from].state != st {
        lemma_first_in_state(t, st, from + 1);
    }
}

/// The slot `enqueue` writes: a pending payload of `image`, with `caps`
/// clamped to the image ceiling, keeping the old causal id.
pub open spec fn enqueued(old_slot: Slot, image: usize, caps: u32, parent: usize) -> Slot {
    Slot {
        state: PENDING,
        image,
        caps: caps & image_ceiling(image as int),
        parent,
        exit_code: 0,
        started_at: 0,
        deadline: image_deadline_of(image as int),
        root: 0,
        resume_frame: 0,
        start_event: old_slot.start_event,
    }
}

/// The pid of the running payload.
pub open spec fn running_pid(p: Payloads) -> Option<usize> {
    if p.current == NO_PID { None } else { Some(p.current) }
}

pub fn current_pid(p: &Payloads) -> (r: Option<usize>)
    ensures
        r == running_pid(*p),
{
    if p.current == NO_PID { None } else { Some(p.current) }
}

/// Whether the running payload holds `cap`.
pub open spec fn holds(p: Payloads, cap: Cap) -> bool {
    p.current != NO_PID && p.table@[p.current as int].caps & cap_bit(cap) != 0
}

pub fn current_has(p: &Payloads, cap: Cap) -> (r: bool)
    requires
        p.wf(),
    ensures
        r == holds(*p, cap),
{
    if p.current == NO_PID {
        false
    } else {
        p.table[p.current].caps & cap.bit() != 0
    }
}

/// Queue a pending payload of `image` in the first empty slot; its CapSet is
/// `caps` re-clamped to the image ceiling.
pub fn enqueue(p: &mut Payloads, image: usize, caps: u32, parent: usize) -> (r: Option<usize>)
    requires
        old(p).wf(),
        image < NUM_IMAGES,
        parent == NO_PID || parent < MAX_PROC,
    ensures
        final(p).wf(),
        r == (match first_in_state(old(p).table@, EMPTY, 0) { Some(k) => Some(k as usize), None => None }),
        final(p).table@ == (match r {
            Some(k) => old(p).table@.update(k as int, enqueued(old(p).table@[k as int], image, caps, parent)),
            None => old(p).table@,
        }),
        final(p).current == old(p).current,
        final(p).snaps@ == old(p).snaps@,
        final(p).last_snap == old(p).last_snap,
        final(p).auto_fork == old(p).auto_fork,
        final(p).kernel_root == old(p).kernel_root,
{
    proof { lemma_first_in_state(p.table@, EMPTY, 0); }
    let mut pid: usize = 0;
    while pid < MAX_PROC
        invariant
            p == old(p),
            p.wf(),
            image < NUM_IMAGES,
            parent == NO_PID || parent < MAX_PROC,
            pid <= MAX_PROC,
            first_in_state(p.table@, EMPTY, 0) == first_in_state(p.table@, EMPTY, pid as int),
        decreases MAX_PROC - pid,
    {
        if p.table[pid].state == EMPTY {
            let ceiling = image_caps(image);
            let mut slot = p.table[pid];
            slot.image = image;
            slot.caps = caps & ceiling;
            slot.parent = parent;
            slot.exit_code = 0;
            slot.deadline = image_deadline(image);
            slot.started_at = 0;
            slot.root = 0;
            slot.resume_frame = 0;
            slot.state = PENDING;
            p.table.set(pid, slot);
            proof {
                lemma_caps_attenuate(caps, 0xffff_ffff, ceiling);
                assert(caps & 0xffff_ffff == caps) by (bit_vector);
            }
            return Some(pid);
        }
        pid += 1;
    }
    None
}

/// The first pending payload.
pub fn take_next_pending(p: &Payloads) -> (r: Option<usize>)
    requires
        p.wf(),
    ensures
        r == (match first_in_state(p.table@, PENDING, 0) { Some(k) => Some(k as usize), None => None }),
{
    let mut pid: usize = 0;
    while pid < MAX_PROC
        invariant
            p.wf(),
            pid <= MAX_PROC,
            first_in_state(p.table@, PENDING, 0) == first_in_state(p.table@, PENDING, pid as int),
        decreases MAX_PROC - pid,
    {
        if p.table[pid].state == PENDING {
            return Some(pid);
        }
        pid += 1;
    }
    None
}

/// Whether some payload is pending or running.
pub open spec fn alive(p: Payloads) -> bool {
    exists|k: int| 0 <= k < MAX_PROC && (p.table@[k].state == PENDING || p.table@[k].state == RUNNING)
}

/// Whether some payload is still pending or running (a suite is in flight).
pub fn any_alive(p: &Payloads) -> (r: bool)
    requires
        p.wf(),
    ensures
        r == alive(*p),
{
    let mut pid: usize = 0;
    while pid < MAX_PROC
        invariant
            p.wf(),
            pid <= MAX_PROC,
            forall|j: int| 0 <= j < pid ==> !(p.table@[j].state == PENDING || p.table@[j].state == RUNNING),
        decreases MAX_PROC - pid,
    {
        let st = p.table[pid].state;
        if st == PENDING || st == RUNNING {
            return true;
        }
        pid += 1;
    }
    false
}

/// Mark the running payload faulted.
pub fn mark_faulted(p: &mut Payloads)
    requires
        old(p).wf(),
    ensures
        final(p).wf(),
        final(p).table@ == (if old(p).current == NO_PID { old(p).table@ } else {
            old(p).table@.update(old(p).current as int, Slot { state: FAULTED, ..old(p).table@[old(p).current as int] }) }),
        final(p).current == old(p).current,
        final(p).snaps@ == old(p).snaps@,
        final(p).last_snap == old(p).last_snap,
        final(p).auto_fork == old(p).auto_fork,
        final(p).kernel_root == old(p).kernel_root,
{
    if let Some(pid) = current_pid(p) {
        let mut slot = p.table[pid];
        slot.state = FAULTED;
        p.table.set(pid, slot);
    }
}

/// Clear the running-payload marker as a payload leaves the CPU.
pub fn leave_current(p: &mut Payloads)
    ensures
        final(p).current == NO_PID,
        final(p).table@ == old(p).table@,
        final(p).snaps@ == old(p).snaps@,
        final(p).last_snap == old(p).last_snap,
        final(p).auto_fork == old(p).auto_fork,
        final(p).kernel_root == old(p).kernel_root,
{
    p.current = NO_PID;
}

// ---- Events ---------------------------------------------------------------

/// A capability set as a JSON array of names, in the order write, yield, spawn.
#[verifier::opaque]
pub open spec fn caps_list(caps: u32) -> Seq<u8> {
    let w = caps & CAP_WRITE != 0;
    let y = caps & CAP_YIELD != 0;
    let s = caps & CAP_SPAWN != 0;
    bytes_of("[")
        + (if w { bytes_of("\"write\"") } else { Seq::empty() })
        + (if y { (if w { bytes_of(",") } else { Seq::empty() }) + bytes_of("\"yield\"") } else { Seq::empty() })
        + (if s { (if w || y { bytes_of(",") } else { Seq::empty() }) + bytes_of("\"spawn\"") } else { Seq::empty() })
        + bytes_of("]")
}

/// Append a capability set as a JSON array of names.
#[verifier::spinoff_prover]
#[verifier::rlimit(30)]
pub fn caps_json(v: &mut Vec<u8>, caps: u32)
    ensures
        final(v)@ == old(v)@ + caps_list(caps),
{
    let w = caps & CAP_WRITE != 0;
    let y = caps & CAP_YIELD != 0;
    let s = caps & CAP_SPAWN != 0;
    push_str(v, "[");
    let ghost v1 = v@;
    if w {
        push_str(v, "\"write\"");
    }
    let ghost v2 = v@;
    if y {
        if w {
            push_str(v, ",");
        }
        push_str(v, "\"yield\"");
    }
    let ghost v3 = v@;
    if s {
        if w || y {
            push_str(v, ",");
        }
        push_str(v, "\"spawn\"");
    }
    let ghost v4 = v@;
    push_str(v, "]");
    assert(v@ =~= old(v)@ + caps_list(caps)) by { reveal(caps_list); }
}

/// The JSON name of a process state.
pub open spec fn state_text(st: u8) -> Seq<u8> {
    if st == EMPTY { bytes_of("empty") }
    else if st == PENDING { bytes_of("pending") }
    else if st == RUNNING { bytes_of("running") }
    else if st == EXITED { bytes_of("exited") }
    else if st == FAULTED { bytes_of("faulted") }
    else if st == KILLED { bytes_of("killed") }
    else { bytes_of("unknown") }
}

/// Each slot state has a name of its own: two states share a name only
/// when neither is one of the six states (both are "unknown").
pub proof fn lemma_state_names_distinct(a: u8, b: u8)
    ensures
        state_text(a) == state_text(b) ==> a == b || (a > KILLED && b > KILLED),
        state_text(EMPTY) == bytes_of("empty") && state_text(PENDING) == bytes_of("pending")
            && state_text(RUNNING) == bytes_of("running") && state_text(EXITED) == bytes_of("exited")
            && state_text(FAULTED) == bytes_of("faulted") && state_text(KILLED) == bytes_of("killed"),
{
    broadcast use vstd::string::is_ascii_spec_bytes;
    reveal_strlit("empty");
    reveal_strlit("pending");
    reveal_strlit("running");
    reveal_strlit("exited");
    reveal_strlit("faulted");
    reveal_strlit("killed");
    reveal_strlit("unknown");
    assert(vstd::string::is_ascii("empty"));
    assert(vstd::string::is_ascii("pending"));
    assert(vstd::string::is_ascii("running"));
    assert(vstd::string::is_ascii("exited"));
    assert(vstd::string::is_ascii("faulted"));
    assert(vstd::string::is_ascii("killed"));
    assert(vstd::string::is_ascii("unknown"));
    assert(state_text(a).len() > 0 && state_text(b).len() > 0);
    if state_text(a) == state_text(b) {
        assert(state_text(a).len() == state_text(b).len());
        assert(state_text(a)[0] == state_text(b)[0]);
    }
}

pub fn state_name(st: u8) -> (r: &'static str)
    ensures
        bytes_of(r) == state_text(st),
{
    match st {
        EMPTY => "empty",
        PENDING => "pending",
        RUNNING => "running",
        EXITED => "exited",
        FAULTED => "faulted",
        KILLED => "killed",
        _ => "unknown",
    }
}

/// `{"id":<id>,"type":"` — the head every event frame starts with.
#[verifier::opaque]
pub open spec fn event_head(id: u64, ty: Seq<u8>) -> Seq<u8> {
    bytes_of("{\"id\":") + dec(id as nat) + bytes_of(",\"type\":\"") + ty + bytes_of("\"")
}

fn push_event_head(v: &mut Vec<u8>, id: u64, ty: &str)
    ensures
        final(v)@ == old(v)@ + event_head(id, bytes_of(ty)),
{
    push_str(v, "{\"id\":");
    push_dec(v, id);
    push_str(v, ",\"type\":\"");
    push_str(v, ty);
    push_str(v, "\"");
    assert(v@ =~= old(v)@ + event_head(id, bytes_of(ty))) by { reveal(event_head); }
}

/// The `syscall_denied` event.
#[verifier::opaque]
pub open spec fn denied_json(id: u64, pid: usize, syscall: Seq<u8>, cap: Seq<u8>) -> Seq<u8> {
    event_head(id, bytes_of("syscall_denied")) + bytes_of(",\"pid\":") + dec(pid as nat)
        + bytes_of(",\"syscall\":\"") + syscall + bytes_of("\",\"reason\":\"missing_cap\",\"cap\":\"") + cap
        + bytes_of("\"}")
}

/// Emit a structured capability-denied event: a refused syscall is a
/// first-class event, not just an errno the payload may swallow.
pub fn emit_denied(p: &Payloads, ev: &mut Events, wire: &mut Vec<u8>, syscall: &str, cap: &str)
    ensures
        final(ev).next == advanced(old(ev).next),
        final(wire)@ == old(wire)@ + framed(denied_json(old(ev).next, p.current, bytes_of(syscall), bytes_of(cap))),
{
    let pid = match current_pid(p) {
        Some(x) => x,
        None => NO_PID,
    };
    let id = next_id(ev);
    let mut v: Vec<u8> = Vec::new();
    push_event_head(&mut v, id, "syscall_denied");
    push_str(&mut v, ",\"pid\":");
    push_dec(&mut v, pid as u64);
    push_str(&mut v, ",\"syscall\":\"");
    push_str(&mut v, syscall);
    push_str(&mut v, "\",\"reason\":\"missing_cap\",\"cap\":\"");
    push_str(&mut v, cap);
    push_str(&mut v, "\"}");
    assert(v@ =~= denied_json(id, p.current, bytes_of(syscall), bytes_of(cap))) by { reveal(denied_json); }
    emit_json(wire, v.as_slice());
}

/// The `payload_exit` event.
#[verifier::opaque]
pub open spec fn exit_json(id: u64, pid: usize, code: isize, caused_by: u64) -> Seq<u8> {
    event_head(id, bytes_of("payload_exit")) + bytes_of(",\"pid\":") + dec(pid as nat)
        + bytes_of(",\"code\":") + sdec(code as int) + bytes_of(",\"caused_by\":") + dec(caused_by as nat)
        + bytes_of("}")
}

/// Emit the clean-exit event of `pid`.
pub fn emit_exit(p: &Payloads, ev: &mut Events, wire: &mut Vec<u8>, pid: usize, code: isize)
    requires
        p.wf(),
        pid < MAX_PROC,
    ensures
        final(ev).next == advanced(old(ev).next),
        final(wire)@ == old(wire)@ + framed(exit_json(old(ev).next, pid, code, p.table@[pid as int].start_event)),
{
    let id = next_id(ev);
    let mut v: Vec<u8> = Vec::new();
    push_event_head(&mut v, id, "payload_exit");
    push_str(&mut v, ",\"pid\":");
    push_dec(&mut v, pid as u64);
    push_str(&mut v, ",\"code\":");
    push_i64(&mut v, code as i64);
    push_str(&mut v, ",\"caused_by\":");
    push_dec(&mut v, p.table[pid].start_event);
    push_str(&mut v, "}");
    assert(v@ =~= exit_json(id, pid, code, p.table@[pid as int].start_event)) by { reveal(exit_json); }
    emit_json(wire, v.as_slice());
}

/// The running payload exits with `code`: it is marked exited and the exit
/// event is emitted. Nothing happens when no payload is running.
pub fn on_exit(p: &mut Payloads, ev: &mut Events, wire: &mut Vec<u8>, code: usize)
    requires
        old(p).wf(),
    ensures
        final(p).wf(),
        old(p).current == NO_PID ==> *final(p) == *old(p) && *final(ev) == *old(ev) && final(wire)@ == old(wire)@,
        old(p).current != NO_PID ==> {
            let pid = old(p).current as int;
            &&& final(p).table@ == old(p).table@.update(pid, Slot { state: EXITED, exit_code: code as isize, ..old(p).table@[pid] })
            &&& final(ev).next == advanced(old(ev).next)
            &&& final(wire)@ == old(wire)@ + framed(exit_json(old(ev).next, pid as usize, code as isize, old(p).table@[pid].start_event))
        },
        final(p).current == old(p).current,
        final(p).snaps@ == old(p).snaps@,
        final(p).last_snap == old(p).last_snap,
        final(p).auto_fork == old(p).auto_fork,
        final(p).kernel_root == old(p).kernel_root,
{
    if p.current == NO_PID {
        return;
    }
    let pid = p.current;
    let mut slot = p.table[pid];
    slot.exit_code = code as isize;
    slot.state = EXITED;
    p.table.set(pid, slot);
    emit_exit(p, ev, wire, pid, code as isize);
}

/// The `payload_killed` event of a deadline kill.
#[verifier::opaque]
pub open spec fn killed_json(id: u64, pid: usize, elapsed: u64, deadline: u64, caused_by: u64) -> Seq<u8> {
    event_head(id, bytes_of("payload_killed")) + bytes_of(",\"pid\":") + dec(pid as nat)
        + bytes_of(",\"reason\":\"deadline\",\"elapsed\":") + dec(elapsed as nat)
        + bytes_of(",\"deadline\":") + dec(deadline as nat) + bytes_of(",\"caused_by\":") + dec(caused_by as nat)
        + bytes_of("}")
}

pub fn emit_killed(p: &Payloads, ev: &mut Events, wire: &mut Vec<u8>, pid: usize, elapsed: u64, deadline: u64)
    requires
        p.wf(),
        pid < MAX_PROC,
    ensures
        final(ev).next == advanced(old(ev).next),
        final(wire)@ == old(wire)@ + framed(killed_json(old(ev).next, pid, elapsed, deadline, p.table@[pid as int].start_event)),
{
    let id = next_id(ev);
    let mut v: Vec<u8> = Vec::new();
    push_event_head(&mut v, id, "payload_killed");
    push_str(&mut v, ",\"pid\":");
    push_dec(&mut v, pid as u64);
    push_str(&mut v, ",\"reason\":\"deadline\",\"elapsed\":");
    push_dec(&mut v, elapsed);
    push_str(&mut v, ",\"deadline\":");
    push_dec(&mut v, deadline);
    push_str(&mut v, ",\"caused_by\":");
    push_dec(&mut v, p.table[pid].start_event);
    push_str(&mut v, "}");
    assert(v@ =~= killed_json(id, pid, elapsed, deadline, p.table@[pid as int].start_event)) by { reveal(killed_json); }
    emit_json(wire, v.as_slice());
}

/// Timebase units a payload started at `started_at` has run by `now`.
pub open spec fn elapsed_since(now: u64, started_at: u64) -> u64 {
    if now >= started_at { (now - started_at) as u64 } else { 0 }
}

/// Whether the running payload has exhausted its instruction-count deadline
/// at time `now`: it is running, has a deadline, and has run past it.
pub open spec fn over_deadline(p: Payloads, now: u64) -> bool {
    &&& p.current != NO_PID
    &&& p.table@[p.current as int].state == RUNNING
    &&& p.table@[p.current as int].deadline != 0
    &&& elapsed_since(now, p.table@[p.current as int].started_at) > p.table@[p.current as int].deadline
}

/// The timer check (`now` is the timebase value). Returns true when the
/// running payload has exhausted its deadline: it is then marked killed and
/// a `payload_killed` event is emitted.
pub fn on_tick(p: &mut Payloads, ev: &mut Events, wire: &mut Vec<u8>, now: u64) -> (killed: bool)
    requires
        old(p).wf(),
    ensures
        final(p).wf(),
        killed == over_deadline(*old(p), now),
        !killed ==> *final(p) == *old(p) && *final(ev) == *old(ev) && final(wire)@ == old(wire)@,
        killed ==> {
            let pid = old(p).current as int;
            let slot = old(p).table@[pid];
            &&& final(p).table@ == old(p).table@.update(pid, Slot { state: KILLED, ..slot })
            &&& final(ev).next == advanced(old(ev).next)
            &&& final(wire)@ == old(wire)@ + framed(killed_json(old(ev).next, pid as usize,
                    elapsed_since(now, slot.started_at), slot.deadline, slot.start_event))
        },
        final(p).current == old(p).current,
        final(p).snaps@ == old(p).snaps@,
        final(p).last_snap == old(p).last_snap,
        final(p).auto_fork == old(p).auto_fork,
        final(p).kernel_root == old(p).kernel_root,
{
    let pid = match current_pid(p) {
        Some(x) => x,
        None => return false,
    };
    if p.table[pid].state != RUNNING {
        return false;
    }
    let deadline = p.table[pid].deadline;
    if deadline == 0 {
        return false;
    }
    let started = p.table[pid].started_at;
    let elapsed = if now >= started { now - started } else { 0 };
    if elapsed > deadline {
        let mut slot = p.table[pid];
        slot.state = KILLED;
        p.table.set(pid, slot);
        emit_killed(p, ev, wire, pid, elapsed, deadline);
        true
    } else {
        false
    }
}

/// The `payload_yield` event.
#[verifier::opaque]
pub open spec fn yield_json(id: u64, pid: usize) -> Seq<u8> {
    event_head(id, bytes_of("payload_yield")) + bytes_of(",\"pid\":") + dec(pid as nat) + bytes_of("}")
}

pub fn emit_yield(ev: &mut Events, wire: &mut Vec<u8>, pid: usize)
    ensures
        final(ev).next == advanced(old(ev).next),
        final(wire)@ == old(wire)@ + framed(yield_json(old(ev).next, pid)),
{
    let id = next_id(ev);
    let mut v: Vec<u8> = Vec::new();
    push_event_head(&mut v, id, "payload_yield");
    push_str(&mut v, ",\"pid\":");
    push_dec(&mut v, pid as u64);
    push_str(&mut v, "}");
    assert(v@ =~= yield_json(id, pid)) by { reveal(yield_json); }
    emit_json(wire, v.as_slice());
}

/// Cooperative yield; requires `Cap::Yield`. There is nothing to switch to,
/// so it emits an event and resumes the caller.
pub fn on_yield(p: &Payloads, ev: &mut Events, wire: &mut Vec<u8>) -> (r: isize)
    requires
        p.wf(),
    ensures
        !holds(*p, Cap::Yield) ==> r == crate::syscall::ENOCAP
            && final(ev).next == advanced(old(ev).next)
            && final(wire)@ == old(wire)@ + framed(denied_json(old(ev).next, p.current, bytes_of("yield"), bytes_of("yield"))),
        holds(*p, Cap::Yield) ==> r == 0
            && final(ev).next == advanced(old(ev).next)
            && final(wire)@ == old(wire)@ + framed(yield_json(old(ev).next, p.current)),
{
    if !current_has(p, Cap::Yield) {
        emit_denied(p, ev, wire, "yield", "yield");
        return crate::syscall::ENOCAP;
    }
    if let Some(pid) = current_pid(p) {
        emit_yield(ev, wire, pid);
    }
    0
}

/// The `payload_spawn` delegation event.
#[verifier::opaque]
pub open spec fn spawn_json(id: u64, parent: usize, child: usize, name: Seq<u8>, parent_caps: u32, requested: u32, granted: u32) -> Seq<u8> {
    event_head(id, bytes_of("payload_spawn")) + bytes_of(",\"parent\":") + dec(parent as nat)
        + bytes_of(",\"child\":") + dec(child as nat) + bytes_of(",\"name\":\"") + name
        + bytes_of("\",\"parent_caps\":") + caps_list(parent_caps)
        + bytes_of(",\"requested\":") + caps_list(requested)
        + bytes_of(",\"granted\":") + caps_list(granted)
        + bytes_of(",\"attenuated\":") + (if requested != granted { bytes_of("true") } else { bytes_of("false") })
        + bytes_of("}")
}

pub fn emit_spawn(ev: &mut Events, wire: &mut Vec<u8>, parent: usize, child: usize, name: &str, parent_caps: u32, requested: u32, granted: u32)
    ensures
        final(ev).next == advanced(old(ev).next),
        final(wire)@ == old(wire)@ + framed(spawn_json(old(ev).next, parent, child, bytes_of(name), parent_caps, requested, granted)),
{
    let id = next_id(ev);
    let mut v: Vec<u8> = Vec::new();
    push_event_head(&mut v, id, "payload_spawn");
    push_str(&mut v, ",\"parent\":");
    push_dec(&mut v, parent as u64);
    push_str(&mut v, ",\"child\":");
    push_dec(&mut v, child as u64);
    push_str(&mut v, ",\"name\":\"");
    push_str(&mut v, name);
    push_str(&mut v, "\",\"parent_caps\":");
    caps_json(&mut v, parent_caps);
    push_str(&mut v, ",\"requested\":");
    caps_json(&mut v, requested);
    push_str(&mut v, ",\"granted\":");
    caps_json(&mut v, granted);
    push_str(&mut v, ",\"attenuated\":");
    if requested != granted {
        push_str(&mut v, "true");
    } else {
        push_str(&mut v, "false");
    }
    push_str(&mut v, "}");
    assert(v@ =~= spawn_json(id, parent, child, bytes_of(name), parent_caps, requested, granted)) by { reveal(spawn_json); }
    emit_json(wire, v.as_slice());
}

/// The CapSet a spawn grants: what was asked, held by the parent, and allowed
/// by the image.
pub open spec fn granted_caps(requested: u32, parent_caps: u32, image: usize) -> u32 {
    requested & parent_caps & image_ceiling(image as int)
}

/// A successful spawn: the child takes the first empty slot as a pending
/// payload of the selected image with the attenuated CapSet, and the
/// delegation event is emitted.
pub open spec fn spawned(before: Payloads, after: Payloads, id: u64, next: u64, wire_before: Seq<u8>, wire_after: Seq<u8>,
    selector: usize, requested: u32, r: isize) -> bool {
    let image = spawnable(selector).unwrap();
    let parent = before.current;
    let parent_caps = before.table@[parent as int].caps;
    let granted = granted_caps(requested, parent_caps, image);
    let child = first_in_state(before.table@, EMPTY, 0).unwrap();
    &&& r == child
    &&& after.table@ == before.table@.update(child, enqueued(before.table@[child], image, granted, parent))
    &&& next == advanced(id)
    &&& wire_after == wire_before + framed(spawn_json(id, parent, child as usize, image_name_of(image as int), parent_caps, requested, granted))
}

/// Spawn a sub-payload; requires `Cap::Spawn`. The child's CapSet is
/// `requested & parent_caps & image_ceiling`. Returns the child pid or a
/// negative errno.
#[verifier::rlimit(40)]
pub fn on_spawn(p: &mut Payloads, ev: &mut Events, wire: &mut Vec<u8>, selector: usize, requested: u32) -> (r: isize)
    requires
        old(p).wf(),
    ensures
        final(p).wf(),
        final(p).current == old(p).current,
        final(p).snaps@ == old(p).snaps@,
        final(p).last_snap == old(p).last_snap,
        final(p).auto_fork == old(p).auto_fork,
        final(p).kernel_root == old(p).kernel_root,
        old(p).current == NO_PID ==> r == crate::syscall::EINVAL && final(p).table@ == old(p).table@
            && *final(ev) == *old(ev) && final(wire)@ == old(wire)@,
        old(p).current != NO_PID && !holds(*old(p), Cap::Spawn) ==> r == crate::syscall::ENOCAP
            && final(p).table@ == old(p).table@
            && final(ev).next == advanced(old(ev).next)
            && final(wire)@ == old(wire)@ + framed(denied_json(old(ev).next, old(p).current, bytes_of("spawn"), bytes_of("spawn"))),
        holds(*old(p), Cap::Spawn) && spawnable(selector) is None ==> r == crate::syscall::EINVAL
            && final(p).table@ == old(p).table@ && *final(ev) == *old(ev) && final(wire)@ == old(wire)@,
        holds(*old(p), Cap::Spawn) && spawnable(selector) is Some && first_in_state(old(p).table@, EMPTY, 0) is Some ==>
            spawned(*old(p), *final(p), old(ev).next, final(ev).next, old(wire)@, final(wire)@, selector, requested, r),
        holds(*old(p), Cap::Spawn) && spawnable(selector) is Some && first_in_state(old(p).table@, EMPTY, 0) is None ==>
            r == crate::syscall::EAGAIN && final(p).table@ == old(p).table@ && *final(ev) == *old(ev) && final(wire)@ == old(wire)@,
{
    let parent = match current_pid(p) {
        Some(x) => x,
        None => return crate::syscall::EINVAL,
    };
    if !current_has(p, Cap::Spawn) {
        emit_denied(p, ev, wire, "spawn", "spawn");
        return crate::syscall::ENOCAP;
    }
    let image = match spawnable_image(selector) {
        Some(i) => i,
        None => return crate::syscall::EINVAL,
    };
    let parent_caps = p.table[parent].caps;
    let granted = requested & parent_caps & image_caps(image);
    proof { lemma_caps_attenuate(requested, parent_caps, image_ceiling(image as int)); }
    let ghost p0 = *p;
    proof { lemma_first_in_state(p0.table@, EMPTY, 0); }
    let name = image_name(image);
    let res = enqueue(p, image, granted, parent);
    match res {
        Some(child) => {
            emit_spawn(ev, wire, parent, child, name, parent_caps, requested, granted);
            assert(first_in_state(p0.table@, EMPTY, 0) == Some(child as int));
            child as isize
        },
        None => crate::syscall::EAGAIN,
    }
}

/// Attenuation (P10): the CapSet a spawn grants never exceeds what the
/// parent holds, what was requested, or the child image's ceiling; so along
/// a delegation chain every CapSet lies within every ancestor's.
pub proof fn lemma_spawn_attenuates(requested: u32, parent_caps: u32, image: usize)
    ensures
        caps_within(granted_caps(requested, parent_caps, image), parent_caps),
        caps_within(granted_caps(requested, parent_caps, image), requested),
        caps_within(granted_caps(requested, parent_caps, image), image_ceiling(image as int)),
{
    lemma_caps_attenuate(requested, parent_caps, image_ceiling(image as int));
}

/// A delegation chain never re-widens: a grandchild granted from a child
/// granted from a parent holds nothing the parent lacks, whatever each hop
/// requests.
pub proof fn lemma_chain_never_widens(parent_caps: u32, req1: u32, img1: usize, req2: u32, img2: usize)
    ensures
        caps_within(granted_caps(req2, granted_caps(req1, parent_caps, img1), img2), parent_caps),
{
    let child = granted_caps(req1, parent_caps, img1);
    lemma_caps_attenuate(req1, parent_caps, image_ceiling(img1 as int));
    lemma_caps_attenuate(req2, child, image_ceiling(img2 as int));
    lemma_caps_within_trans(granted_caps(req2, child, img2), child, parent_caps);
}

/// The `payload_start` event.
#[verifier::opaque]
pub open spec fn start_json(id: u64, pid: usize, name: Seq<u8>, entry: usize, restored: bool, caused_by: Option<u64>, caps: u32) -> Seq<u8> {
    event_head(id, bytes_of("payload_start")) + bytes_of(",\"pid\":") + dec(pid as nat)
        + bytes_of(",\"name\":\"") + name + bytes_of("\",\"entry\":\"0x") + hex(entry as nat)
        + bytes_of("\",\"restored\":") + (if restored { bytes_of("true") } else { bytes_of("false") })
        + bytes_of(",\"caused_by\":") + (match caused_by { Some(e) => dec(e as nat), None => bytes_of("null") })
        + bytes_of(",\"caps\":") + caps_list(caps) + bytes_of("}")
}

/// The causal parent of a payload: its parent's start event, if it has a
/// parent.
pub open spec fn parent_cause(t: Seq<Slot>, pid: int) -> Option<u64> {
    if t[pid].parent == NO_PID { None } else { Some(t[t[pid].parent as int].start_event) }
}

/// Record `pid`'s start as the causal root of everything it does and emit
/// `payload_start`; a spawned child names its parent's start as its cause.
pub fn emit_start(p: &mut Payloads, ev: &mut Events, wire: &mut Vec<u8>, pid: usize, name: &str, caps: u32, entry: usize, restored: bool)
    requires
        old(p).wf(),
        pid < MAX_PROC,
    ensures
        final(p).wf(),
        final(p).table@ == old(p).table@.update(pid as int, Slot { start_event: old(ev).next, ..old(p).table@[pid as int] }),
        final(p).current == old(p).current,
        final(p).snaps@ == old(p).snaps@,
        final(p).last_snap == old(p).last_snap,
        final(p).auto_fork == old(p).auto_fork,
        final(p).kernel_root == old(p).kernel_root,
        final(ev).next == advanced(old(ev).next),
        final(wire)@ == old(wire)@ + framed(start_json(old(ev).next, pid, bytes_of(name), entry, restored,
            parent_cause(final(p).table@, pid as int), caps)),
{
    let ev_id = next_id(ev);
    let mut slot = p.table[pid];
    slot.start_event = ev_id;
    p.table.set(pid, slot);
    let parent = p.table[pid].parent;
    let mut v: Vec<u8> = Vec::new();
    push_event_head(&mut v, ev_id, "payload_start");
    push_str(&mut v, ",\"pid\":");
    push_dec(&mut v, pid as u64);
    push_str(&mut v, ",\"name\":\"");
    push_str(&mut v, name);
    push_str(&mut v, "\",\"entry\":\"0x");
    push_hex(&mut v, entry as u64);
    push_str(&mut v, "\",\"restored\":");
    if restored {
        push_str(&mut v, "true");
    } else {
        push_str(&mut v, "false");
    }
    push_str(&mut v, ",\"caused_by\":");
    if parent != NO_PID {
        push_dec(&mut v, p.table[parent].start_event);
    } else {
        push_str(&mut v, "null");
    }
    push_str(&mut v, ",\"caps\":");
    caps_json(&mut v, caps);
    push_str(&mut v, "}");
    assert(v@ =~= start_json(ev_id, pid, bytes_of(name), entry, restored, parent_cause(p.table@, pid as int), caps)) by {
        reveal(start_json);
    }
    emit_json(wire, v.as_slice());
}

/// The `snapshot` event.
#[verifier::opaque]
pub open spec fn snapshot_json(id: u64, pid: usize, snap: usize) -> Seq<u8> {
    event_head(id, bytes_of("snapshot")) + bytes_of(",\"pid\":") + dec(pid as nat)
        + bytes_of(",\"snapshot\":") + dec(snap as nat) + bytes_of("}")
}

pub fn emit_snapshot(ev: &mut Events, wire: &mut Vec<u8>, pid: usize, snap: usize)
    ensures
        final(ev).next == advanced(old(ev).next),
        final(wire)@ == old(wire)@ + framed(snapshot_json(old(ev).next, pid, snap)),
{
    let id = next_id(ev);
    let mut v: Vec<u8> = Vec::new();
    push_event_head(&mut v, id, "snapshot");
    push_str(&mut v, ",\"pid\":");
    push_dec(&mut v, pid as u64);
    push_str(&mut v, ",\"snapshot\":");
    push_dec(&mut v, snap as u64);
    push_str(&mut v, "}");
    assert(v@ =~= snapshot_json(id, pid, snap)) by { reveal(snapshot_json); }
    emit_json(wire, v.as_slice());
}

/// The `payload_load_fault` event.
#[verifier::opaque]
pub open spec fn load_fault_json(id: u64, pid: usize, name: Seq<u8>, reason: Seq<u8>) -> Seq<u8> {
    event_head(id, bytes_of("payload_load_fault")) + bytes_of(",\"pid\":") + dec(pid as nat)
        + bytes_of(",\"name\":\"") + name + bytes_of("\",\"reason\":\"") + reason + bytes_of("\"}")
}

pub fn emit_load_fault(ev: &mut Events, wire: &mut Vec<u8>, pid: usize, name: &str, reason: &str)
    ensures
        final(ev).next == advanced(old(ev).next),
        final(wire)@ == old(wire)@ + framed(load_fault_json(old(ev).next, pid, bytes_of(name), bytes_of(reason))),
{
    let id = next_id(ev);
    let mut v: Vec<u8> = Vec::new();
    push_event_head(&mut v, id, "payload_load_fault");
    push_str(&mut v, ",\"pid\":");
    push_dec(&mut v, pid as u64);
    push_str(&mut v, ",\"name\":\"");
    push_str(&mut v, name);
    push_str(&mut v, "\",\"reason\":\"");
    push_str(&mut v, reason);
    push_str(&mut v, "\"}");
    assert(v@ =~= load_fault_json(id, pid, bytes_of(name), bytes_of(reason))) by { reveal(load_fault_json); }
    emit_json(wire, v.as_slice());
}

/// How many of the first `n` slots are in state `st`.
pub open spec fn count_state(t: Seq<Slot>, st: u8, n: int) -> nat
    decreases n,
{
    if n <= 0 { 0 } else { count_state(t, st, n - 1) + (if t[n - 1].state == st { 1nat } else { 0nat }) }
}

/// The `suite_done` event.
#[verifier::opaque]
pub open spec fn suite_done_json(id: u64, exited: nat, faulted: nat, killed: nat) -> Seq<u8> {
    event_head(id, bytes_of("suite_done")) + bytes_of(",\"exited\":") + dec(exited)
        + bytes_of(",\"faulted\":") + dec(faulted) + bytes_of(",\"killed\":") + dec(killed) + bytes_of("}")
}

/// Announce that a suite drained, with how its payloads ended.
pub fn emit_suite_done(p: &Payloads, ev: &mut Events, wire: &mut Vec<u8>)
    requires
        p.wf(),
    ensures
        final(ev).next == advanced(old(ev).next),
        final(wire)@ == old(wire)@ + framed(suite_done_json(old(ev).next,
            count_state(p.table@, EXITED, MAX_PROC as int), count_state(p.table@, FAULTED, MAX_PROC as int),
            count_state(p.table@, KILLED, MAX_PROC as int))),
{
    let mut exited: u64 = 0;
    let mut faulted: u64 = 0;
    let mut killed: u64 = 0;
    let mut k: usize = 0;
    while k < MAX_PROC
        invariant
            p.wf(),
            k <= MAX_PROC,
            exited == count_state(p.table@, EXITED, k as int),
            faulted == count_state(p.table@, FAULTED, k as int),
            killed == count_state(p.table@, KILLED, k as int),
            exited <= k && faulted <= k && killed <= k,
        decreases MAX_PROC - k,
    {
        let st = p.table[k].state;
        if st == EXITED {
            exited += 1;
        } else if st == FAULTED {
            faulted += 1;
        } else if st == KILLED {
            killed += 1;
        }
        k += 1;
    }
    let id = next_id(ev);
    let mut v: Vec<u8> = Vec::new();
    push_event_head(&mut v, id, "suite_done");
    push_str(&mut v, ",\"exited\":");
    push_dec(&mut v, exited);
    push_str(&mut v, ",\"faulted\":");
    push_dec(&mut v, faulted);
    push_str(&mut v, ",\"killed\":");
    push_dec(&mut v, killed);
    push_str(&mut v, "}");
    assert(v@ =~= suite_done_json(id, exited as nat, faulted as nat, killed as nat)) by { reveal(suite_done_json); }
    emit_json(wire, v.as_slice());
}

/// The row of slot `pid` in the `processes` resource.
#[verifier::opaque]
pub open spec fn process_row(pid: int, s: Slot) -> Seq<u8> {
    bytes_of("{\"pid\":") + dec(pid as nat) + bytes_of(",\"name\":\"")
        + (if s.image < NUM_IMAGES { image_name_of(s.image as int) } else { bytes_of("?") })
        + bytes_of("\",\"state\":\"") + state_text(s.state) + bytes_of("\",\"exit_code\":")
        + sdec(s.exit_code as int) + bytes_of(",\"caps\":") + caps_list(s.caps) + bytes_of("}")
}

/// The rows of the non-empty slots among the first `n`, comma-separated.
pub open spec fn process_rows(t: Seq<Slot>, n: int) -> Seq<u8>
    decreases n,
{
    if n <= 0 {
        Seq::empty()
    } else if t[n - 1].state == EMPTY {
        process_rows(t, n - 1)
    } else if process_rows(t, n - 1).len() == 0 {
        process_row(n - 1, t[n - 1])
    } else {
        process_rows(t, n - 1) + bytes_of(",") + process_row(n - 1, t[n - 1])
    }
}

/// The `processes` resource body.
pub open spec fn process_table_json(t: Seq<Slot>) -> Seq<u8> {
    bytes_of("{\"processes\":[") + process_rows(t, MAX_PROC as int) + bytes_of("]}")
}

pub proof fn lemma_process_row_nonempty(pid: int, s: Slot)
    ensures
        process_row(pid, s).len() > 0,
{
    reveal(process_row);
    reveal_strlit("}");
}

fn push_process_row(v: &mut Vec<u8>, pid: usize, slot: Slot)
    ensures
        final(v)@ == old(v)@ + process_row(pid as int, slot),
{
    push_str(v, "{\"pid\":");
    push_dec(v, pid as u64);
    push_str(v, ",\"name\":\"");
    if slot.image < NUM_IMAGES {
        push_str(v, image_name(slot.image));
    } else {
        push_str(v, "?");
    }
    push_str(v, "\",\"state\":\"");
    push_str(v, state_name(slot.state));
    push_str(v, "\",\"exit_code\":");
    push_i64(v, slot.exit_code as i64);
    push_str(v, ",\"caps\":");
    caps_json(v, slot.caps);
    push_str(v, "}");
    assert(v@ =~= old(v)@ + process_row(pid as int, slot)) by { reveal(process_row); }
}

/// The process table as an MCP resource body: every non-empty slot with its
/// pid, image name, state, exit code and CapSet.
pub fn write_process_table(p: &Payloads, f: &mut FrameBuf) -> (r: Result<(), FmtError>)
    requires
        p.wf(),
        old(f).wf(),
    ensures
        final(f).wf(),
        wrote(*old(f), *final(f), process_table_json(p.table@)),
        r.is_ok() == fits(*old(f), process_table_json(p.table@)),
{
    let mut v: Vec<u8> = Vec::new();
    push_str(&mut v, "{\"processes\":[");
    let mut first = true;
    let mut pid: usize = 0;
    while pid < MAX_PROC
        invariant
            p.wf(),
            pid <= MAX_PROC,
            v@ == bytes_of("{\"processes\":[") + process_rows(p.table@, pid as int),
            first == (process_rows(p.table@, pid as int).len() == 0),
        decreases MAX_PROC - pid,
    {
        let slot = p.table[pid];
        if slot.state != EMPTY {
            let ghost before = v@;
            if !first {
                push_str(&mut v, ",");
            }
            first = false;
            push_process_row(&mut v, pid, slot);
            proof {
                lemma_process_row_nonempty(pid as int, slot);
                assert(v@ =~= bytes_of("{\"processes\":[") + process_rows(p.table@, pid + 1));
            }
        }
        pid += 1;
    }
    push_str(&mut v, "]}");
    assert(v@ =~= process_table_json(p.table@));
    f.write_bytes(v.as_slice())
}

/// One syscall-table entry of the `spec` resource.
pub open spec fn syscall_entry(num: u64, name: Seq<u8>) -> Seq<u8> {
    bytes_of("{\"num\":") + dec(num as nat) + bytes_of(",\"name\":\"") + name + bytes_of("\"}")
}

/// One capability entry of the `spec` resource.
pub open spec fn cap_entry(name: Seq<u8>, bit: u32) -> Seq<u8> {
    bytes_of("{\"name\":\"") + name + bytes_of("\",\"bit\":") + dec(bit as nat) + bytes_of("}")
}

/// The self-describing surface: the syscall table, the capability lattice
/// and the memory map.
#[verifier::opaque]
pub open spec fn spec_json() -> Seq<u8> {
    bytes_of("{\"proto\":0,\"arch\":\"riscv64\",\"syscalls\":[")
        + syscall_entry(SYS_EXIT, bytes_of("exit")) + bytes_of(",") + syscall_entry(SYS_WRITE, bytes_of("write"))
        + bytes_of(",") + syscall_entry(SYS_YIELD, bytes_of("yield")) + bytes_of(",")
        + syscall_entry(SYS_SPAWN, bytes_of("spawn")) + bytes_of(",") + syscall_entry(SYS_SNAPSHOT, bytes_of("snapshot"))
        + bytes_of("],\"caps\":[") + cap_entry(bytes_of("write"), CAP_WRITE) + bytes_of(",")
        + cap_entry(bytes_of("yield"), CAP_YIELD) + bytes_of(",") + cap_entry(bytes_of("spawn"), CAP_SPAWN)
        + bytes_of("],\"memory\":{\"kernel_base\":\"0x80200000\",\"pool_base\":\"0x")
        + hex(crate::phys::POOL_BASE as nat) + bytes_of("\",\"pool_end\":\"0x") + hex(crate::phys::POOL_END as nat)
        + bytes_of("\"}}")
}

fn push_syscall_entry(v: &mut Vec<u8>, num: u64, name: &str)
    ensures
        final(v)@ == old(v)@ + syscall_entry(num, bytes_of(name)),
{
    push_str(v, "{\"num\":");
    push_dec(v, num);
    push_str(v, ",\"name\":\"");
    push_str(v, name);
    push_str(v, "\"}");
    assert(v@ =~= old(v)@ + syscall_entry(num, bytes_of(name)));
}

fn push_cap_entry(v: &mut Vec<u8>, name: &str, bit: u32)
    ensures
        final(v)@ == old(v)@ + cap_entry(bytes_of(name), bit),
{
    push_str(v, "{\"name\":\"");
    push_str(v, name);
    push_str(v, "\",\"bit\":");
    push_dec(v, bit as u64);
    push_str(v, "}");
    assert(v@ =~= old(v)@ + cap_entry(bytes_of(name), bit));
}

/// The `spec` resource: the kernel describing its own ABI.
pub fn write_spec(f: &mut FrameBuf) -> (r: Result<(), FmtError>)
    requires
        old(f).wf(),
    ensures
        final(f).wf(),
        wrote(*old(f), *final(f), spec_json()),
        r.is_ok() == fits(*old(f), spec_json()),
{
    let mut v: Vec<u8> = Vec::new();
    push_str(&mut v, "{\"proto\":0,\"arch\":\"riscv64\",\"syscalls\":[");
    push_syscall_entry(&mut v, SYS_EXIT, "exit");
    push_str(&mut v, ",");
    push_syscall_entry(&mut v, SYS_WRITE, "write");
    push_str(&mut v, ",");
    push_syscall_entry(&mut v, SYS_YIELD, "yield");
    push_str(&mut v, ",");
    push_syscall_entry(&mut v, SYS_SPAWN, "spawn");
    push_str(&mut v, ",");
    push_syscall_entry(&mut v, SYS_SNAPSHOT, "snapshot");
    push_str(&mut v, "],\"caps\":[");
    push_cap_entry(&mut v, "write", CAP_WRITE);
    push_str(&mut v, ",");
    push_cap_entry(&mut v, "yield", CAP_YIELD);
    push_str(&mut v, ",");
    push_cap_entry(&mut v, "spawn", CAP_SPAWN);
    push_str(&mut v, "],\"memory\":{\"kernel_base\":\"0x80200000\",\"pool_base\":\"0x");
    push_hex(&mut v, crate::phys::POOL_BASE as u64);
    push_str(&mut v, "\",\"pool_end\":\"0x");
    push_hex(&mut v, crate::phys::POOL_END as u64);
    push_str(&mut v, "\"}}");
    assert(v@ =~= spec_json()) by { reveal(spec_json); }
    f.write_bytes(v.as_slice())
}


// ---- The running payload's memory ----------------------------------------------

/// The address space of the running payload, if one runs and has one.
pub open spec fn current_root(p: Payloads) -> Option<usize> {
    if p.current == NO_PID || p.table@[p.current as int].root == 0 { None }
    else { Some(p.table@[p.current as int].root) }
}

/// The running payload's address space, if one is running.
pub fn current_space(p: &Payloads) -> (r: Option<AddressSpace>)
    requires
        p.wf(),
    ensures
        match r {
            Some(s) => current_root(*p) == Some(s.root_pa()),
            None => current_root(*p) is None,
        },
{
    let pid = match current_pid(p) {
        Some(x) => x,
        None => return None,
    };
    let root = p.table[pid].root;
    if root != 0 { Some(AddressSpace::from_root(root)) } else { None }
}

/// The walk of `va` in the running payload's table (for the fault frame);
/// None when no payload with a table is running.
pub fn current_pagewalk(p: &Payloads, mem: &PhysMem, va: usize) -> (r: Option<WalkChain>)
    requires
        p.wf(),
        mem.wf(),
    ensures
        match current_root(*p) {
            Some(root) => r matches Some(w) && w.wf() && w.pairs() == walk_chain(mem@, root as u64, va, 2),
            None => r is None,
        },
{
    match current_space(p) {
        Some(s) => Some(s.walk(mem, va)),
        None => None,
    }
}

/// The start event of the running payload: the causal parent of its fault.
pub fn current_cause(p: &Payloads) -> (r: Option<u64>)
    requires
        p.wf(),
    ensures
        r == (if p.current == NO_PID { None } else { Some(p.table@[p.current as int].start_event) }),
{
    match current_pid(p) {
        Some(pid) => Some(p.table[pid].start_event),
        None => None,
    }
}

/// The `payload_output` event: the bytes confined to a JSON string and
/// tagged untrusted.
#[verifier::opaque]
pub open spec fn output_json(id: u64, pid: usize, caused_by: u64, data: Seq<u8>) -> Seq<u8> {
    event_head(id, bytes_of("payload_output")) + bytes_of(",\"pid\":") + dec(pid as nat)
        + bytes_of(",\"untrusted\":true,\"caused_by\":") + dec(caused_by as nat)
        + bytes_of(",\"len\":") + dec(data.len()) + bytes_of(",\"data\":\"") + escaped(data) + bytes_of("\"}")
}

/// The `len` bytes of user memory at `ptr` in the table at `root`.
pub open spec fn user_bytes(m: Seq<u8>, root: usize, ptr: usize, len: int) -> Seq<u8> {
    Seq::new(len as nat, |k: int| user_byte(m, root, ptr, k).unwrap())
}

/// Every byte of `[ptr, ptr + len)` is mapped to the pool.
pub open spec fn user_readable(m: Seq<u8>, root: usize, ptr: usize, len: int) -> bool {
    &&& ptr + len <= usize::MAX + 1
    &&& forall|k: int| 0 <= k < len ==> #[trigger] user_byte(m, root, ptr, k) is Some
}

/// Copy `min(len, WRITE_QUOTA)` bytes of payload memory at `ptr` through the
/// payload's own table and emit them as an untrusted output event. Err when
/// no payload with a table runs or a byte is unmapped (never a kernel read).
pub fn emit_output(p: &Payloads, mem: &PhysMem, ev: &mut Events, wire: &mut Vec<u8>, ptr: usize, len: usize)
    -> (r: Result<(), ()>)
    requires
        p.wf(),
        mem.wf(),
    ensures
        ({
            let n = if len < WRITE_QUOTA { len as int } else { WRITE_QUOTA as int };
            &&& r is Ok <==> (current_root(*p) matches Some(root) && user_readable(mem@, root, ptr, n))
            &&& r is Ok ==> final(ev).next == advanced(old(ev).next)
                && final(wire)@ == old(wire)@ + framed(output_json(old(ev).next, p.current,
                    p.table@[p.current as int].start_event, user_bytes(mem@, current_root(*p).unwrap(), ptr, n)))
            &&& r is Err ==> *final(ev) == *old(ev) && final(wire)@ == old(wire)@
        }),
{
    let n = if len < WRITE_QUOTA { len } else { WRITE_QUOTA };
    let space = match current_space(p) {
        Some(s) => s,
        None => return Err(()),
    };
    if n > 0 && ptr > usize::MAX - (n - 1) {
        return Err(());
    }
    let mut buf: Vec<u8> = vec![0u8; n];
    if !space.copy_from_user(mem, ptr, &mut buf) {
        return Err(());
    }
    let pid = p.current;
    let caused_by = p.table[pid].start_event;
    let id = next_id(ev);
    let mut v: Vec<u8> = Vec::new();
    push_event_head(&mut v, id, "payload_output");
    push_str(&mut v, ",\"pid\":");
    push_dec(&mut v, pid as u64);
    push_str(&mut v, ",\"untrusted\":true,\"caused_by\":");
    push_dec(&mut v, caused_by);
    push_str(&mut v, ",\"len\":");
    push_dec(&mut v, n as u64);
    push_str(&mut v, ",\"data\":\"");
    push_escaped(&mut v, buf.as_slice());
    push_str(&mut v, "\"}");
    proof {
        assert(buf@ =~= user_bytes(mem@, space.root_pa(), ptr, n as int));
    }
    assert(v@ =~= output_json(id, pid, caused_by, buf@)) by { reveal(output_json); }
    emit_json(wire, v.as_slice());
    Ok(())
}

// ---- Reaping ---------------------------------------------------------------------

/// A payload that has reached a terminal state.
pub open spec fn terminal(st: u8) -> bool {
    st == EXITED || st == FAULTED || st == KILLED
}

/// The frames an address space rooted at `root` owns (none for root 0).
pub open spec fn space_pas(m: Seq<u8>, root: usize) -> Set<int> {
    if root == 0 { Set::empty() } else { root_pas(m, root, 512).insert(root as int) }
}

/// What reaping a terminal slot frees: its address space and its saved
/// resume frame.
pub open spec fn slot_pas(m: Seq<u8>, s: Slot) -> Set<int> {
    if terminal(s.state) {
        space_pas(m, s.root).union(if s.resume_frame != 0 { set![s.resume_frame as int] } else { Set::empty() })
    } else {
        Set::empty()
    }
}

/// What reaping the first `n` slots frees.
pub open spec fn reaped_pas(m: Seq<u8>, t: Seq<Slot>, n: int) -> Set<int>
    decreases n,
{
    if n <= 0 { Set::empty() } else { reaped_pas(m, t, n - 1).union(slot_pas(m, t[n - 1])) }
}

/// Free an address space and a frame if they are set (0 = none).
fn release(fa: &mut FrameAllocator, mem: &PhysMem, root: usize, frame: usize)
    requires
        old(fa).wf(),
        mem.wf(),
    ensures
        final(fa).wf(),
        final(fa).frames() == without_pas(old(fa).frames(),
            space_pas(mem@, root).union(if frame != 0 { set![frame as int] } else { Set::empty() })),
{
    let ghost f0 = fa.frames();
    if root != 0 {
        AddressSpace::from_root(root).destroy(fa, mem);
    } else {
        assert(fa.frames() =~= without_pas(f0, Set::empty()));
    }
    let ghost f1 = fa.frames();
    if frame != 0 {
        let ghost a1 = *fa;
        free(fa, frame);
        proof { lemma_free_drops(a1, *fa, frame); }
    } else {
        assert(fa.frames() =~= without_pas(f1, Set::empty()));
    }
    proof {
        lemma_without_union(f0, space_pas(mem@, root), if frame != 0 { set![frame as int] } else { Set::<int>::empty() });
    }
}

/// Free the address space and saved resume frame of every payload that has
/// reached a terminal state, and clear them from its slot.
pub fn reap_terminated(p: &mut Payloads, fa: &mut FrameAllocator, mem: &PhysMem)
    requires
        old(p).wf(),
        old(fa).wf(),
        mem.wf(),
    ensures
        final(p).wf(),
        final(fa).wf(),
        final(fa).frames() == without_pas(old(fa).frames(), reaped_pas(mem@, old(p).table@, MAX_PROC as int)),
        final(p).table@ == Seq::new(MAX_PROC as nat, |k: int| if terminal(old(p).table@[k].state) {
            Slot { root: 0, resume_frame: 0, ..old(p).table@[k] } } else { old(p).table@[k] }),
        final(p).current == old(p).current,
        final(p).snaps@ == old(p).snaps@,
        final(p).last_snap == old(p).last_snap,
        final(p).auto_fork == old(p).auto_fork,
        final(p).kernel_root == old(p).kernel_root,
{
    let ghost t0 = p.table@;
    let ghost f0 = fa.frames();
    let mut pid: usize = 0;
    while pid < MAX_PROC
        invariant
            p.wf(),
            fa.wf(),
            mem.wf(),
            pid <= MAX_PROC,
            t0.len() == MAX_PROC,
            forall|k: int| pid <= k < MAX_PROC ==> #[trigger] p.table@[k] == t0[k],
            forall|k: int| 0 <= k < pid ==> #[trigger] p.table@[k] == (if terminal(t0[k].state) {
                Slot { root: 0, resume_frame: 0, ..t0[k] } } else { t0[k] }),
            fa.frames() == without_pas(f0, reaped_pas(mem@, t0, pid as int)),
            p.current == old(p).current,
            p.snaps@ == old(p).snaps@,
            p.last_snap == old(p).last_snap,
            p.auto_fork == old(p).auto_fork,
            p.kernel_root == old(p).kernel_root,
        decreases MAX_PROC - pid,
    {
        let slot = p.table[pid];
        let ghost fb = fa.frames();
        if slot.state == EXITED || slot.state == FAULTED || slot.state == KILLED {
            release(fa, mem, slot.root, slot.resume_frame);
            let mut s2 = slot;
            s2.root = 0;
            s2.resume_frame = 0;
            p.table.set(pid, s2);
        } else {
            assert(fa.frames() =~= without_pas(fb, Set::empty()));
        }
        proof {
            lemma_without_union(f0, reaped_pas(mem@, t0, pid as int), slot_pas(mem@, t0[pid as int]));
        }
        pid += 1;
    }
    assert(p.table@ =~= Seq::new(MAX_PROC as nat, |k: int| if terminal(t0[k].state) {
        Slot { root: 0, resume_frame: 0, ..t0[k] } } else { t0[k] }));
}

/// What freeing the first `n` snapshots frees: each valid one's address
/// space and saved frame.
pub open spec fn snaps_pas(m: Seq<u8>, s: Seq<Snapshot>, n: int) -> Set<int>
    decreases n,
{
    if n <= 0 { Set::empty() } else {
        let x = s[n - 1];
        snaps_pas(m, s, n - 1).union(if x.valid {
            space_pas(m, x.root).union(if x.frame != 0 { set![x.frame as int] } else { Set::empty() })
        } else { Set::empty() })
    }
}

/// Free every snapshot (its address space and saved frame) and invalidate it.
pub fn free_snapshots(p: &mut Payloads, fa: &mut FrameAllocator, mem: &PhysMem)
    requires
        old(p).wf(),
        old(fa).wf(),
        mem.wf(),
    ensures
        final(p).wf(),
        final(fa).wf(),
        final(fa).frames() == without_pas(old(fa).frames(), snaps_pas(mem@, old(p).snaps@, MAX_SNAP as int)),
        forall|k: int| 0 <= k < MAX_SNAP ==> {
            let s0 = old(p).snaps@[k];
            #[trigger] final(p).snaps@[k] == (if s0.valid { Snapshot { valid: false, root: 0, frame: 0, ..s0 } } else { s0 })
        },
        final(p).snaps@.len() == MAX_SNAP,
        final(p).table@ == old(p).table@,
        final(p).current == old(p).current,
        final(p).last_snap == old(p).last_snap,
        final(p).auto_fork == old(p).auto_fork,
        final(p).kernel_root == old(p).kernel_root,
{
    let ghost s0 = p.snaps@;
    let ghost f0 = fa.frames();
    let mut k: usize = 0;
    while k < MAX_SNAP
        invariant
            p.wf(),
            fa.wf(),
            mem.wf(),
            k <= MAX_SNAP,
            s0.len() == MAX_SNAP,
            forall|j: int| k <= j < MAX_SNAP ==> #[trigger] p.snaps@[j] == s0[j],
            forall|j: int| 0 <= j < k ==> #[trigger] p.snaps@[j] == (if s0[j].valid {
                Snapshot { valid: false, root: 0, frame: 0, ..s0[j] } } else { s0[j] }),
            fa.frames() == without_pas(f0, snaps_pas(mem@, s0, k as int)),
            p.table@ == old(p).table@,
            p.current == old(p).current,
            p.last_snap == old(p).last_snap,
            p.auto_fork == old(p).auto_fork,
            p.kernel_root == old(p).kernel_root,
        decreases MAX_SNAP - k,
    {
        let snap = p.snaps[k];
        let ghost fb = fa.frames();
        if snap.valid {
            release(fa, mem, snap.root, snap.frame);
            let mut s2 = snap;
            s2.valid = false;
            s2.root = 0;
            s2.frame = 0;
            p.snaps.set(k, s2);
        } else {
            assert(fa.frames() =~= without_pas(fb, Set::empty()));
        }
        proof {
            let here = if snap.valid {
                space_pas(mem@, snap.root).union(if snap.frame != 0 { set![snap.frame as int] } else { Set::<int>::empty() })
            } else { Set::<int>::empty() };
            lemma_without_union(f0, snaps_pas(mem@, s0, k as int), here);
        }
        k += 1;
    }
}

/// Empty the process table and the checkpoint store for a new suite.
pub fn clear_table(p: &mut Payloads, fa: &mut FrameAllocator, mem: &PhysMem)
    requires
        old(p).wf(),
        old(fa).wf(),
        mem.wf(),
    ensures
        final(p).wf(),
        final(fa).wf(),
        final(fa).frames() == without_pas(old(fa).frames(), snaps_pas(mem@, old(p).snaps@, MAX_SNAP as int)),
        forall|k: int| 0 <= k < MAX_PROC ==> #[trigger] final(p).table@[k] == (Slot { state: EMPTY, ..old(p).table@[k] }),
        forall|k: int| 0 <= k < MAX_SNAP ==> !(#[trigger] final(p).snaps@[k]).valid,
        final(p).auto_fork == 0,
        final(p).last_snap == 0,
        final(p).current == old(p).current,
        final(p).kernel_root == old(p).kernel_root,
{
    let ghost t0 = p.table@;
    let mut pid: usize = 0;
    while pid < MAX_PROC
        invariant
            p.wf(),
            pid <= MAX_PROC,
            t0 == old(p).table@,
            forall|k: int| pid <= k < MAX_PROC ==> #[trigger] p.table@[k] == t0[k],
            forall|k: int| 0 <= k < pid ==> #[trigger] p.table@[k] == (Slot { state: EMPTY, ..t0[k] }),
            p.snaps@ == old(p).snaps@,
            p.current == old(p).current,
            p.last_snap == old(p).last_snap,
            p.auto_fork == old(p).auto_fork,
            p.kernel_root == old(p).kernel_root,
        decreases MAX_PROC - pid,
    {
        let mut slot = p.table[pid];
        slot.state = EMPTY;
        p.table.set(pid, slot);
        pid += 1;
    }
    free_snapshots(p, fa, mem);
    p.auto_fork = 0;
    p.last_snap = 0;
}

/// The first slot in state `st` from `j` is `i` when none before it is.
pub proof fn lemma_first_is(t: Seq<Slot>, st: u8, i: int, j: int)
    requires
        0 <= j <= i < t.len(),
        t[i].state == st,
        forall|m: int| j <= m < i ==> t[m].state != st,
    ensures
        first_in_state(t, st, j) == Some(i),
    decreases i - j,
{
    if j < i {
        lemma_first_is(t, st, i, j + 1);
    }
}

/// The table after a suite of `images` is seeded: the first slots hold the
/// images pending in order, with their full ceilings and no parent; the
/// rest are empty. The checkpoint store is freed and no forks are owed.
pub open spec fn seeded(before: Payloads, after: Payloads, images: Seq<usize>) -> bool {
    &&& forall|k: int| 0 <= k < images.len() ==> #[trigger] after.table@[k] == enqueued(
            (Slot { state: EMPTY, ..before.table@[k] }), images[k], image_ceiling(images[k] as int), NO_PID)
    &&& forall|k: int| images.len() <= k < MAX_PROC ==> #[trigger] after.table@[k] == (Slot { state: EMPTY, ..before.table@[k] })
    &&& forall|k: int| 0 <= k < MAX_SNAP ==> !(#[trigger] after.snaps@[k]).valid
    &&& after.last_snap == 0
    &&& after.current == before.current
    &&& after.kernel_root == before.kernel_root
}

/// Clear the table, free the checkpoints, and queue `images` in order.
fn seed_images(p: &mut Payloads, fa: &mut FrameAllocator, mem: &PhysMem, images: &[usize])
    requires
        old(p).wf(),
        old(fa).wf(),
        mem.wf(),
        images@.len() <= MAX_PROC,
        forall|k: int| 0 <= k < images@.len() ==> #[trigger] images@[k] < NUM_IMAGES,
    ensures
        final(p).wf(),
        final(fa).wf(),
        final(fa).frames() == without_pas(old(fa).frames(), snaps_pas(mem@, old(p).snaps@, MAX_SNAP as int)),
        seeded(*old(p), *final(p), images@),
        final(p).auto_fork == 0,
{
    clear_table(p, fa, mem);
    let ghost t1 = p.table@;
    let mut i: usize = 0;
    while i < images.len()
        invariant
            p.wf(),
            images@.len() <= MAX_PROC,
            forall|k: int| 0 <= k < images@.len() ==> #[trigger] images@[k] < NUM_IMAGES,
            i <= images@.len(),
            t1.len() == MAX_PROC,
            forall|k: int| 0 <= k < MAX_PROC ==> #[trigger] t1[k] == (Slot { state: EMPTY, ..old(p).table@[k] }),
            forall|k: int| 0 <= k < i ==> #[trigger] p.table@[k] == enqueued(t1[k], images@[k], image_ceiling(images@[k] as int), NO_PID),
            forall|k: int| i <= k < MAX_PROC ==> #[trigger] p.table@[k] == t1[k],
            forall|k: int| 0 <= k < MAX_SNAP ==> !(#[trigger] p.snaps@[k]).valid,
            p.auto_fork == 0,
            p.last_snap == 0,
            p.current == old(p).current,
            p.kernel_root == old(p).kernel_root,
        decreases images@.len() - i,
    {
        let ghost tb = p.table@;
        proof {
            assert(tb[i as int].state == EMPTY);
            assert forall|j: int| 0 <= j < i implies tb[j].state != EMPTY by {
                assert(tb[j] == enqueued(t1[j], images@[j], image_ceiling(images@[j] as int), NO_PID));
            }
            lemma_first_is(tb, EMPTY, i as int, 0);
        }
        enqueue(p, images[i], image_caps(images[i]), NO_PID);
        i += 1;
    }
}

/// Suite m3: a clean payload and a crashing one.
pub fn seed_suite_m3(p: &mut Payloads, fa: &mut FrameAllocator, mem: &PhysMem)
    requires
        old(p).wf(),
        old(fa).wf(),
        mem.wf(),
    ensures
        final(p).wf(),
        final(fa).wf(),
        final(fa).frames() == without_pas(old(fa).frames(), snaps_pas(mem@, old(p).snaps@, MAX_SNAP as int)),
        seeded(*old(p), *final(p), seq![IMG_HELLO, IMG_CRASHER]),
        final(p).auto_fork == 0,
{
    let images: [usize; 2] = [IMG_HELLO, IMG_CRASHER];
    seed_images(p, fa, mem, &images);
    assert(images@ == seq![IMG_HELLO, IMG_CRASHER]);
}

/// Suite m4: capability enforcement, spawn attenuation and a deadline kill.
pub fn seed_suite_m4(p: &mut Payloads, fa: &mut FrameAllocator, mem: &PhysMem)
    requires
        old(p).wf(),
        old(fa).wf(),
        mem.wf(),
    ensures
        final(p).wf(),
        final(fa).wf(),
        final(fa).frames() == without_pas(old(fa).frames(), snaps_pas(mem@, old(p).snaps@, MAX_SNAP as int)),
        seeded(*old(p), *final(p), seq![IMG_MUZZLED, IMG_SPAWNER, IMG_RUNAWAY]),
        final(p).auto_fork == 0,
{
    let images: [usize; 3] = [IMG_MUZZLED, IMG_SPAWNER, IMG_RUNAWAY];
    seed_images(p, fa, mem, &images);
    assert(images@ == seq![IMG_MUZZLED, IMG_SPAWNER, IMG_RUNAWAY]);
}

/// Suite m5: memory isolation. A reach into kernel memory and a write to
/// its own code both fault; a clean payload then shows the kernel intact.
pub fn seed_suite_m5(p: &mut Payloads, fa: &mut FrameAllocator, mem: &PhysMem)
    requires
        old(p).wf(),
        old(fa).wf(),
        mem.wf(),
    ensures
        final(p).wf(),
        final(fa).wf(),
        final(fa).frames() == without_pas(old(fa).frames(), snaps_pas(mem@, old(p).snaps@, MAX_SNAP as int)),
        seeded(*old(p), *final(p), seq![IMG_WILD, IMG_WXVIOL, IMG_LEAKER, IMG_HELLO]),
        final(p).auto_fork == 0,
{
    let images: [usize; 4] = [IMG_WILD, IMG_WXVIOL, IMG_LEAKER, IMG_HELLO];
    seed_images(p, fa, mem, &images);
    assert(images@ == seq![IMG_WILD, IMG_WXVIOL, IMG_LEAKER, IMG_HELLO]);
}

/// Suite m6: checkpoint and fork. The forker checkpoints itself; after it
/// exits the kernel owes two continuations of that checkpoint.
pub fn seed_suite_m6(p: &mut Payloads, fa: &mut FrameAllocator, mem: &PhysMem)
    requires
        old(p).wf(),
        old(fa).wf(),
        mem.wf(),
    ensures
        final(p).wf(),
        final(fa).wf(),
        final(fa).frames() == without_pas(old(fa).frames(), snaps_pas(mem@, old(p).snaps@, MAX_SNAP as int)),
        seeded(*old(p), *final(p), seq![IMG_FORKER]),
        final(p).auto_fork == 2,
{
    let images: [usize; 1] = [IMG_FORKER];
    seed_images(p, fa, mem, &images);
    assert(images@ == seq![IMG_FORKER]);
    p.auto_fork = 2;
}


/// The `payload_killed` event of an operator kill; `caused_by` is null for a
/// payload killed before its start event.
#[verifier::opaque]
pub open spec fn operator_killed_json(id: u64, pid: usize, elapsed: u64, caused_by: Option<u64>) -> Seq<u8> {
    event_head(id, bytes_of("payload_killed")) + bytes_of(",\"pid\":") + dec(pid as nat)
        + bytes_of(",\"reason\":\"operator\",\"elapsed\":") + dec(elapsed as nat)
        + bytes_of(",\"caused_by\":") + (match caused_by { Some(e) => dec(e as nat), None => bytes_of("null") })
        + bytes_of("}")
}

/// A payload that is still pending or running.
pub open spec fn live(p: Payloads, pid: usize) -> bool {
    pid < MAX_PROC && (p.table@[pid as int].state == PENDING || p.table@[pid as int].state == RUNNING)
}

/// Set a live payload's instruction budget (the operator's externalized
/// deadline policy): its deadline becomes `deadline` timebase units from
/// its start (0 = none). False, and nothing changes, when `pid` is not live.
pub fn set_budget(p: &mut Payloads, pid: usize, deadline: u64) -> (ok: bool)
    requires
        old(p).wf(),
    ensures
        final(p).wf(),
        ok == live(*old(p), pid),
        ok ==> final(p).table@ == old(p).table@.update(pid as int, (Slot { deadline, ..old(p).table@[pid as int] })),
        !ok ==> *final(p) == *old(p),
        final(p).current == old(p).current,
        final(p).snaps@ == old(p).snaps@,
        final(p).last_snap == old(p).last_snap,
        final(p).auto_fork == old(p).auto_fork,
        final(p).kernel_root == old(p).kernel_root,
{
    if pid >= MAX_PROC {
        return false;
    }
    let slot = p.table[pid];
    if slot.state != PENDING && slot.state != RUNNING {
        return false;
    }
    let mut s2 = slot;
    s2.deadline = deadline;
    p.table.set(pid, s2);
    true
}

/// Kill a live payload by pid (the operator's remediation verb): it is
/// marked killed and a `payload_killed` event with reason `operator` is
/// emitted. Returns the time it ran (0 if it never started), or why not.
pub fn kill_pid(p: &mut Payloads, ev: &mut Events, wire: &mut Vec<u8>, pid: usize, now: u64) -> (r: Result<u64, &'static str>)
    requires
        old(p).wf(),
    ensures
        final(p).wf(),
        r is Ok <==> live(*old(p), pid),
        r is Err ==> *final(p) == *old(p) && *final(ev) == *old(ev) && final(wire)@ == old(wire)@
            && bytes_of(r->Err_0) == bytes_of("no live payload with that pid"),
        r is Ok ==> {
            let slot = old(p).table@[pid as int];
            let running = slot.state == RUNNING;
            let elapsed = if running { elapsed_since(now, slot.started_at) } else { 0 };
            &&& r->Ok_0 == elapsed
            &&& final(p).table@ == old(p).table@.update(pid as int, (Slot { state: KILLED, ..slot }))
            &&& final(ev).next == advanced(old(ev).next)
            &&& final(wire)@ == old(wire)@ + framed(operator_killed_json(old(ev).next, pid, elapsed,
                    if running { Some(slot.start_event) } else { None }))
        },
        final(p).current == old(p).current,
        final(p).snaps@ == old(p).snaps@,
        final(p).last_snap == old(p).last_snap,
        final(p).auto_fork == old(p).auto_fork,
        final(p).kernel_root == old(p).kernel_root,
{
    if pid >= MAX_PROC {
        return Err("no live payload with that pid");
    }
    let slot = p.table[pid];
    if slot.state != PENDING && slot.state != RUNNING {
        return Err("no live payload with that pid");
    }
    let running = slot.state == RUNNING;
    let elapsed = if running && now >= slot.started_at { now - slot.started_at } else { 0 };
    let mut s2 = slot;
    s2.state = KILLED;
    p.table.set(pid, s2);
    let id = next_id(ev);
    let mut v: Vec<u8> = Vec::new();
    push_event_head(&mut v, id, "payload_killed");
    push_str(&mut v, ",\"pid\":");
    push_dec(&mut v, pid as u64);
    push_str(&mut v, ",\"reason\":\"operator\",\"elapsed\":");
    push_dec(&mut v, elapsed);
    push_str(&mut v, ",\"caused_by\":");
    if running {
        push_dec(&mut v, slot.start_event);
    } else {
        push_str(&mut v, "null");
    }
    push_str(&mut v, "}");
    assert(v@ =~= operator_killed_json(id, pid, elapsed, if running { Some(slot.start_event) } else { None })) by {
        reveal(operator_killed_json);
    }
    emit_json(wire, v.as_slice());
    Ok(elapsed)
}


// ---- Checkpoints ------------------------------------------------------------------

/// The first snapshot slot at or after `from` not in use.
pub open spec fn first_free_snap(s: Seq<Snapshot>, from: int) -> Option<int>
    decreases s.len() - from,
{
    if from < 0 || from >= s.len() { None } else if !s[from].valid { Some(from) } else { first_free_snap(s, from + 1) }
}

pub proof fn lemma_first_free_snap(s: Seq<Snapshot>, from: int)
    requires
        0 <= from,
    ensures
        first_free_snap(s, from) matches Some(k) ==> from <= k < s.len() && !s[k].valid,
    decreases s.len() - from,
{
    if from < s.len() && s[from].valid {
        lemma_first_free_snap(s, from + 1);
    }
}

fn free_snap_slot(p: &Payloads) -> (r: Option<usize>)
    requires
        p.wf(),
    ensures
        r == (match first_free_snap(p.snaps@, 0) { Some(k) => Some(k as usize), None => None }),
        r matches Some(k) ==> k < MAX_SNAP,
{
    let mut k: usize = 0;
    while k < MAX_SNAP
        invariant
            p.wf(),
            k <= MAX_SNAP,
            first_free_snap(p.snaps@, 0) == first_free_snap(p.snaps@, k as int),
        decreases MAX_SNAP - k,
    {
        if !p.snaps[k].valid {
            return Some(k);
        }
        k += 1;
    }
    None
}

/// Checkpoint the running payload: deep-copy its address space, save its
/// register frame (with a0 forced to 0, so a restored continuation can tell
/// itself apart), record its CapSet, and return a positive snapshot id.
/// EINVAL without a running payload (or its table), EAGAIN when every
/// snapshot slot is in use, ENOMEM when the pool runs out.
pub fn on_snapshot(p: &mut Payloads, fa: &mut FrameAllocator, mem: &mut PhysMem, ev: &mut Events, wire: &mut Vec<u8>,
    frame: &TrapFrame) -> (r: isize)
    requires
        old(p).wf(),
        old(fa).wf(),
        old(mem).wf(),
    ensures
        final(p).wf(),
        final(fa).wf(),
        final(mem).wf(),
        final(p).table@ == old(p).table@,
        final(p).current == old(p).current,
        final(p).auto_fork == old(p).auto_fork,
        final(p).kernel_root == old(p).kernel_root,
        keeps_frames(old(mem)@, final(mem)@, old(fa).frames()),
        current_root(*old(p)) is None ==> r == EINVAL,
        current_root(*old(p)) is Some && first_free_snap(old(p).snaps@, 0) is None ==> r == EAGAIN,
        current_root(*old(p)) is Some && first_free_snap(old(p).snaps@, 0) is Some ==> r == ENOMEM || r > 0,
        current_root(*old(p)) is Some && first_free_snap(old(p).snaps@, 0) is Some
            && space_wf(old(mem)@, *old(fa), current_root(*old(p)).unwrap() as int) ==>
            (r == ENOMEM <==> old(fa).count() + crate::mm::copy_need(old(mem)@, current_root(*old(p)).unwrap() as int) + 1
                > POOL_FRAMES),
        r <= 0 ==> final(p).snaps@ == old(p).snaps@ && final(p).last_snap == old(p).last_snap
            && *final(ev) == *old(ev) && final(wire)@ == old(wire)@,
        r <= 0 ==> final(fa).frames() == old(fa).frames(),
        r > 0 ==> {
            let sid = first_free_snap(old(p).snaps@, 0).unwrap();
            let pid = old(p).current;
            let slot = old(p).table@[pid as int];
            let snap = final(p).snaps@[sid];
            &&& r == sid + 1
            &&& final(p).snaps@ == old(p).snaps@.update(sid, snap)
            &&& snap.valid && snap.caps == slot.caps && snap.image == slot.image
            &&& !old(fa).frames().contains(frame_of(snap.root as int))
            &&& !old(fa).frames().contains(frame_of(snap.frame as int))
            &&& frame_saved(final(mem)@, snap.frame as int, *frame, 0)
            &&& final(p).last_snap == sid + 1
            &&& final(ev).next == advanced(old(ev).next)
            &&& final(wire)@ == old(wire)@ + framed(snapshot_json(old(ev).next, pid, (sid + 1) as usize))
            &&& space_wf(old(mem)@, *old(fa), slot.root as int) ==>
                copy_of(old(mem)@, final(mem)@, old(fa).frames(), final(fa).frames(), slot.root as int, snap.root as int)
        },
{
    let pid = match current_pid(p) {
        Some(x) => x,
        None => return EINVAL,
    };
    let space = match current_space(p) {
        Some(s) => s,
        None => return EINVAL,
    };
    let sid = match free_snap_slot(p) {
        Some(k) => k,
        None => return EAGAIN,
    };
    proof { lemma_first_free_snap(p.snaps@, 0); }
    let ghost f0 = fa.frames();
    let ghost m0 = mem@;
    let mut got: Vec<usize> = Vec::new();
    let snap_as = match space.deep_copy_listed(fa, mem, &mut got) {
        Some(a) => a,
        None => return ENOMEM,
    };
    let ghost m1 = mem@;
    let ghost fa1 = *fa;
    let snap_frame = match alloc_frame(fa, mem) {
        Some(f) => f,
        None => {
            crate::mm::free_listed(fa, got, Ghost(f0));
            return ENOMEM;
        },
    };
    let ghost m2 = mem@;
    proof {
        crate::mm::lemma_alloc_keeps(fa1, *fa, m1, m2, snap_frame);
        crate::mm::lemma_keeps_sub(m1, m2, fa1.frames(), f0);
        crate::mm::lemma_keeps_trans(m0, m1, m2, f0);
    }
    proof {
        assert(snap_frame % 8 == 0) by {
            assert(snap_frame % 4096 == 0);
        }
    }
    save_frame_to(frame, mem, snap_frame, 0);
    proof {
        crate::mm::lemma_keeps_write(m2, mem@, f0, snap_frame as int, 264);
        crate::mm::lemma_keeps_trans(m0, m2, mem@, f0);
        crate::mm::lemma_keeps_write(m2, mem@, fa1.frames(), snap_frame as int, 264);
        crate::mm::lemma_keeps_trans(m1, m2, mem@, fa1.frames());
        if space_wf(m0, *old(fa), space.root_pa() as int) {
            crate::mm::lemma_copy_kept(m0, m1, mem@, f0, fa1.frames(), fa.frames(), space.root_pa() as int,
                snap_as.root_pa() as int);
        }
    }
    let slot = p.table[pid];
    let snap = Snapshot { valid: true, root: snap_as.root(), frame: snap_frame, caps: slot.caps, image: slot.image };
    p.snaps.set(sid, snap);
    p.last_snap = (sid + 1) as isize;
    emit_snapshot(ev, wire, pid, sid + 1);
    proof {
        let snap2 = p.snaps@[sid as int];
        assert(p.snaps@ == old(p).snaps@.update(sid as int, snap2));
        assert(snap2.valid && snap2.caps == slot.caps && snap2.image == slot.image);
        assert(!old(fa).frames().contains(frame_of(snap2.root as int)));
        assert(!old(fa).frames().contains(frame_of(snap2.frame as int)));
        assert(frame_saved(mem@, snap2.frame as int, *frame, 0));
    }
    (sid + 1) as isize
}


/// The slot a continuation of `snap` is queued in: pending, with the
/// snapshot's image and CapSet, no parent, no deadline, and its own copy of
/// the address space and saved frame.
pub open spec fn restored(old_slot: Slot, snap: Snapshot, root: usize, frame: usize) -> Slot {
    Slot {
        state: PENDING,
        image: snap.image,
        caps: snap.caps,
        parent: NO_PID,
        exit_code: 0,
        started_at: 0,
        deadline: 0,
        root,
        resume_frame: frame,
        start_event: old_slot.start_event,
    }
}

/// Queue a new pending payload that resumes from snapshot `sid` (restore or
/// fork): an independent copy of the snapshot's address space and of its
/// saved frame, in the first empty slot. None when the snapshot is not in
/// use, the pool runs out, or no slot is empty.
pub fn enqueue_restore(p: &mut Payloads, fa: &mut FrameAllocator, mem: &mut PhysMem, sid: usize) -> (r: Option<usize>)
    requires
        old(p).wf(),
        old(fa).wf(),
        old(mem).wf(),
        sid < MAX_SNAP,
    ensures
        final(p).wf(),
        final(fa).wf(),
        final(mem).wf(),
        keeps_frames(old(mem)@, final(mem)@, old(fa).frames()),
        final(p).current == old(p).current,
        final(p).snaps@ == old(p).snaps@,
        final(p).last_snap == old(p).last_snap,
        final(p).auto_fork == old(p).auto_fork,
        final(p).kernel_root == old(p).kernel_root,
        !old(p).snaps@[sid as int].valid ==> r is None,
        r is None ==> final(fa).frames() == old(fa).frames(),
        r is None ==> final(p).table@ == old(p).table@,
        r matches Some(pid) ==> {
            let snap = old(p).snaps@[sid as int];
            let slot = final(p).table@[pid as int];
            &&& snap.valid
            &&& Some(pid as int) == first_in_state(old(p).table@, EMPTY, 0)
            &&& final(p).table@ == old(p).table@.update(pid as int, restored(old(p).table@[pid as int], snap, slot.root, slot.resume_frame))
            &&& !old(fa).frames().contains(frame_of(slot.root as int))
            &&& !old(fa).frames().contains(frame_of(slot.resume_frame as int))
            &&& in_pool(snap.frame as int, FRAME_SIZE as int)
            &&& (snap.frame % 4096 == 0 && old(fa).frames().contains(frame_of(snap.frame as int))) ==>
                final(mem)@.subrange(slot.resume_frame - POOL_BASE, slot.resume_frame - POOL_BASE + FRAME_SIZE)
                == old(mem)@.subrange(snap.frame - POOL_BASE, snap.frame - POOL_BASE + FRAME_SIZE)
            &&& space_wf(old(mem)@, *old(fa), snap.root as int) ==>
                copy_of(old(mem)@, final(mem)@, old(fa).frames(), final(fa).frames(), snap.root as int, slot.root as int)
        },
        ({
            let snap = old(p).snaps@[sid as int];
            space_wf(old(mem)@, *old(fa), snap.root as int) ==> (r is Some <==> {
                &&& snap.valid
                &&& old(fa).count() + crate::mm::copy_need(old(mem)@, snap.root as int) + 1 <= POOL_FRAMES
                &&& in_pool(snap.frame as int, FRAME_SIZE as int)
                &&& first_in_state(old(p).table@, EMPTY, 0) is Some
            })
        }),
{
    let snap = p.snaps[sid];
    if !snap.valid {
        return None;
    }
    let ghost f0 = fa.frames();
    let ghost m0 = mem@;
    let mut got: Vec<usize> = Vec::new();
    let new_as = match AddressSpace::from_root(snap.root).deep_copy_listed(fa, mem, &mut got) {
        Some(a) => a,
        None => return None,
    };
    let ghost m1 = mem@;
    let ghost fa1 = *fa;
    let new_frame = match alloc_frame(fa, mem) {
        Some(f) => f,
        None => {
            crate::mm::free_listed(fa, got, Ghost(f0));
            return None;
        },
    };
    let ghost m2 = mem@;
    proof {
        crate::mm::lemma_alloc_keeps(fa1, *fa, m1, m2, new_frame);
    }
    proof {
        crate::mm::lemma_alloc_keeps(fa1, *fa, m1, m2, new_frame);
        crate::mm::lemma_keeps_sub(m1, m2, fa1.frames(), f0);
        crate::mm::lemma_keeps_trans(m0, m1, m2, f0);
    }
    let mut buf: Vec<u8> = vec![0u8; FRAME_SIZE];
    if !phys_read(mem, snap.frame, &mut buf) {
        free(fa, new_frame);
        proof {
            assert(fa.frames() =~= f0.union(crate::mm::listed(got@)));
        }
        crate::mm::free_listed(fa, got, Ghost(f0));
        return None;
    }
    let ghost page = buf@;
    if !phys_write(mem, new_frame, buf.as_slice()) {
        free(fa, new_frame);
        proof {
            assert(fa.frames() =~= f0.union(crate::mm::listed(got@)));
        }
        crate::mm::free_listed(fa, got, Ghost(f0));
        return None;
    }
    let ghost m3 = mem@;
    proof {
        crate::mm::lemma_splice_agrees(m2, m3, new_frame as int, page);
        crate::mm::lemma_keeps_write(m2, m3, f0, new_frame as int, 4096);
        crate::mm::lemma_keeps_trans(m0, m2, m3, f0);
        crate::mm::lemma_keeps_write(m2, m3, fa1.frames(), new_frame as int, 4096);
        crate::mm::lemma_keeps_trans(m1, m2, m3, fa1.frames());
        if space_wf(m0, *old(fa), snap.root as int) {
            crate::mm::lemma_copy_kept(m0, m1, m3, f0, fa1.frames(), fa.frames(), snap.root as int,
                new_as.root_pa() as int);
        }
        assert(m3.subrange(new_frame - POOL_BASE, new_frame - POOL_BASE + FRAME_SIZE) =~= page);
        if snap.frame % 4096 == 0 && f0.contains(frame_of(snap.frame as int)) {
            assert(page =~= m0.subrange(snap.frame - POOL_BASE, snap.frame - POOL_BASE + FRAME_SIZE)) by {
                assert forall|k: int| 0 <= k < 4096 implies page[k] == m0[snap.frame - POOL_BASE + k] by {
                    assert((snap.frame - POOL_BASE + k) / 4096 == frame_of(snap.frame as int));
                }
            }
        }
    }
    proof { lemma_first_in_state(p.table@, EMPTY, 0); }
    let mut pid: usize = 0;
    while pid < MAX_PROC
        invariant
            p == old(p),
            p.wf(),
            pid <= MAX_PROC,
            first_in_state(p.table@, EMPTY, 0) == first_in_state(p.table@, EMPTY, pid as int),
            sid < MAX_SNAP,
            snap == p.snaps@[sid as int],
            snap.valid,
            fa.wf(),
            mem.wf(),
            keeps_frames(m0, mem@, f0),
            m0 == old(mem)@,
            f0 == old(fa).frames(),
            !f0.contains(frame_of(new_as.root_pa() as int)),
            !f0.contains(frame_of(new_frame as int)),
            space_wf(m0, *old(fa), snap.root as int) ==>
                copy_of(m0, mem@, f0, fa.frames(), snap.root as int, new_as.root_pa() as int),
            space_wf(m0, *old(fa), snap.root as int) ==>
                old(fa).count() + crate::mm::copy_need(m0, snap.root as int) + 1 <= POOL_FRAMES,
            fa.frames() == f0.union(crate::mm::listed(got@)).insert(frame_of(new_frame as int)),
            crate::mm::listed_ok(got@, f0),
            !f0.union(crate::mm::listed(got@)).contains(frame_of(new_frame as int)),
            new_frame % 4096 == 0,
            in_pool(new_frame as int, 4096),
            in_pool(snap.frame as int, FRAME_SIZE as int),
            (snap.frame % 4096 == 0 && f0.contains(frame_of(snap.frame as int))) ==>
                mem@.subrange(new_frame - POOL_BASE, new_frame - POOL_BASE + FRAME_SIZE)
                == m0.subrange(snap.frame - POOL_BASE, snap.frame - POOL_BASE + FRAME_SIZE),
        decreases MAX_PROC - pid,
    {
        if p.table[pid].state == EMPTY {
            let mut slot = p.table[pid];
            slot.image = snap.image;
            slot.caps = snap.caps;
            slot.parent = NO_PID;
            slot.exit_code = 0;
            slot.deadline = 0;
            slot.started_at = 0;
            slot.root = new_as.root();
            slot.resume_frame = new_frame;
            slot.state = PENDING;
            proof {
                assert(p.snaps@[sid as int].image < NUM_IMAGES);
            }
            p.table.set(pid, slot);
            return Some(pid);
        }
        pid += 1;
    }
    free(fa, new_frame);
    proof {
        assert(fa.frames() =~= f0.union(crate::mm::listed(got@)));
    }
    crate::mm::free_listed(fa, got, Ghost(f0));
    None
}


// ---- Starting payloads ---------------------------------------------------------------

/// The satp value that activates the table at `root` (Sv39, ASID 0).
pub open spec fn satp_of(root: usize) -> u64 {
    (8u64 << 60u64) | ((root as u64) >> 12u64)
}

/// What starting a payload comes to.
#[derive(Clone, Copy, PartialEq, Eq, Structural)]
pub enum StartOutcome {
    /// Drop to U-mode under `satp`, restoring the register frame saved in
    /// the pool frame `frame`.
    Resume { satp: u64, frame: usize },
    /// The payload could not be loaded: it is marked faulted and a load
    /// fault was reported; the scheduler moves on.
    LoadFailed,
}

/// Mark `pid` faulted and report why it could not be loaded.
fn load_failed(p: &mut Payloads, ev: &mut Events, wire: &mut Vec<u8>, pid: usize, name: &str, reason: &str)
    requires
        old(p).wf(),
        pid < MAX_PROC,
    ensures
        final(p).wf(),
        final(p).table@ == old(p).table@.update(pid as int, (Slot { state: FAULTED, ..old(p).table@[pid as int] })),
        final(p).current == old(p).current,
        final(p).snaps@ == old(p).snaps@,
        final(p).last_snap == old(p).last_snap,
        final(p).auto_fork == old(p).auto_fork,
        final(p).kernel_root == old(p).kernel_root,
        final(ev).next == advanced(old(ev).next),
        final(wire)@ == old(wire)@ + framed(load_fault_json(old(ev).next, pid, bytes_of(name), bytes_of(reason))),
{
    let mut slot = p.table[pid];
    slot.state = FAULTED;
    p.table.set(pid, slot);
    emit_load_fault(ev, wire, pid, name, reason);
}

/// Why a fresh start with `count` frames allocated fails: no frame for the
/// root table, else the image's load error, else no frame for the saved
/// registers.
pub open spec fn start_failure(load: Result<usize, crate::elf::ElfError>, count: nat) -> Seq<u8> {
    if count >= POOL_FRAMES {
        bytes_of("out_of_memory")
    } else {
        match load {
            Err(e) => elf_error_text(e),
            Ok(_) => bytes_of("out_of_memory"),
        }
    }
}

/// Start payload `pid` at time `now`. A restored continuation (it has a
/// saved frame) resumes straight into it; otherwise a fresh address space
/// gets the kernel map, `elf` is loaded into the arena, and a fresh frame
/// starting at the entry point is built. Either way the payload becomes the
/// running one and `payload_start` is emitted.
/// The ELF's segments are not mapped into the new space: the space holds
/// only the kernel gigapage, and the image lives in the arena.
#[verifier::rlimit(40)]
pub fn start(p: &mut Payloads, fa: &mut FrameAllocator, mem: &mut PhysMem, arena: &mut Arena, ev: &mut Events,
    wire: &mut Vec<u8>, pid: usize, elf: &[u8], now: u64) -> (r: StartOutcome)
    requires
        old(p).wf(),
        old(fa).wf(),
        old(mem).wf(),
        old(arena).wf(),
        pid < MAX_PROC,
    ensures
        final(p).wf(),
        final(fa).wf(),
        final(mem).wf(),
        final(arena).wf(),
        final(p).snaps@ == old(p).snaps@,
        final(p).last_snap == old(p).last_snap,
        final(p).auto_fork == old(p).auto_fork,
        final(p).kernel_root == old(p).kernel_root,
        final(ev).next == advanced(old(ev).next),
        ({
            let slot = old(p).table@[pid as int];
            let name = image_name_of(slot.image as int);
            let e0 = old(ev).next;
            if slot.resume_frame != 0 {
                &&& r == StartOutcome::Resume { satp: satp_of(slot.root), frame: slot.resume_frame }
                &&& final(p).table@ == old(p).table@.update(pid as int,
                        (Slot { state: RUNNING, started_at: now, start_event: e0, ..slot }))
                &&& final(p).current == pid
                &&& final(wire)@ == old(wire)@ + framed(start_json(e0, pid, name, 0, true,
                        parent_cause(final(p).table@, pid as int), slot.caps))
                &&& *final(fa) == *old(fa) && final(mem)@ == old(mem)@ && final(arena)@ == old(arena)@
            } else {
                &&& r matches StartOutcome::Resume { satp, frame } ==> {
                    let root = final(p).table@[pid as int].root;
                    let entry = load_effect(elf@, old(arena)@).1.unwrap();
                    &&& load_effect(elf@, old(arena)@) == (final(arena)@, Ok::<usize, crate::elf::ElfError>(entry))
                    &&& final(p).table@ == old(p).table@.update(pid as int,
                            (Slot { state: RUNNING, started_at: now, start_event: e0, root, resume_frame: frame, ..slot }))
                    &&& final(p).current == pid
                    &&& satp == satp_of(root)
                    &&& !old(fa).frames().contains(frame_of(root as int))
                    &&& !old(fa).frames().contains(frame_of(frame as int))
                    &&& root != 0
                    &&& crate::mm::space_wf(final(mem)@, *final(fa), root as int)
                    &&& forall|va: usize| va >> 30usize == 2 ==>
                        #[trigger] crate::mm::translation(final(mem)@, root, va) == Some(va)
                    &&& rd(final(mem)@, frame + SEPC_OFF) == entry as u64
                    &&& rd(final(mem)@, frame + SSTATUS_OFF) == SSTATUS_SPIE
                    &&& forall|i: int| 0 <= i < 31 ==> #[trigger] rd(final(mem)@, frame + 8 * i) == 0
                    &&& final(wire)@ == old(wire)@ + framed(start_json(e0, pid, name, entry, false,
                            parent_cause(final(p).table@, pid as int), slot.caps))
                }
                &&& r is LoadFailed ==> {
                    &&& final(p).table@ == old(p).table@.update(pid as int, (Slot { state: FAULTED, ..slot }))
                    &&& final(p).current == old(p).current
                    &&& final(wire)@ == old(wire)@ + framed(load_fault_json(e0, pid, name,
                            start_failure(load_effect(elf@, old(arena)@).1, old(fa).count())))
                    &&& final(fa).frames() == old(fa).frames()
                }
                &&& load_effect(elf@, old(arena)@).1 is Err ==> r is LoadFailed
                &&& (r is Resume <==> (load_effect(elf@, old(arena)@).1 is Ok && old(fa).count() + 2 <= POOL_FRAMES))
            }
        }),
{
    let slot = p.table[pid];
    let name = image_name(slot.image);
    if slot.resume_frame != 0 {
        let mut s2 = slot;
        s2.state = RUNNING;
        s2.started_at = now;
        p.table.set(pid, s2);
        p.current = pid;
        emit_start(p, ev, wire, pid, name, slot.caps, 0, true);
        return StartOutcome::Resume { satp: AddressSpace::from_root(slot.root).satp(), frame: slot.resume_frame };
    }
    let ghost f0 = fa.frames();
    let ghost a0 = arena@;
    let space = match AddressSpace::new(fa, mem) {
        Some(s) => s,
        None => {
            proof {
                crate::frames::lemma_full_iff(*old(fa));
                assert(old(fa).count() >= POOL_FRAMES);
            }
            load_failed(p, ev, wire, pid, name, "out_of_memory");
            return StartOutcome::LoadFailed;
        },
    };
    let ghost fa1 = *fa;
    let ghost m1 = mem@;
    proof {
        crate::frames::lemma_full_iff(*old(fa));
        assert(crate::mm::vpn_of(crate::mm::KERNEL_GIGAPAGE_VA, 2) == 2) by {
            assert((0x8000_0000usize >> 30usize) & 0x1ff == 2) by (bit_vector);
        }
        crate::mm::lemma_zero_invalid();
    }
    if map_kernel(&space, fa, mem).is_err() {
        space.destroy(fa, mem);
        load_failed(p, ev, wire, pid, name, "kernel_map_failed");
        return StartOutcome::LoadFailed;
    }
    proof {
        crate::mm::lemma_kernel_space_destroy_restores(*old(fa), fa1, old(mem)@, m1, mem@, space.root_pa());
    }
    let entry = match load(elf, arena) {
        Ok(e) => e,
        Err(e) => {
            space.destroy(fa, mem);
            let reason = e.as_str();
            load_failed(p, ev, wire, pid, name, reason);
            return StartOutcome::LoadFailed;
        },
    };
    let ghost m2 = mem@;
    let frame = match alloc_frame(fa, mem) {
        Some(f) => f,
        None => {
            space.destroy(fa, mem);
            load_failed(p, ev, wire, pid, name, "out_of_memory");
            return StartOutcome::LoadFailed;
        },
    };
    let ghost m3 = mem@;
    proof {
        crate::mm::lemma_alloc_zeroed(fa1, *fa, m2, m3, frame);
    }
    init_frame_to(mem, frame, entry);
    proof {
        crate::mm::lemma_alloc_keeps(fa1, *fa, m2, m3, frame);
        crate::mm::lemma_keeps_write(m3, mem@, fa1.frames(), frame + SEPC_OFF, 16);
        crate::mm::lemma_keeps_trans(m2, m3, mem@, fa1.frames());
        crate::mm::lemma_keeps_space(m2, mem@, fa1, *fa, space.root_pa());
    }
    proof {
        assert forall|i: int| 0 <= i < 31 implies #[trigger] rd(mem@, frame + 8 * i) == 0 by {
            crate::mm::lemma_rd_unchanged(m3, mem@, frame + SEPC_OFF, 16, frame + 8 * i);
            assert(crate::mm::entry(m3, frame as u64, i) == 0);
        }
    }
    proof {
        assert(p.table@[pid as int] == slot);
        assert(slot.image < NUM_IMAGES);
        assert(slot.caps & !image_ceiling(slot.image as int) == 0);
    }
    let mut s2 = slot;
    s2.root = space.root();
    s2.resume_frame = frame;
    s2.state = RUNNING;
    s2.started_at = now;
    p.table.set(pid, s2);
    p.current = pid;
    emit_start(p, ev, wire, pid, name, slot.caps, entry, false);
    StartOutcome::Resume { satp: space.satp(), frame }
}


// ---- The scheduler --------------------------------------------------------------

/// What the scheduler comes to.
#[derive(Clone, Copy, PartialEq, Eq, Structural)]
pub enum RunOutcome {
    /// Drop to U-mode under `satp`, restoring the frame saved at `frame`.
    Resume { satp: u64, frame: usize },
    /// Nothing left to run: the suite is done; idle.
    Idle,
}

/// Slots keeping their states keep their counts.
pub proof fn lemma_count_same(t1: Seq<Slot>, t2: Seq<Slot>, st: u8, n: int)
    requires
        forall|k: int| 0 <= k < n ==> #[trigger] t1[k].state == t2[k].state,
    ensures
        count_state(t1, st, n) == count_state(t2, st, n),
    decreases n,
{
    if n > 0 {
        lemma_count_same(t1, t2, st, n - 1);
    }
}

/// Moving one slot out of state `st` lowers its count by one.
pub proof fn lemma_count_leave(t: Seq<Slot>, st: u8, pid: int, s: Slot, n: int)
    requires
        0 <= pid < n <= t.len(),
        t[pid].state == st,
        s.state != st,
    ensures
        count_state(t.update(pid, s), st, n) + 1 == count_state(t, st, n),
    decreases n,
{
    if n - 1 > pid {
        lemma_count_leave(t, st, pid, s, n - 1);
    } else {
        lemma_count_same(t.update(pid, s), t, st, n - 1);
    }
}

/// No slot is pending.
pub open spec fn none_pending(t: Seq<Slot>) -> bool {
    forall|k: int| 0 <= k < MAX_PROC ==> #[trigger] t[k].state != PENDING
}

/// Pick and start the next pending payload (`elfs[i]` is the image of
/// payload image `i`). When the queue drains, start any checkpoint
/// continuation still owed; else announce `suite_done` and go idle. Every
/// terminated payload's frames are reaped first.
/// The process table as reaping leaves it: terminated slots lose their
/// address space and saved frame.
pub open spec fn reaped_table(t: Seq<Slot>) -> Seq<Slot> {
    Seq::new(MAX_PROC as nat, |k: int| if terminal(t[k].state) { Slot { root: 0, resume_frame: 0, ..t[k] } } else { t[k] })
}

/// The bytes of each payload image.
pub open spec fn image_views(elfs: Seq<Vec<u8>>) -> Seq<Seq<u8>> {
    Seq::new(elfs.len(), |i: int| elfs[i]@)
}

/// What became of the first pending payload `k` of the reaped table `tr`
/// when the scheduler ran: it is the one resumed, or its fresh start failed
/// because its image does not load or the pool (holding `count` frames
/// after reaping) had no room for its root and saved frame.
pub open spec fn first_started(tr: Seq<Slot>, t1: Seq<Slot>, current: usize, resumed: bool, k: int, elfs: Seq<Seq<u8>>,
    arena: Seq<u8>, count: nat) -> bool {
    ||| resumed && current == k
    ||| {
        &&& t1[k].state == FAULTED
        &&& tr[k].resume_frame == 0
        &&& (load_effect(elfs[tr[k].image as int], arena).1 is Err || count + 2 > POOL_FRAMES)
    }
}

pub fn run(p: &mut Payloads, fa: &mut FrameAllocator, mem: &mut PhysMem, arena: &mut Arena, ev: &mut Events,
    wire: &mut Vec<u8>, elfs: &Vec<Vec<u8>>, now: u64) -> (r: RunOutcome)
    requires
        old(p).wf(),
        old(fa).wf(),
        old(mem).wf(),
        old(arena).wf(),
        elfs@.len() == NUM_IMAGES,
    ensures
        final(p).wf(),
        final(fa).wf(),
        final(mem).wf(),
        final(arena).wf(),
        final(p).kernel_root == old(p).kernel_root,
        final(p).last_snap == old(p).last_snap,
        final(p).auto_fork <= old(p).auto_fork,
        r matches RunOutcome::Resume { satp, frame } ==> {
            let pid = final(p).current;
            &&& pid < MAX_PROC
            &&& final(p).table@[pid as int].state == RUNNING
            &&& final(p).table@[pid as int].resume_frame == frame
            &&& satp == satp_of(final(p).table@[pid as int].root)
        },
        r is Idle ==> {
            &&& final(p).current == NO_PID
            &&& none_pending(final(p).table@)
            &&& (final(p).auto_fork == 0 || final(p).last_snap == 0 || final(p).auto_fork < old(p).auto_fork)
            &&& exists|w: Seq<u8>, id: u64| final(wire)@ == w + framed(suite_done_json(id,
                    count_state(final(p).table@, EXITED, MAX_PROC as int), count_state(final(p).table@, FAULTED, MAX_PROC as int),
                    count_state(final(p).table@, KILLED, MAX_PROC as int)))
        },
        ({
            let tr = reaped_table(old(p).table@);
            let count = without_pas(old(fa).frames(), reaped_pas(old(mem)@, old(p).table@, MAX_PROC as int)).len();
            first_in_state(tr, PENDING, 0) matches Some(k) ==>
                first_started(tr, final(p).table@, final(p).current, r is Resume, k, image_views(elfs@),
                    old(arena)@, count)
        }),
{
    let ghost tr = reaped_table(old(p).table@);
    let ghost count = without_pas(old(fa).frames(), reaped_pas(old(mem)@, old(p).table@, MAX_PROC as int)).len();
    let ghost images = image_views(elfs@);
    let ghost mut first = true;
    proof {
        lemma_first_in_state(tr, PENDING, 0);
    }
    loop
        invariant
            p.wf(),
            fa.wf(),
            mem.wf(),
            arena.wf(),
            elfs@.len() == NUM_IMAGES,
            p.kernel_root == old(p).kernel_root,
            p.last_snap == old(p).last_snap,
            p.auto_fork <= old(p).auto_fork,
            tr == reaped_table(old(p).table@),
            images == image_views(elfs@),
            count == without_pas(old(fa).frames(), reaped_pas(old(mem)@, old(p).table@, MAX_PROC as int)).len(),
            first ==> p.table@ == old(p).table@ && *fa == *old(fa) && mem@ == old(mem)@ && arena@ == old(arena)@,
            !first ==> (first_in_state(tr, PENDING, 0) matches Some(k) ==>
                first_started(tr, p.table@, p.current, false, k, images, old(arena)@, count)),
        decreases p.auto_fork, count_state(p.table@, PENDING, MAX_PROC as int),
    {
        let ghost tb = p.table@;
        proof {
            lemma_first_in_state(tr, PENDING, 0);
        }
        leave_current(p);
        let ghost t0 = p.table@;
        reap_terminated(p, fa, mem);
        proof {
            if first {
                assert(p.table@ =~= tr);
                crate::frames::lemma_frames_in_range(*fa);
            } else if first_in_state(tr, PENDING, 0) is Some {
                let k = first_in_state(tr, PENDING, 0).unwrap();
                assert(0 <= k < MAX_PROC);
                assert(p.table@[k].state == t0[k].state);
                assert(t0[k] == tb[k]);
            }
        }
        proof { lemma_count_same(p.table@, t0, PENDING, MAX_PROC as int); }
        proof { lemma_first_in_state(p.table@, PENDING, 0); }
        match take_next_pending(p) {
            Some(pid) => {
                let ghost t1 = p.table@;
                let elf = elfs[p.table[pid].image].as_slice();
                proof {
                    assert(elf@ == images[t1[pid as int].image as int]);
                }
                match start(p, fa, mem, arena, ev, wire, pid, elf, now) {
                    StartOutcome::Resume { satp, frame } => {
                        proof {
                            if first {
                                assert(t1 == tr);
                                assert(Some(pid as int) == first_in_state(tr, PENDING, 0));
                                assert(p.current == pid);
                            }
                            if !first && first_in_state(tr, PENDING, 0) is Some {
                                let k = first_in_state(tr, PENDING, 0).unwrap();
                                assert(t1[k].state == FAULTED);
                                assert(pid as int != k);
                                assert(p.table@[k] == t1[k]);
                            }
                        }
                        return RunOutcome::Resume { satp, frame };
                    },
                    StartOutcome::LoadFailed => {
                        proof {
                            if !first && first_in_state(tr, PENDING, 0) is Some {
                                let k = first_in_state(tr, PENDING, 0).unwrap();
                                assert(t1[k].state == FAULTED);
                                assert(pid as int != k);
                                assert(p.table@[k] == t1[k]);
                            }
                            lemma_count_leave(t1, PENDING, pid as int, p.table@[pid as int], MAX_PROC as int);
                            assert(p.table@ == t1.update(pid as int, p.table@[pid as int]));
                            first = false;
                        }
                        continue;
                    },
                }
            },
            None => {},
        }
        proof {
            first = false;
        }
        let owed = p.auto_fork;
        let sid = p.last_snap;
        if owed > 0 && sid > 0 {
            p.auto_fork = owed - 1;
            proof { lemma_first_in_state(p.table@, EMPTY, 0); }
            match enqueue_restore(p, fa, mem, (sid - 1) as usize) {
                Some(pid) => {
                    proof { assert(p.table@[pid as int].image < NUM_IMAGES); }
                    let elf = elfs[p.table[pid].image].as_slice();
                    match start(p, fa, mem, arena, ev, wire, pid, elf, now) {
                        StartOutcome::Resume { satp, frame } => {
                            return RunOutcome::Resume { satp, frame };
                        },
                        StartOutcome::LoadFailed => {
                            continue;
                        },
                    }
                },
                None => {},
            }
        }
        let ghost w0 = wire@;
        let ghost id0 = ev.next;
        emit_suite_done(p, ev, wire);
        return RunOutcome::Idle;
    }
}


/// Build the kernel address space (the identity gigapage alone) and return
/// the satp that turns paging on under it; None when the pool cannot give
/// its root frame or the map cannot be added (the kernel cannot boot).
pub fn init_paging(p: &mut Payloads, fa: &mut FrameAllocator, mem: &mut PhysMem) -> (r: Option<u64>)
    requires
        old(p).wf(),
        old(fa).wf(),
        old(mem).wf(),
    ensures
        final(p).wf(),
        final(fa).wf(),
        final(mem).wf(),
        final(p).table@ == old(p).table@,
        final(p).current == old(p).current,
        final(p).snaps@ == old(p).snaps@,
        final(p).last_snap == old(p).last_snap,
        final(p).auto_fork == old(p).auto_fork,
        r matches Some(satp) ==> satp == satp_of(final(p).kernel_root)
            && crate::mm::space_wf(final(mem)@, *final(fa), final(p).kernel_root as int)
            && forall|va: usize| va >> 30usize == 2 ==>
                #[trigger] crate::mm::translation(final(mem)@, final(p).kernel_root, va) == Some(va),
        r is None ==> final(p).kernel_root == old(p).kernel_root,
        r is Some <==> exists|f: int| 0 <= f < POOL_FRAMES && !old(fa).frames().contains(f),
{
    let space = match AddressSpace::new(fa, mem) {
        Some(s) => s,
        None => return None,
    };
    proof {
        assert(0 <= crate::mm::vpn_of(crate::mm::KERNEL_GIGAPAGE_VA, 2) < 512) by {
            assert((crate::mm::KERNEL_GIGAPAGE_VA >> 30usize) & 0x1ff < 512) by (bit_vector);
        }
        crate::mm::lemma_zero_invalid();
    }
    if map_kernel(&space, fa, mem).is_err() {
        return None;
    }
    p.kernel_root = space.root();
    Some(space.satp())
}

/// The satp of the kernel-only address space.
pub fn kernel_satp(p: &Payloads) -> (r: u64)
    ensures
        r == satp_of(p.kernel_root),
{
    AddressSpace::from_root(p.kernel_root).satp()
}


/// The frame pool must not overlap the kernel image: true when the image
/// (ending at `kernel_end`) stops at or below the pool base. Booting goes
/// no further when it does not.
pub fn assert_pool_clear(kernel_end: usize) -> (ok: bool)
    ensures
        ok == (kernel_end <= POOL_BASE),
{
    kernel_end <= POOL_BASE
}

} // verus!

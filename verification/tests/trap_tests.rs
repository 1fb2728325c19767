use kernai::console::FrameBuf;
use kernai::events::Events;
use kernai::frames::FrameAllocator;
use kernai::mm::{AddressSpace, R, U};
use kernai::payload::{enqueue, Payloads, FAULTED, IMG_HELLO, IMG_RUNAWAY, KILLED, NO_PID, RUNNING, CAP_WRITE};
use kernai::phys::{phys_read_u64, PhysMem};
use kernai::traps::{arm_first_tick, cause_name, emit_fault, emit_ring_dump, handle, init_frame_to, reg_name, ring_record,
    save_frame_to, set_classic_surface, severity_of, write_digest, write_pagewalk, write_regs, write_ring, TrapAction,
    TrapFrame, Traps, CAUSE_ILLEGAL_INSTRUCTION, CAUSE_S_TIMER, CAUSE_U_ECALL, SSTATUS_SPIE, SSTATUS_SPP, TICK_INTERVAL};

fn frames(wire: &[u8]) -> Vec<String> {
    let mut out = Vec::new();
    let mut i = 0;
    while i + 6 <= wire.len() {
        let n = u32::from_le_bytes([wire[i + 2], wire[i + 3], wire[i + 4], wire[i + 5]]) as usize;
        out.push(String::from_utf8(wire[i + 6..i + 6 + n].to_vec()).unwrap());
        i += 6 + n;
    }
    out
}

fn frame_with(sepc: u64, sstatus: u64) -> TrapFrame {
    let mut regs = [0u64; 31];
    for (i, r) in regs.iter_mut().enumerate() {
        *r = i as u64 + 1;
    }
    TrapFrame { regs, sepc, sstatus }
}

#[test]
fn cause_and_severity_names() {
    assert_eq!(cause_name(2), "illegal_instruction");
    assert_eq!(cause_name(9), "ecall");
    assert_eq!(cause_name(14), "unknown");
    assert_eq!(cause_name(CAUSE_S_TIMER), "timer");
    assert_eq!(cause_name(0x8000_0000_0000_0009), "unexpected_interrupt");
    assert_eq!(severity_of(CAUSE_S_TIMER), "trace");
    assert_eq!(severity_of(CAUSE_U_ECALL), "info");
    assert_eq!(severity_of(0x8000_0000_0000_0001), "warn");
    assert_eq!(severity_of(13), "error");
    assert_eq!(reg_name(0), "ra");
    assert_eq!(reg_name(30), "t6");
}

#[test]
fn the_ring_keeps_the_last_eight_oldest_first() {
    let mut t = Traps::new();
    for i in 0..10u64 {
        ring_record(&mut t, i, CAUSE_S_TIMER, 0x100 + i, 0);
    }
    let mut f = FrameBuf::new();
    write_ring(&t, &mut f).unwrap();
    let s = String::from_utf8(f.as_bytes().to_vec()).unwrap();
    assert!(s.starts_with(r#"[{"id":2,"cause":"timer","sepc":"0x102"},"#), "{}", s);
    assert!(s.ends_with(r#"{"id":9,"cause":"timer","sepc":"0x109"}]"#));
    assert_eq!(s.matches("\"id\"").count(), 8);
    let mut ev = Events::new();
    let mut wire = Vec::new();
    emit_ring_dump(&t, &mut ev, &mut wire);
    assert!(frames(&wire)[0].starts_with(r#"{"id":0,"type":"trap_ring","count":10,"entries":[{"id":2,"#));
}

#[test]
fn ticks_never_evict_a_fault_from_the_digest() {
    let mut t = Traps::new();
    ring_record(&mut t, 1, 13, 0x40, 0x9000);
    for i in 0..20u64 {
        ring_record(&mut t, 2 + i, CAUSE_S_TIMER, 0, 0);
    }
    let mut f = FrameBuf::new();
    write_digest(&t, &mut f, 4).unwrap();
    let s = String::from_utf8(f.as_bytes().to_vec()).unwrap();
    assert!(s.contains(r#""items":[{"id":1,"severity":"error","cause":"load_page_fault","sepc":"0x40"}],"elided":20"#), "{}", s);
    let mut f = FrameBuf::new();
    write_digest(&t, &mut f, 0).unwrap();
    let s = String::from_utf8(f.as_bytes().to_vec()).unwrap();
    assert!(s.contains(r#""items":[],"elided":21"#), "{}", s);
}

#[test]
fn digest_items_skip_ticks_and_come_newest_first() {
    let mut t = Traps::new();
    ring_record(&mut t, 3, 8, 0x10, 0);
    ring_record(&mut t, 4, CAUSE_S_TIMER, 0, 0);
    ring_record(&mut t, 5, 2, 0x20, 0);
    ring_record(&mut t, 6, CAUSE_S_TIMER, 0, 0);
    ring_record(&mut t, 7, 13, 0x30, 0);
    let mut f = FrameBuf::new();
    write_digest(&t, &mut f, 8).unwrap();
    let s = String::from_utf8(f.as_bytes().to_vec()).unwrap();
    let i7 = s.find(r#"{"id":7,"#).unwrap();
    let i5 = s.find(r#"{"id":5,"#).unwrap();
    let i3 = s.find(r#"{"id":3,"#).unwrap();
    assert!(i7 < i5 && i5 < i3, "{}", s);
    assert!(!s.contains(r#""cause":"timer""#), "{}", s);
    assert!(s.contains(r#""elided":2"#), "{}", s);
}

#[test]
fn registers_are_named_and_hex() {
    let fr = frame_with(0x80400010, 0);
    let mut f = FrameBuf::new();
    write_regs(&mut f, &fr).unwrap();
    let s = String::from_utf8(f.as_bytes().to_vec()).unwrap();
    assert!(s.starts_with(r#"{"ra":"0x1","sp":"0x2","gp":"0x3""#));
    assert!(s.ends_with(r#""t6":"0x1f"}"#));
}

#[test]
fn fault_frame_decodes_the_illegal_instruction() {
    let t = Traps::new();
    let fr = frame_with(0x80200000, SSTATUS_SPP);
    let mut wire = Vec::new();
    emit_fault(&t, &fr, 4, CAUSE_ILLEGAL_INSTRUCTION, 0xc0002573, None, None, &None, &mut wire);
    let f = frames(&wire);
    assert_eq!(f.len(), 1);
    let s = &f[0];
    assert!(s.starts_with(r#"{"id":4,"type":"fault","origin":"kernel","caused_by":null,"cause":"0x2","cause_name":"illegal_instruction","sepc":"0x80200000","stval":"0xc0002573","ra":"0x1","sp":"0x2","regs":{"#), "{}", s);
    assert!(s.contains(r#""insn":{"bits":"0xc0002573","opcode":"0x73","rd":10,"funct3":2,"rs1":0,"rs2":0,"funct7":"0x60","csr":"0xc00"}"#), "{}", s);
    assert!(s.ends_with(r#","pagewalk":null,"ring":[]}"#));
}

#[test]
fn payload_page_fault_carries_its_walk() {
    let t = Traps::new();
    let mut fa = FrameAllocator::new();
    let mut m = PhysMem::new();
    let space = AddressSpace::new(&mut fa, &mut m).unwrap();
    let d = kernai::frames::alloc_frame(&mut fa, &mut m).unwrap();
    space.map_page(&mut fa, &mut m, 0x5000, d, R | U).unwrap();
    let walk = Some(space.walk(&m, 0x5008));
    let mut f = FrameBuf::new();
    write_pagewalk(&mut f, &walk).unwrap();
    let s = String::from_utf8(f.as_bytes().to_vec()).unwrap();
    assert!(s.starts_with(r#"[{"level":2,"#));
    assert!(s.ends_with(r#""v":1,"r":1,"w":0,"x":0,"u":1}]"#), "{}", s);
    let fr = frame_with(0x10, 0);
    let mut wire = Vec::new();
    emit_fault(&t, &fr, 9, 15, 0x5008, Some(2), Some(7), &walk, &mut wire);
    let s = &frames(&wire)[0];
    assert!(s.starts_with(r#"{"id":9,"type":"fault","origin":"payload","pid":2,"caused_by":7,"#));
    assert!(s.contains(r#""pagewalk":[{"level":2"#));
    let mut f = FrameBuf::new();
    write_pagewalk(&mut f, &None).unwrap();
    assert_eq!(f.as_bytes(), b"null");
}

#[test]
fn classic_surface_is_one_line() {
    let mut t = Traps::new();
    set_classic_surface(&mut t, true);
    let fr = frame_with(0x1234, 0);
    let mut wire = Vec::new();
    emit_fault(&t, &fr, 1, 13, 0x99, Some(0), Some(1), &None, &mut wire);
    assert_eq!(String::from_utf8(wire).unwrap(), "[FAULT] payload load_page_fault pc=0x1234 stval=0x99 ra=0x1 sp=0x2\n");
}

#[test]
fn saved_and_fresh_frames_in_the_pool() {
    let mut m = PhysMem::new();
    let pa = kernai::phys::POOL_BASE + 0x1000;
    let fr = frame_with(0x4000, 0x22);
    save_frame_to(&fr, &mut m, pa, 0);
    assert_eq!(phys_read_u64(&m, pa), Some(1));
    assert_eq!(phys_read_u64(&m, pa + 9 * 8), Some(0));
    assert_eq!(phys_read_u64(&m, pa + 30 * 8), Some(31));
    assert_eq!(phys_read_u64(&m, pa + 248), Some(0x4000));
    assert_eq!(phys_read_u64(&m, pa + 256), Some(0x22));
    let pb = kernai::phys::POOL_BASE + 0x2000;
    init_frame_to(&mut m, pb, 0x8040_0000);
    assert_eq!(phys_read_u64(&m, pb + 248), Some(0x8040_0000));
    assert_eq!(phys_read_u64(&m, pb + 256), Some(SSTATUS_SPIE));
    assert_eq!(phys_read_u64(&m, pb), Some(0));
}

#[test]
fn frame_accessors() {
    let mut fr = frame_with(0x100, SSTATUS_SPP);
    assert_eq!(fr.a0(), 10);
    assert_eq!(fr.a7(), 17);
    assert!(!fr.is_from_user());
    fr.set_a0(99);
    assert_eq!(fr.regs[9], 99);
    fr.advance_past_ecall();
    assert_eq!(fr.sepc, 0x104);
    let mut w = frame_with(u64::MAX - 1, 0);
    w.advance_past_ecall();
    assert_eq!(w.sepc, 2);
    assert!(w.is_from_user());
}

struct K {
    t: Traps,
    p: Payloads,
    fa: FrameAllocator,
    m: PhysMem,
    ev: Events,
    wire: Vec<u8>,
}

fn kernel() -> K {
    K { t: Traps::new(), p: Payloads::new(), fa: FrameAllocator::new(), m: PhysMem::new(), ev: Events::new(), wire: Vec::new() }
}

#[test]
fn tick_rearms_reports_and_kills_overdue_payloads() {
    let mut k = kernel();
    assert_eq!(arm_first_tick(&mut k.t, 100), 100 + TICK_INTERVAL);
    let mut fr = frame_with(0x10, 0);
    let act = handle(&mut k.t, &mut k.p, &mut k.fa, &mut k.m, &mut k.ev, &mut k.wire, &mut fr, CAUSE_S_TIMER, 0, 200, 0xdead, 0xbeef);
    assert!(act == TrapAction { set_timer: Some(100 + 2 * TICK_INTERVAL), shutdown: false });
    assert_eq!(frames(&k.wire), vec![r#"{"id":0,"type":"tick","seq":1,"time":200}"#.to_string()]);
    // Falling a whole interval behind clamps forward.
    let act = handle(&mut k.t, &mut k.p, &mut k.fa, &mut k.m, &mut k.ev, &mut k.wire, &mut fr, CAUSE_S_TIMER, 0, 1_000_000, 0xdead, 0xbeef);
    assert_eq!(act.set_timer, Some(1_000_000 + TICK_INTERVAL));
    // An overdue payload is killed and the frame redirected.
    enqueue(&mut k.p, IMG_RUNAWAY, 0, NO_PID).unwrap();
    k.p.table[0].state = RUNNING;
    k.p.current = 0;
    k.wire.clear();
    kernai::traps::set_autonomous(&mut k.t, true);
    let mut fr = frame_with(0x10, 0);
    handle(&mut k.t, &mut k.p, &mut k.fa, &mut k.m, &mut k.ev, &mut k.wire, &mut fr, CAUSE_S_TIMER, 0, 2_000_000, 0xdead, 0xbeef);
    assert_eq!(k.p.table[0].state, KILLED);
    assert_eq!(k.p.current, NO_PID);
    assert_eq!(fr.sepc, 0xdead);
    assert_eq!(fr.regs[1], 0xbeef);
    assert_eq!(fr.sstatus & (SSTATUS_SPP | SSTATUS_SPIE), SSTATUS_SPP | SSTATUS_SPIE);
    let f = frames(&k.wire);
    assert_eq!(f.len(), 1);
    assert!(f[0].contains(r#""type":"payload_killed""#));
}

#[test]
fn handled_traps_keep_the_surface_and_digest_newest_first() {
    let mut k = kernel();
    set_classic_surface(&mut k.t, true);
    enqueue(&mut k.p, IMG_HELLO, CAP_WRITE, NO_PID).unwrap();
    k.p.current = 0;
    let mut fr = frame_with(0x100, 0);
    fr.regs[16] = 2;
    handle(&mut k.t, &mut k.p, &mut k.fa, &mut k.m, &mut k.ev, &mut k.wire, &mut fr, CAUSE_U_ECALL, 0, 0, 1, 2);
    handle(&mut k.t, &mut k.p, &mut k.fa, &mut k.m, &mut k.ev, &mut k.wire, &mut fr, CAUSE_S_TIMER, 0, 50, 1, 2);
    let mut fr = frame_with(0x200, 0);
    handle(&mut k.t, &mut k.p, &mut k.fa, &mut k.m, &mut k.ev, &mut k.wire, &mut fr, 13, 0x10, 0, 1, 2);
    assert!(kernai::traps::classic_surface(&k.t));
    let mut f = FrameBuf::new();
    write_digest(&k.t, &mut f, 4).unwrap();
    let s = String::from_utf8(f.as_bytes().to_vec()).unwrap();
    let fault = s.find(r#""cause":"load_page_fault""#).unwrap();
    let ecall = s.find(r#""cause":"ecall""#).unwrap();
    assert!(fault < ecall, "{}", s);
    assert!(!s.contains(r#""cause":"timer""#), "{}", s);
}

#[test]
fn ecall_dispatches_and_resumes_past_it() {
    let mut k = kernel();
    enqueue(&mut k.p, IMG_HELLO, CAP_WRITE, NO_PID).unwrap();
    k.p.current = 0;
    let mut fr = frame_with(0x100, 0);
    fr.regs[16] = 2;
    let act = handle(&mut k.t, &mut k.p, &mut k.fa, &mut k.m, &mut k.ev, &mut k.wire, &mut fr, CAUSE_U_ECALL, 0, 0, 1, 2);
    assert!(!act.shutdown);
    assert_eq!(fr.sepc, 0x104);
    assert_eq!(fr.regs[9] as i64, -2);
    fr.regs[16] = 0;
    fr.regs[9] = 5;
    handle(&mut k.t, &mut k.p, &mut k.fa, &mut k.m, &mut k.ev, &mut k.wire, &mut fr, CAUSE_U_ECALL, 0, 0, 1, 2);
    assert_eq!(fr.sepc, 1);
    assert_eq!(k.p.current, NO_PID);
}

#[test]
fn payload_faults_kill_only_the_payload_kernel_faults_shut_down() {
    let mut k = kernel();
    enqueue(&mut k.p, IMG_HELLO, CAP_WRITE, NO_PID).unwrap();
    k.p.current = 0;
    let mut fr = frame_with(0x100, 0);
    let act = handle(&mut k.t, &mut k.p, &mut k.fa, &mut k.m, &mut k.ev, &mut k.wire, &mut fr, 13, 0x8000_0000, 0, 1, 2);
    assert!(act == TrapAction { set_timer: None, shutdown: false });
    assert_eq!(k.p.table[0].state, FAULTED);
    let f = frames(&k.wire);
    assert!(f[0].starts_with(r#"{"id":0,"type":"fault","origin":"payload","pid":0,"caused_by":0,"#), "{}", f[0]);
    let mut fr = frame_with(0x200, SSTATUS_SPP);
    k.wire.clear();
    let act = handle(&mut k.t, &mut k.p, &mut k.fa, &mut k.m, &mut k.ev, &mut k.wire, &mut fr, 2, 0, 0, 1, 2);
    assert!(act.shutdown);
    assert!(frames(&k.wire)[0].contains(r#""origin":"kernel""#));
    assert!(frames(&k.wire)[0].contains(r#""ring":[{"id":0,"cause":"load_page_fault","sepc":"0x100"},{"id":1,"cause":"illegal_instruction","sepc":"0x200"}]"#));
}

use kernai::events::Events;
use kernai::frames::{alloc_frame, FrameAllocator};
use kernai::mm::{AddressSpace, R, U};
use kernai::payload::{enqueue, enqueue_restore, Payloads, CAP_WRITE, IMG_HELLO, IMG_MUZZLED, NO_PID, PENDING, WRITE_QUOTA};
use kernai::phys::{phys_read_u64, phys_write, PhysMem};
use kernai::syscall::{dispatch, sys_write, Outcome, EFAULT, ENOCAP, ENOSYS, EINVAL, SYS_SNAPSHOT, SYS_WRITE};
use kernai::traps::{TrapFrame, SEPC_OFF};

fn frames(wire: &[u8]) -> Vec<String> {
    let mut out = Vec::new();
    let mut i = 0;
    while i + 6 <= wire.len() {
        let n = u32::from_le_bytes([wire[i + 2], wire[i + 3], wire[i + 4], wire[i + 5]]) as usize;
        out.push(String::from_utf8(wire[i + 6..i + 6 + n].to_vec()).unwrap());
        i += 6 + n;
    }
    out
}

fn setup(image: usize) -> (Payloads, FrameAllocator, PhysMem, usize) {
    let mut p = Payloads::new();
    let mut fa = FrameAllocator::new();
    let mut m = PhysMem::new();
    enqueue(&mut p, image, CAP_WRITE, NO_PID).unwrap();
    let space = AddressSpace::new(&mut fa, &mut m).unwrap();
    let d = alloc_frame(&mut fa, &mut m).unwrap();
    space.map_page(&mut fa, &mut m, 0x7000, d, R | U).unwrap();
    p.table[0].root = space.root();
    p.table[0].start_event = 4;
    p.current = 0;
    (p, fa, m, d)
}

#[test]
fn write_emits_untrusted_escaped_output() {
    let (p, _fa, mut m, d) = setup(IMG_HELLO);
    phys_write(&mut m, d, b"hi \"you\"\n");
    let mut ev = Events::new();
    let mut wire = Vec::new();
    assert_eq!(sys_write(&p, &m, &mut ev, &mut wire, 0x7000, 9), 9);
    assert_eq!(frames(&wire), vec![r#"{"id":0,"type":"payload_output","pid":0,"untrusted":true,"caused_by":4,"len":9,"data":"hi \"you\"\n"}"#.to_string()]);
}

#[test]
fn write_is_capped_at_the_quota() {
    let (p, _fa, m, _d) = setup(IMG_HELLO);
    let mut ev = Events::new();
    let mut wire = Vec::new();
    assert_eq!(sys_write(&p, &m, &mut ev, &mut wire, 0x7000, 10_000), WRITE_QUOTA as isize);
    assert!(frames(&wire)[0].contains(r#""len":256,"#));
}

#[test]
fn write_through_a_bad_pointer_is_efault() {
    let (p, _fa, m, _d) = setup(IMG_HELLO);
    let mut ev = Events::new();
    let mut wire = Vec::new();
    assert_eq!(sys_write(&p, &m, &mut ev, &mut wire, 0x8000_0000, 4), EFAULT);
    assert_eq!(sys_write(&p, &m, &mut ev, &mut wire, 0x7ffe, 4), EFAULT);
    assert_eq!(sys_write(&p, &m, &mut ev, &mut wire, usize::MAX, 4), EFAULT);
    assert!(wire.is_empty());
    assert_eq!(ev.next, 0);
}

#[test]
fn write_without_the_cap_is_denied_as_an_event() {
    let (p, _fa, m, _d) = setup(IMG_MUZZLED);
    let mut ev = Events::new();
    let mut wire = Vec::new();
    assert_eq!(sys_write(&p, &m, &mut ev, &mut wire, 0x7000, 4), ENOCAP);
    assert_eq!(frames(&wire), vec![r#"{"id":0,"type":"syscall_denied","pid":0,"syscall":"write","reason":"missing_cap","cap":"write"}"#.to_string()]);
}

#[test]
fn dispatch_routes_by_a7() {
    let (mut p, mut fa, mut m, _d) = setup(IMG_HELLO);
    let mut ev = Events::new();
    let mut wire = Vec::new();
    let mut fr = TrapFrame { regs: [0; 31], sepc: 0, sstatus: 0 };
    fr.regs[16] = 99;
    assert!(dispatch(&mut p, &mut fa, &mut m, &mut ev, &mut wire, &fr) == Outcome::Resume(ENOSYS));
    fr.regs[16] = SYS_WRITE;
    fr.regs[9] = 0x7000;
    fr.regs[10] = 2;
    assert!(dispatch(&mut p, &mut fa, &mut m, &mut ev, &mut wire, &fr) == Outcome::Resume(2));
    fr.regs[16] = SYS_SNAPSHOT;
    let r = dispatch(&mut p, &mut fa, &mut m, &mut ev, &mut wire, &fr);
    assert!(r == Outcome::Resume(1));
    assert!(p.snaps[0].valid);
    p.current = NO_PID;
    assert!(dispatch(&mut p, &mut fa, &mut m, &mut ev, &mut wire, &fr) == Outcome::Resume(EINVAL));
}

#[test]
fn snapshot_then_restore_gives_an_independent_continuation() {
    let (mut p, mut fa, mut m, d) = setup(IMG_HELLO);
    phys_write(&mut m, d, b"state");
    let mut ev = Events::new();
    let mut wire = Vec::new();
    let mut fr = TrapFrame { regs: [0; 31], sepc: 0x1004, sstatus: 0 };
    fr.regs[16] = SYS_SNAPSHOT;
    fr.regs[9] = 77;
    assert!(dispatch(&mut p, &mut fa, &mut m, &mut ev, &mut wire, &fr) == Outcome::Resume(1));
    assert_eq!(frames(&wire).last().unwrap(), r#"{"id":0,"type":"snapshot","pid":0,"snapshot":1}"#);
    let snap = p.snaps[0];
    assert_eq!(phys_read_u64(&m, snap.frame + 8 * 9), Some(0));
    assert_eq!(phys_read_u64(&m, snap.frame + SEPC_OFF), Some(0x1004));
    let pid = enqueue_restore(&mut p, &mut fa, &mut m, 0).unwrap();
    assert_eq!(p.table[pid].state, PENDING);
    let orig = AddressSpace::from_root(p.table[0].root);
    let cont = AddressSpace::from_root(p.table[pid].root);
    assert_ne!(cont.translate(&m, 0x7000), orig.translate(&m, 0x7000));
    let mut buf = vec![0u8; 5];
    assert!(cont.copy_from_user(&m, 0x7000, &mut buf));
    assert_eq!(buf, b"state");
    phys_write(&mut m, d, b"moved");
    assert!(cont.copy_from_user(&m, 0x7000, &mut buf));
    assert_eq!(buf, b"state");
    assert_eq!(phys_read_u64(&m, p.table[pid].resume_frame + 8 * 9), Some(0));
}

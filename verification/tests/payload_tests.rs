use kernai::console::FrameBuf;
use kernai::elf::Arena;
use kernai::events::Events;
use kernai::frames::{stats, FrameAllocator};
use kernai::payload::{any_alive, caps_json, clear_table, current_has, emit_suite_done, enqueue, init_paging, kill_pid,
    kernel_satp, on_exit, on_spawn, on_tick, on_yield, reap_terminated, run, seed_suite_m3, seed_suite_m4, seed_suite_m5,
    seed_suite_m6, spawnable_image, start, state_name, take_next_pending, write_process_table, write_spec, Cap, Payloads,
    RunOutcome, StartOutcome, CAP_SPAWN, CAP_WRITE, CAP_YIELD, EMPTY, EXITED, FAULTED, IMG_CHILD, IMG_CRASHER, IMG_FORKER,
    IMG_HELLO, IMG_MUZZLED, IMG_RUNAWAY, IMG_SPAWNER, KILLED, NO_PID, NUM_IMAGES, PENDING, RUNNING};
use kernai::phys::PhysMem;
use kernai::syscall::{EAGAIN, EINVAL, ENOCAP};

fn frames(wire: &[u8]) -> Vec<String> {
    let mut out = Vec::new();
    let mut i = 0;
    while i + 6 <= wire.len() {
        let n = u32::from_le_bytes([wire[i + 2], wire[i + 3], wire[i + 4], wire[i + 5]]) as usize;
        out.push(String::from_utf8(wire[i + 6..i + 6 + n].to_vec()).unwrap());
        i += 6 + n;
    }
    out
}

fn elf_image(entry: u64, vaddr: u64, code: &[u8]) -> Vec<u8> {
    let mut img = vec![0u8; 64 + 56];
    img[0..4].copy_from_slice(&[0x7f, b'E', b'L', b'F']);
    img[4] = 2;
    img[5] = 1;
    img[18..20].copy_from_slice(&243u16.to_le_bytes());
    img[24..32].copy_from_slice(&entry.to_le_bytes());
    img[32..40].copy_from_slice(&64u64.to_le_bytes());
    img[54..56].copy_from_slice(&56u16.to_le_bytes());
    img[56..58].copy_from_slice(&1u16.to_le_bytes());
    let off = img.len() as u64;
    img[64..68].copy_from_slice(&1u32.to_le_bytes());
    img[72..80].copy_from_slice(&off.to_le_bytes());
    img[80..88].copy_from_slice(&vaddr.to_le_bytes());
    img[96..104].copy_from_slice(&(code.len() as u64).to_le_bytes());
    img[104..112].copy_from_slice(&(code.len() as u64 + 16).to_le_bytes());
    img.extend_from_slice(code);
    img
}

#[test]
fn enqueue_clamps_caps_to_the_image_ceiling() {
    let mut p = Payloads::new();
    let pid = enqueue(&mut p, IMG_MUZZLED, CAP_WRITE | CAP_YIELD | CAP_SPAWN, NO_PID).unwrap();
    assert_eq!(pid, 0);
    assert_eq!(p.table[0].caps, 0);
    assert_eq!(p.table[0].state, PENDING);
    let pid = enqueue(&mut p, IMG_RUNAWAY, CAP_WRITE, NO_PID).unwrap();
    assert_eq!(pid, 1);
    assert_eq!(p.table[1].deadline, 15_000);
    assert_eq!(take_next_pending(&p), Some(0));
    assert!(any_alive(&p));
}

#[test]
fn the_table_fills_up() {
    let mut p = Payloads::new();
    for i in 0..8 {
        assert_eq!(enqueue(&mut p, IMG_HELLO, CAP_WRITE, NO_PID), Some(i));
    }
    assert_eq!(enqueue(&mut p, IMG_HELLO, CAP_WRITE, NO_PID), None);
}

#[test]
fn spawn_attenuates_to_parent_and_ceiling() {
    let mut p = Payloads::new();
    let mut ev = Events::new();
    let mut wire = Vec::new();
    enqueue(&mut p, IMG_SPAWNER, CAP_WRITE | CAP_SPAWN, NO_PID).unwrap();
    p.table[0].state = RUNNING;
    p.current = 0;
    assert_eq!(spawnable_image(0), Some(IMG_CHILD));
    let child = on_spawn(&mut p, &mut ev, &mut wire, 0, CAP_WRITE | CAP_YIELD | CAP_SPAWN);
    assert_eq!(child, 1);
    assert_eq!(p.table[1].caps, CAP_WRITE);
    assert_eq!(p.table[1].parent, 0);
    assert_eq!(frames(&wire), vec![r#"{"id":0,"type":"payload_spawn","parent":0,"child":1,"name":"child","parent_caps":["write","spawn"],"requested":["write","yield","spawn"],"granted":["write"],"attenuated":true}"#.to_string()]);
    assert_eq!(on_spawn(&mut p, &mut ev, &mut wire, 9, CAP_WRITE), EINVAL);
}

#[test]
fn spawn_and_yield_need_their_caps() {
    let mut p = Payloads::new();
    let mut ev = Events::new();
    let mut wire = Vec::new();
    assert_eq!(on_spawn(&mut p, &mut ev, &mut wire, 0, 0), EINVAL);
    enqueue(&mut p, IMG_HELLO, CAP_WRITE, NO_PID).unwrap();
    p.current = 0;
    assert!(current_has(&p, Cap::Write));
    assert_eq!(on_spawn(&mut p, &mut ev, &mut wire, 0, 0), ENOCAP);
    assert_eq!(on_yield(&p, &mut ev, &mut wire), ENOCAP);
    let f = frames(&wire);
    assert_eq!(f[0], r#"{"id":0,"type":"syscall_denied","pid":0,"syscall":"spawn","reason":"missing_cap","cap":"spawn"}"#);
    assert_eq!(f[1], r#"{"id":1,"type":"syscall_denied","pid":0,"syscall":"yield","reason":"missing_cap","cap":"yield"}"#);
}

#[test]
fn spawn_with_a_full_table_is_eagain() {
    let mut p = Payloads::new();
    let mut ev = Events::new();
    let mut wire = Vec::new();
    for _ in 0..8 {
        enqueue(&mut p, IMG_SPAWNER, CAP_WRITE | CAP_SPAWN, NO_PID).unwrap();
    }
    p.current = 0;
    assert_eq!(on_spawn(&mut p, &mut ev, &mut wire, 0, CAP_WRITE), EAGAIN);
}

#[test]
fn exit_marks_the_payload_and_reports_its_code() {
    let mut p = Payloads::new();
    let mut ev = Events::new();
    let mut wire = Vec::new();
    enqueue(&mut p, IMG_HELLO, CAP_WRITE, NO_PID).unwrap();
    p.current = 0;
    p.table[0].start_event = 3;
    on_exit(&mut p, &mut ev, &mut wire, 7);
    assert_eq!(p.table[0].state, EXITED);
    assert_eq!(p.table[0].exit_code, 7);
    assert_eq!(frames(&wire), vec![r#"{"id":0,"type":"payload_exit","pid":0,"code":7,"caused_by":3}"#.to_string()]);
}

#[test]
fn deadline_kill_on_tick() {
    let mut p = Payloads::new();
    let mut ev = Events::new();
    let mut wire = Vec::new();
    enqueue(&mut p, IMG_RUNAWAY, 0, NO_PID).unwrap();
    p.table[0].state = RUNNING;
    p.table[0].started_at = 100;
    p.current = 0;
    assert!(!on_tick(&mut p, &mut ev, &mut wire, 15_100));
    assert!(on_tick(&mut p, &mut ev, &mut wire, 15_101));
    assert_eq!(p.table[0].state, KILLED);
    assert_eq!(frames(&wire), vec![r#"{"id":0,"type":"payload_killed","pid":0,"reason":"deadline","elapsed":15001,"deadline":15000,"caused_by":0}"#.to_string()]);
}

#[test]
fn kill_pid_refuses_dead_payloads() {
    let mut p = Payloads::new();
    let mut ev = Events::new();
    let mut wire = Vec::new();
    assert_eq!(kill_pid(&mut p, &mut ev, &mut wire, 0, 5), Err("no live payload with that pid"));
    assert_eq!(kill_pid(&mut p, &mut ev, &mut wire, 99, 5), Err("no live payload with that pid"));
    assert!(wire.is_empty());
}

#[test]
fn caps_and_state_names() {
    let mut v = Vec::new();
    caps_json(&mut v, CAP_WRITE | CAP_SPAWN);
    assert_eq!(v, br#"["write","spawn"]"#.to_vec());
    let mut v = Vec::new();
    caps_json(&mut v, 0);
    assert_eq!(v, b"[]".to_vec());
    assert_eq!(state_name(EMPTY), "empty");
    assert_eq!(state_name(FAULTED), "faulted");
    assert_eq!(state_name(77), "unknown");
}

#[test]
fn process_table_resource() {
    let mut p = Payloads::new();
    enqueue(&mut p, IMG_HELLO, CAP_WRITE, NO_PID).unwrap();
    p.table[0].state = EXITED;
    p.table[0].exit_code = -3;
    let mut f = FrameBuf::new();
    write_process_table(&p, &mut f).unwrap();
    assert_eq!(f.as_bytes(), br#"{"processes":[{"pid":0,"name":"hello","state":"exited","exit_code":-3,"caps":["write"]}]}"#);
    let mut f = FrameBuf::new();
    write_spec(&mut f).unwrap();
    assert_eq!(f.as_bytes(), br#"{"proto":0,"arch":"riscv64","syscalls":[{"num":0,"name":"exit"},{"num":1,"name":"write"},{"num":2,"name":"yield"},{"num":3,"name":"spawn"},{"num":4,"name":"snapshot"}],"caps":[{"name":"write","bit":1},{"name":"yield","bit":2},{"name":"spawn","bit":4}],"memory":{"kernel_base":"0x80200000","pool_base":"0x80400000","pool_end":"0x88000000"}}"#);
}

#[test]
fn seeding_suites() {
    let mut p = Payloads::new();
    let mut fa = FrameAllocator::new();
    let m = PhysMem::new();
    seed_suite_m3(&mut p, &mut fa, &m);
    assert_eq!((p.table[0].image, p.table[1].image, p.table[2].state), (IMG_HELLO, IMG_CRASHER, EMPTY));
    seed_suite_m4(&mut p, &mut fa, &m);
    assert_eq!(p.table[2].image, IMG_RUNAWAY);
    assert_eq!(p.table[1].caps, CAP_WRITE | CAP_SPAWN);
    seed_suite_m5(&mut p, &mut fa, &m);
    assert_eq!(p.table[3].image, IMG_HELLO);
    assert_eq!(p.table[3].state, PENDING);
    seed_suite_m6(&mut p, &mut fa, &m);
    assert_eq!(p.table[0].image, IMG_FORKER);
    assert_eq!(p.table[1].state, EMPTY);
    assert_eq!(p.auto_fork, 2);
    clear_table(&mut p, &mut fa, &m);
    assert!(!any_alive(&p));
}

#[test]
fn suite_done_counts_outcomes() {
    let mut p = Payloads::new();
    let mut ev = Events::new();
    let mut wire = Vec::new();
    enqueue(&mut p, IMG_HELLO, CAP_WRITE, NO_PID).unwrap();
    enqueue(&mut p, IMG_HELLO, CAP_WRITE, NO_PID).unwrap();
    p.table[0].state = EXITED;
    p.table[1].state = KILLED;
    emit_suite_done(&p, &mut ev, &mut wire);
    assert_eq!(frames(&wire), vec![r#"{"id":0,"type":"suite_done","exited":1,"faulted":0,"killed":1}"#.to_string()]);
}

#[test]
fn start_loads_and_runs_a_payload() {
    let mut p = Payloads::new();
    let mut fa = FrameAllocator::new();
    let mut m = PhysMem::new();
    let mut arena = Arena::new();
    let mut ev = Events::new();
    let mut wire = Vec::new();
    enqueue(&mut p, IMG_HELLO, CAP_WRITE, NO_PID).unwrap();
    let img = elf_image(0x8040_0000, 0x8040_0000, b"code");
    let r = start(&mut p, &mut fa, &mut m, &mut arena, &mut ev, &mut wire, 0, &img, 500);
    match r {
        StartOutcome::Resume { satp, frame } => {
            assert_eq!(p.table[0].resume_frame, frame);
            assert_eq!(satp >> 60, 8);
        },
        StartOutcome::LoadFailed => panic!("load failed"),
    }
    assert_eq!(p.current, 0);
    assert_eq!(p.table[0].state, RUNNING);
    assert_eq!(p.table[0].started_at, 500);
    assert_eq!(&arena.as_bytes()[0..4], b"code");
    assert_eq!(frames(&wire), vec![r#"{"id":0,"type":"payload_start","pid":0,"name":"hello","entry":"0x80400000","restored":false,"caused_by":null,"caps":["write"]}"#.to_string()]);
}

#[test]
fn start_of_a_bad_image_is_a_load_fault() {
    let mut p = Payloads::new();
    let mut fa = FrameAllocator::new();
    let mut m = PhysMem::new();
    let mut arena = Arena::new();
    let mut ev = Events::new();
    let mut wire = Vec::new();
    enqueue(&mut p, IMG_HELLO, CAP_WRITE, NO_PID).unwrap();
    let before = stats(&fa).0;
    let r = start(&mut p, &mut fa, &mut m, &mut arena, &mut ev, &mut wire, 0, b"not an elf", 0);
    assert!(r == StartOutcome::LoadFailed);
    assert_eq!(p.table[0].state, FAULTED);
    assert_eq!(stats(&fa).0, before);
    assert_eq!(frames(&wire), vec![r#"{"id":0,"type":"payload_load_fault","pid":0,"name":"hello","reason":"too_short"}"#.to_string()]);
}

#[test]
fn run_starts_the_first_pending_then_idles() {
    let mut p = Payloads::new();
    let mut fa = FrameAllocator::new();
    let mut m = PhysMem::new();
    let mut arena = Arena::new();
    let mut ev = Events::new();
    let mut wire = Vec::new();
    let satp = init_paging(&mut p, &mut fa, &mut m).unwrap();
    assert_eq!(satp, kernel_satp(&p));
    let mut elfs: Vec<Vec<u8>> = vec![Vec::new(); NUM_IMAGES];
    elfs[IMG_HELLO] = elf_image(0x8040_0000, 0x8040_0000, b"x");
    seed_suite_m3(&mut p, &mut fa, &m);
    let r = run(&mut p, &mut fa, &mut m, &mut arena, &mut ev, &mut wire, &elfs, 10);
    assert!(matches!(r, RunOutcome::Resume { .. }));
    assert_eq!(p.current, 0);
    // The payload exits; the crasher's image is empty, so it fails to load
    // and the suite is done.
    on_exit(&mut p, &mut ev, &mut wire, 0);
    let r = run(&mut p, &mut fa, &mut m, &mut arena, &mut ev, &mut wire, &elfs, 20);
    assert!(r == RunOutcome::Idle);
    assert_eq!(p.current, NO_PID);
    assert_eq!(p.table[0].root, 0);
    let f = frames(&wire);
    assert!(f.last().unwrap().contains(r#""type":"suite_done","exited":1,"faulted":1,"killed":0"#), "{:?}", f);
    reap_terminated(&mut p, &mut fa, &m);
    assert_eq!(stats(&fa).0, 1);
}

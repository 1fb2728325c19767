use kernai::events::Events;
use kernai::frames::FrameAllocator;
use kernai::payload::{Payloads, enqueue, IMG_HELLO, IMG_RUNAWAY, NO_PID, KILLED, RUNNING};
use kernai::rpc::{emit_rpc, dispatch, idle_wait, fnv1a, op_record, op_seen, read_request, write_id, OpLog, ReadStep, RequestReader, RpcAction,
    Suite, MAX_REQ};
use kernai::console::FrameBuf;
use kernai::traps::{Traps, ring_record, CAUSE_ILLEGAL_INSTRUCTION, CAUSE_S_TIMER, CAUSE_U_ECALL};

fn frames(wire: &[u8]) -> Vec<String> {
    let mut out = Vec::new();
    let mut i = 0;
    while i + 6 <= wire.len() {
        let n = u32::from_le_bytes([wire[i + 2], wire[i + 3], wire[i + 4], wire[i + 5]]) as usize;
        out.push(String::from_utf8(wire[i + 6..i + 6 + n].to_vec()).unwrap());
        i += 6 + n;
    }
    out
}

struct K {
    log: OpLog,
    t: Traps,
    p: Payloads,
    ev: Events,
    wire: Vec<u8>,
    fa: FrameAllocator,
}

fn kernel() -> K {
    K { log: OpLog::new(), t: Traps::new(), p: Payloads::new(), ev: Events::new(), wire: Vec::new(), fa: FrameAllocator::new() }
}

fn call(k: &mut K, json: &str) -> (RpcAction, String) {
    k.wire.clear();
    let act = dispatch(&mut k.log, &mut k.t, &mut k.p, &k.fa, &mut k.ev, &mut k.wire, json.as_bytes(), 1000);
    let f = frames(&k.wire);
    (act, f.last().cloned().unwrap_or_default())
}

#[test]
fn initialize_answers_server_info() {
    let mut k = kernel();
    let (act, out) = call(&mut k, r#"{"jsonrpc":"2.0","id":1,"method":"initialize"}"#);
    assert!(act == RpcAction::Idle);
    assert_eq!(out, r#"{"id":0,"type":"rpc","rpc":{"jsonrpc":"2.0","id":1,"result":{"protocolVersion":"2024-11-05","serverInfo":{"name":"kernai","version":"0"},"capabilities":{"tools":{},"resources":{}}}}}"#);
}

#[test]
fn unknown_method_and_missing_method() {
    let mut k = kernel();
    let (_, out) = call(&mut k, r#"{"id":"a","method":"nope"}"#);
    assert_eq!(out, r#"{"id":0,"type":"rpc","rpc":{"jsonrpc":"2.0","id":"a","error":{"code":-32601,"message":"method not found"}}}"#);
    let (_, out) = call(&mut k, r#"{"id":2}"#);
    assert_eq!(out, r#"{"id":1,"type":"rpc","rpc":{"jsonrpc":"2.0","id":2,"error":{"code":-32600,"message":"missing method"}}}"#);
}

#[test]
fn ids_are_echoed_safely() {
    let mut k = kernel();
    let (_, out) = call(&mut k, r#"{"id":1.2.3,"method":"nope"}"#);
    assert!(out.contains(r#""id":null,"error""#));
    let (_, out) = call(&mut k, r#"{"method":"nope"}"#);
    assert!(out.contains(r#""id":null,"error""#));
    let (_, out) = call(&mut k, r#"{"id":-42,"method":"nope"}"#);
    assert!(out.contains(r#""id":-42,"error""#));
    let long = "x".repeat(100);
    let (_, out) = call(&mut k, &format!(r#"{{"id":"{}","method":"nope"}}"#, long));
    assert!(out.contains(&format!(r#""id":"{}","error""#, "x".repeat(64))));
}

#[test]
fn write_id_escapes_strings() {
    let mut f = FrameBuf::new();
    write_id(&mut f, br#" "a\tb" "#).unwrap();
    assert_eq!(f.as_bytes(), br#""a\\tb""#);
}

#[test]
fn tools_list_names_every_tool() {
    let mut k = kernel();
    let (_, out) = call(&mut k, r#"{"id":1,"method":"tools/list"}"#);
    assert!(out.contains(r#""result":{"tools":["#), "{}", out);
    for name in ["run_suite", "crash", "kill", "set_budget", "ring_read", "set_surface", "set_autonomy"] {
        assert!(out.contains(&format!(r#""name":"{}""#, name)), "{}", name);
    }
    assert!(out.contains(r#""required":["pid","deadline"]"#));
    assert!(out.contains(r#""properties":{"suite":{"type":"string"}},"required":["suite"]"#));
}

#[test]
fn resources_list_names_every_resource() {
    let mut k = kernel();
    let (_, out) = call(&mut k, r#"{"id":1,"method":"resources/list"}"#);
    for uri in ["trap_ring", "processes", "spec", "surface", "autonomy", "digest", "memory"] {
        assert!(out.contains(&format!(r#""uri":"{}","name":"{}""#, uri, uri)), "{}", uri);
    }
}

#[test]
fn run_suite_is_accepted_once_per_op_id() {
    let mut k = kernel();
    let req = r#"{"id":7,"method":"tools/call","params":{"name":"run_suite","opId":"op-1","arguments":{"suite":"m4"}}}"#;
    let (act, out) = call(&mut k, req);
    assert!(act == RpcAction::RunSuite(Suite::M4));
    assert!(out.ends_with(r#""result":{"status":"accepted","suite":"m4"}}}"#), "{}", out);
    let (act, out) = call(&mut k, req);
    assert!(act == RpcAction::Idle);
    assert!(out.ends_with(r#""result":{"status":"duplicate","opId":"op-1"}}}"#), "{}", out);
}

#[test]
fn run_suite_rejects_unknown_suites() {
    let mut k = kernel();
    let (act, out) = call(&mut k, r#"{"id":1,"method":"tools/call","params":{"name":"run_suite","arguments":{"suite":"zz"}}}"#);
    assert!(act == RpcAction::Idle);
    assert!(out.contains(r#""error":{"code":-32602,"message":"unknown suite"}"#));
    let (_, out) = call(&mut k, r#"{"id":1,"method":"tools/call","params":{"name":"run_suite"}}"#);
    assert!(out.contains("unknown suite"));
}

#[test]
fn run_suite_and_crash_are_refused_while_payloads_live() {
    let mut k = kernel();
    enqueue(&mut k.p, IMG_HELLO, 1, NO_PID).unwrap();
    let (act, out) = call(&mut k, r#"{"id":1,"method":"tools/call","params":{"name":"run_suite","arguments":{"suite":"p"}}}"#);
    assert!(act == RpcAction::Idle);
    assert!(out.contains(r#"{"code":-32002,"message":"busy: payloads active"}"#));
    let (act, out) = call(&mut k, r#"{"id":1,"method":"tools/call","params":{"name":"crash"}}"#);
    assert!(act == RpcAction::Idle);
    assert!(out.contains("busy: payloads active"));
}

#[test]
fn crash_is_acknowledged_then_crashes() {
    let mut k = kernel();
    let (act, out) = call(&mut k, r#"{"id":1,"method":"tools/call","params":{"name":"crash"}}"#);
    assert!(act == RpcAction::Crash);
    assert!(out.ends_with(r#""result":{"status":"crashing"}}}"#));
}

#[test]
fn kill_needs_a_pid_and_a_live_payload() {
    let mut k = kernel();
    let (_, out) = call(&mut k, r#"{"id":1,"method":"tools/call","params":{"name":"kill","arguments":{}}}"#);
    assert!(out.contains("missing pid"));
    let (_, out) = call(&mut k, r#"{"id":1,"method":"tools/call","params":{"name":"kill","arguments":{"pid":3}}}"#);
    assert!(out.contains(r#""message":"no live payload with that pid""#));
}

#[test]
fn kill_of_a_pending_payload() {
    let mut k = kernel();
    let pid = enqueue(&mut k.p, IMG_RUNAWAY, 0, NO_PID).unwrap();
    k.wire.clear();
    let json = format!(r#"{{"id":1,"method":"tools/call","params":{{"name":"kill","arguments":{{"pid":"{}"}}}}}}"#, pid);
    let act = dispatch(&mut k.log, &mut k.t, &mut k.p, &k.fa, &mut k.ev, &mut k.wire, json.as_bytes(), 1000);
    assert!(act == RpcAction::Idle);
    let f = frames(&k.wire);
    assert_eq!(f[0], r#"{"id":0,"type":"payload_killed","pid":0,"reason":"operator","elapsed":0,"caused_by":null}"#);
    assert_eq!(f[1], r#"{"id":1,"type":"rpc","rpc":{"jsonrpc":"2.0","id":1,"result":{"status":"killed","pid":0,"elapsed":0}}}"#);
    assert_eq!(k.p.table[0].state, KILLED);
}

#[test]
fn kill_of_a_running_payload_reports_elapsed_time() {
    let mut k = kernel();
    enqueue(&mut k.p, IMG_RUNAWAY, 0, NO_PID).unwrap();
    k.p.table[0].state = RUNNING;
    k.p.table[0].started_at = 400;
    k.p.table[0].start_event = 9;
    let (_, out) = call(&mut k, r#"{"id":1,"method":"tools/call","params":{"name":"kill","arguments":{"pid":0}}}"#);
    assert!(out.ends_with(r#"{"status":"killed","pid":0,"elapsed":600}}}"#), "{}", out);
}

#[test]
fn surface_and_autonomy_dials() {
    let mut k = kernel();
    let (_, out) = call(&mut k, r#"{"id":1,"method":"tools/call","params":{"name":"set_surface","arguments":{"mode":"classic"}}}"#);
    assert!(out.ends_with(r#""result":{"surface":"classic"}}}"#));
    assert!(k.t.classic_surface);
    let (_, out) = call(&mut k, r#"{"id":1,"method":"resources/read","params":{"uri":"surface"}}"#);
    assert!(out.ends_with(r#""result":{"surface":"classic"}}}"#));
    let (_, out) = call(&mut k, r#"{"id":1,"method":"tools/call","params":{"name":"set_surface","arguments":{"mode":"x"}}}"#);
    assert!(out.contains("mode must be classic|agentic"));
    let (_, out) = call(&mut k, r#"{"id":1,"method":"tools/call","params":{"name":"set_autonomy","arguments":{"mode":"autonomous"}}}"#);
    assert!(out.ends_with(r#""result":{"autonomy":"autonomous"}}}"#));
    assert!(k.t.autonomous);
    let (_, out) = call(&mut k, r#"{"id":1,"method":"resources/read","params":{"uri":"autonomy"}}"#);
    assert!(out.ends_with(r#""result":{"autonomy":"autonomous"}}}"#));
    let (_, out) = call(&mut k, r#"{"id":1,"method":"tools/call","params":{"name":"set_autonomy","arguments":{}}}"#);
    assert!(out.contains("mode must be reactive|autonomous"));
}

#[test]
fn unknown_and_missing_tool() {
    let mut k = kernel();
    let (_, out) = call(&mut k, r#"{"id":1,"method":"tools/call","params":{"name":"fly"}}"#);
    assert!(out.contains("unknown tool"));
    let (_, out) = call(&mut k, r#"{"id":1,"method":"tools/call"}"#);
    assert!(out.contains("missing tool name"));
}

#[test]
fn resources_read_ring_processes_and_spec() {
    let mut k = kernel();
    ring_record(&mut k.t, 5, CAUSE_U_ECALL, 0x1000, 0);
    let (_, out) = call(&mut k, r#"{"id":1,"method":"resources/read","params":{"uri":"trap_ring"}}"#);
    assert!(out.ends_with(r#""result":{"count":1,"entries":[{"id":5,"cause":"ecall","sepc":"0x1000"}]}}}"#), "{}", out);
    let (_, out) = call(&mut k, r#"{"id":1,"method":"tools/call","params":{"name":"ring_read"}}"#);
    assert!(out.ends_with(r#""result":{"count":1,"entries":[{"id":5,"cause":"ecall","sepc":"0x1000"}]}}}"#));
    let (_, out) = call(&mut k, r#"{"id":1,"method":"resources/read","params":{"uri":"processes"}}"#);
    assert!(out.ends_with(r#""result":{"processes":[]}}}"#), "{}", out);
    let (_, out) = call(&mut k, r#"{"id":1,"method":"resources/read","params":{"uri":"spec"}}"#);
    assert!(out.contains(r#""arch":"riscv64""#));
    let (_, out) = call(&mut k, r#"{"id":1,"method":"resources/read","params":{"uri":"nope"}}"#);
    assert!(out.contains("unknown resource"));
    let (_, out) = call(&mut k, r#"{"id":1,"method":"resources/read","params":{}}"#);
    assert!(out.contains("missing uri"));
}

#[test]
fn digest_is_budgeted_newest_first() {
    let mut k = kernel();
    ring_record(&mut k.t, 1, CAUSE_ILLEGAL_INSTRUCTION, 0x10, 0);
    ring_record(&mut k.t, 2, CAUSE_U_ECALL, 0x20, 0);
    ring_record(&mut k.t, 3, CAUSE_S_TIMER, 0x30, 0);
    let (_, out) = call(&mut k, r#"{"id":1,"method":"resources/read","params":{"uri":"digest","budget":1}}"#);
    assert!(out.ends_with(r#""result":{"budget":1,"autonomy":"reactive","totals":{"traps":3,"timer":0,"ecall":1,"fault":1},"by_severity":{"error":1,"info":1,"trace":0},"items":[{"id":2,"severity":"info","cause":"ecall","sepc":"0x20"}],"elided":2}}}"#), "{}", out);
    let (_, out) = call(&mut k, r#"{"id":1,"method":"resources/read","params":{"uri":"digest"}}"#);
    assert!(out.contains(r#""budget":4,"#));
    assert!(out.contains(r#""items":[{"id":2,"severity":"info","cause":"ecall","sepc":"0x20"},{"id":1,"severity":"error","cause":"illegal_instruction","sepc":"0x10"}],"elided":1"#), "{}", out);
    let (_, out) = call(&mut k, r#"{"id":1,"method":"resources/read","params":{"uri":"digest","budget":1000}}"#);
    assert!(out.contains(r#""budget":64,"#));
}

#[test]
fn oversized_response_becomes_too_large_error() {
    let mut ev = Events::new();
    let mut wire = Vec::new();
    emit_rpc(&mut ev, &mut wire, &vec![b'x'; 3000]);
    assert_eq!(frames(&wire), vec![r#"{"id":0,"type":"rpc","rpc":{"jsonrpc":"2.0","id":null,"error":{"code":-32001,"message":"response too large"}}}"#.to_string()]);
    let mut wire = Vec::new();
    emit_rpc(&mut ev, &mut wire, b"{}");
    assert_eq!(frames(&wire), vec![r#"{"id":1,"type":"rpc","rpc":{}}"#.to_string()]);
}

#[test]
fn op_log_remembers_the_last_eight() {
    let mut log = OpLog::new();
    let h = fnv1a(b"op");
    assert!(!op_seen(&log, h));
    op_record(&mut log, h);
    assert!(op_seen(&log, h));
    for i in 0..8u8 {
        op_record(&mut log, fnv1a(&[i]));
    }
    assert!(!op_seen(&log, h));
    assert_eq!(fnv1a(b"") & 1, 1);
    assert_eq!(fnv1a(b"a"), 0xaf63dc4c8601ec8c | 1);
}

#[test]
fn an_op_id_stays_seen_through_seven_more_records() {
    let mut log = OpLog::new();
    let h = fnv1a(b"first");
    op_record(&mut log, h);
    for i in 0..7u8 {
        op_record(&mut log, fnv1a(&[b'x', i]));
        assert!(op_seen(&log, h));
    }
    op_record(&mut log, fnv1a(b"eighth"));
    assert!(!op_seen(&log, h));
}

fn feed(r: &mut RequestReader, bytes: &[u8]) -> Vec<String> {
    let mut out = Vec::new();
    for &b in bytes {
        match read_request(r, b) {
            ReadStep::More => {},
            ReadStep::Drop => out.push("drop".to_string()),
            ReadStep::Request(v) => out.push(String::from_utf8(v).unwrap()),
        }
    }
    out
}

#[test]
fn reader_returns_a_framed_object() {
    let mut r = RequestReader::new();
    let body = br#" {"id":1}"#;
    let mut bytes = vec![0x99];
    bytes.extend_from_slice(&(body.len() as u32).to_le_bytes());
    bytes.extend_from_slice(body);
    assert_eq!(feed(&mut r, &bytes), vec![r#" {"id":1}"#.to_string()]);
}

#[test]
fn reader_drops_junk() {
    let mut r = RequestReader::new();
    assert_eq!(feed(&mut r, &[0x42]), vec!["drop".to_string()]);
    let mut r = RequestReader::new();
    assert_eq!(feed(&mut r, &[0x99, 0, 0, 0, 0]), vec!["drop".to_string()]);
    let mut r = RequestReader::new();
    let too_long = (MAX_REQ as u32 + 1).to_le_bytes();
    assert_eq!(feed(&mut r, &[0x99, too_long[0], too_long[1], too_long[2], too_long[3]]), vec!["drop".to_string()]);
    let mut r = RequestReader::new();
    assert_eq!(feed(&mut r, &[0x99, 2, 0, 0, 0, b'[', b']']), vec!["drop".to_string()]);
    let mut r = RequestReader::new();
    assert_eq!(feed(&mut r, &[0x99, 2, 0, 0, 0, b'{', 0xff]), vec!["drop".to_string()]);
}

#[test]
fn reader_waits_for_the_whole_body() {
    let mut r = RequestReader::new();
    assert!(feed(&mut r, &[0x99, 2, 0, 0, 0, b'{']).is_empty());
    assert_eq!(feed(&mut r, &[b'}']), vec!["{}".to_string()]);
}

#[test]
fn memory_resource_reports_the_allocator() {
    let mut k = kernel();
    let mut m = kernai::phys::PhysMem::new();
    kernai::frames::alloc_frame(&mut k.fa, &mut m).unwrap();
    kernai::frames::alloc_frame(&mut k.fa, &mut m).unwrap();
    let (_, out) = call(&mut k, r#"{"id":3,"method":"resources/read","params":{"uri":"memory"}}"#);
    assert_eq!(out, r#"{"id":0,"type":"rpc","rpc":{"jsonrpc":"2.0","id":3,"result":{"allocated":2,"capacity":31744}}}"#);
}

#[test]
fn set_budget_sets_a_live_payloads_deadline() {
    let mut k = kernel();
    let pid = enqueue(&mut k.p, IMG_RUNAWAY, 0, NO_PID).unwrap();
    let req = format!(r#"{{"id":4,"method":"tools/call","params":{{"name":"set_budget","opId":"b1","arguments":{{"pid":"{}","deadline":"500"}}}}}}"#, pid);
    let (act, out) = call(&mut k, &req);
    assert!(act == RpcAction::Idle);
    assert!(out.ends_with(r#""result":{"status":"budget_set","pid":0,"deadline":500}}}"#), "{}", out);
    assert_eq!(k.p.table[pid].deadline, 500);
    let (_, out) = call(&mut k, &req);
    assert!(out.contains(r#""status":"duplicate""#), "{}", out);
    let (_, out) = call(&mut k, r#"{"id":5,"method":"tools/call","params":{"name":"set_budget","arguments":{"pid":"3","deadline":"1"}}}"#);
    assert!(out.contains("no live payload with that pid"), "{}", out);
    let (_, out) = call(&mut k, r#"{"id":6,"method":"tools/call","params":{"name":"set_budget","arguments":{"pid":"0"}}}"#);
    assert!(out.contains("missing deadline"), "{}", out);
}

#[test]
fn a_stalled_frame_is_abandoned_after_sixteen_idle_waits() {
    let mut r = RequestReader::new();
    assert!(matches!(read_request(&mut r, 0x99), ReadStep::More));
    for _ in 0..16 {
        assert!(matches!(idle_wait(&mut r), ReadStep::More));
    }
    assert!(matches!(idle_wait(&mut r), ReadStep::Drop));
    // a byte resets the count
    let mut r = RequestReader::new();
    for _ in 0..16 {
        assert!(matches!(idle_wait(&mut r), ReadStep::More));
    }
    assert!(matches!(read_request(&mut r, 0x99), ReadStep::More));
    for _ in 0..16 {
        assert!(matches!(idle_wait(&mut r), ReadStep::More));
    }
    assert!(matches!(idle_wait(&mut r), ReadStep::Drop));
}

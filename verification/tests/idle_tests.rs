use kernai::events::Events;
use kernai::idle::{emit_hello, emit_panic, idle_command, IdleAction};
use kernai::rpc::Suite;

#[test]
fn hello_is_event_zero() {
    let mut ev = Events::new();
    let mut wire = Vec::new();
    emit_hello(&mut ev, &mut wire);
    assert_eq!(&wire[6..], br#"{"id":0,"type":"hello","name":"kernai","proto":0}"#);
    assert_eq!(ev.next, 1);
}

#[test]
fn panic_report_is_escaped() {
    let mut ev = Events::new();
    let mut wire = Vec::new();
    emit_panic(&mut ev, &mut wire, b"src/x.rs:3", b"bad \"thing\"");
    assert_eq!(&wire[6..], br#"{"id":0,"type":"panic","location":"src/x.rs:3","msg":"bad \"thing\""}"#);
}

#[test]
fn command_bytes() {
    assert!(idle_command(Some(b'r')) == IdleAction::RingDump);
    assert!(idle_command(Some(b'x')) == IdleAction::Crash);
    assert!(idle_command(Some(b'p')) == IdleAction::RunSuite(Suite::M3));
    assert!(idle_command(Some(b'm')) == IdleAction::RunSuite(Suite::M4));
    assert!(idle_command(Some(b'i')) == IdleAction::RunSuite(Suite::M5));
    assert!(idle_command(Some(b'f')) == IdleAction::RunSuite(Suite::M6));
    assert!(idle_command(Some(0xAA)) == IdleAction::Request);
    assert!(idle_command(Some(b'q')) == IdleAction::Wait);
    assert!(idle_command(None) == IdleAction::Wait);
}

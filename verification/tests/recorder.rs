use assert_call::pattern::Call;
use assert_call::records::{CallRecord, Record, Records, Registry};
use assert_call::CallRecorder;

fn push(reg: &mut Registry, thread_id: u64, id: &str) {
    assert!(Records::push(
        reg,
        id.to_string(),
        "src/lib.rs".to_string(),
        1,
        thread_id,
        None,
    ));
}

#[test]
fn new() {
    let mut reg = Registry::new();
    let mut c = CallRecorder::new(&mut reg, 0).unwrap();
    push(&mut reg, 0, "1");
    assert!(c.verify(&mut reg, Call::id("1")).is_ok());
    c.release(&mut reg);
}

#[test]
fn new_thread() {
    // with process-scoped capture another thread's call lands in the same trace
    let mut reg = Registry::new();
    let mut c = CallRecorder::new(&mut reg, 0).unwrap();
    push(&mut reg, 1, "1");
    assert!(c.verify(&mut reg, Call::id("1")).is_ok());
    c.release(&mut reg);
}

#[test]
fn new_parallel() {
    // at most one process-scoped session is ever active
    let mut reg = Registry::new();
    let first = CallRecorder::new(&mut reg, 0).unwrap();
    for attempt in 1..10u64 {
        assert!(CallRecorder::new(&mut reg, attempt).is_none());
    }
    first.release(&mut reg);
    let second = CallRecorder::new(&mut reg, 1);
    assert!(second.is_some());
    second.unwrap().release(&mut reg);
}

#[test]
fn new_local() {
    let mut reg = Registry::new();
    let mut c = CallRecorder::new_local(&mut reg, 7).unwrap();
    push(&mut reg, 7, "1");
    assert!(c.verify(&mut reg, Call::id("1")).is_ok());
    c.release(&mut reg);
}

#[test]
fn new_local_nested() {
    // the second thread-scoped claim in one thread is refused on the spot
    let mut reg = Registry::new();
    let cr = CallRecorder::new_local(&mut reg, 7).unwrap();
    assert!(CallRecorder::new_local(&mut reg, 7).is_none());
    cr.release(&mut reg);
}

#[test]
fn extra_call() {
    let mut reg = Registry::new();
    let mut c = CallRecorder::new_local(&mut reg, 7).unwrap();
    push(&mut reg, 7, "1");
    assert!(c.verify(&mut reg, Call::empty()).is_err());
    c.release(&mut reg);
}

#[test]
fn not_call() {
    let mut reg = Registry::new();
    let mut c = CallRecorder::new_local(&mut reg, 7).unwrap();
    assert!(c.verify(&mut reg, Call::id("1")).is_err());
    c.release(&mut reg);
}

#[test]
fn not_expect() {
    let mut reg = Registry::new();
    let mut c = CallRecorder::new_local(&mut reg, 7).unwrap();
    push(&mut reg, 7, "1");
    assert!(c.verify(&mut reg, Call::empty()).is_err());
    c.release(&mut reg);
}

#[test]
fn verify_2() {
    let mut reg = Registry::new();
    let mut c = CallRecorder::new(&mut reg, 0).unwrap();
    push(&mut reg, 0, "1");
    push(&mut reg, 0, "2");
    assert!(c.verify(&mut reg, Call::seq(vec![Call::id("1"), Call::id("2")])).is_ok());

    push(&mut reg, 0, "3");
    push(&mut reg, 0, "4");
    assert!(c.verify(&mut reg, Call::seq(vec![Call::id("3"), Call::id("4")])).is_ok());
    c.release(&mut reg);
}

#[test]
fn verify_2_local() {
    let mut reg = Registry::new();
    let mut c = CallRecorder::new_local(&mut reg, 7).unwrap();
    push(&mut reg, 7, "1");
    push(&mut reg, 7, "2");
    assert!(c.verify(&mut reg, Call::seq(vec![Call::id("1"), Call::id("2")])).is_ok());

    push(&mut reg, 7, "3");
    push(&mut reg, 7, "4");
    assert!(c.verify(&mut reg, Call::seq(vec![Call::id("3"), Call::id("4")])).is_ok());
    c.release(&mut reg);
}

#[test]
fn no_call_recorder() {
    // recording with no active session anywhere is reported, not swallowed
    let mut reg = Registry::new();
    let rec = Record {
        id: "0".to_string(),
        file: "src/lib.rs".to_string(),
        line: 1,
        thread_id: 0,
        backtrace: None,
    };
    assert!(!reg.push(rec));
}

#[test]
fn record_routes_to_local() {
    let mut reg = Registry::new();
    let mut c = CallRecorder::new_local(&mut reg, 3).unwrap();
    let call = CallRecord {
        id: "a".to_string(),
        file: "src/lib.rs".to_string(),
        line: 10,
        };
    assert!(call.record(&mut reg, 3, None));
    assert!(c.verify(&mut reg, Call::id("a")).is_ok());
    c.release(&mut reg);
}

#[test]
fn record_without_session_is_unused() {
    let mut reg = Registry::new();
    let call = CallRecord {
        id: "a".to_string(),
        file: "src/lib.rs".to_string(),
        line: 10,
    };
    assert!(!call.record(&mut reg, 3, None));
}

#[test]
fn local_does_not_capture_other_threads() {
    let mut reg = Registry::new();
    let mut c = CallRecorder::new_local(&mut reg, 3).unwrap();
    let rec = Record {
        id: "b".to_string(),
        file: "src/lib.rs".to_string(),
        line: 2,
        thread_id: 4,
        backtrace: None,
    };
    // no cell for thread 4 anywhere: the record is not taken
    assert!(!reg.push(rec));
    assert!(c.verify(&mut reg, Call::empty()).is_ok());
    c.release(&mut reg);
}

#[test]
fn drains_are_idempotent() {
    // each verification sees only what was pushed since the prior drain
    let mut reg = Registry::new();
    let mut c = CallRecorder::new_local(&mut reg, 2).unwrap();
    push(&mut reg, 2, "x");
    assert!(c.verify(&mut reg, Call::id("x")).is_ok());
    push(&mut reg, 2, "y");
    assert!(c.verify(&mut reg, Call::id("y")).is_ok());
    c.release(&mut reg);

    // both pushes checked in one verification also succeed
    let mut c2 = CallRecorder::new_local(&mut reg, 2).unwrap();
    push(&mut reg, 2, "x");
    push(&mut reg, 2, "y");
    assert!(c2.verify(&mut reg, Call::seq(vec![Call::id("x"), Call::id("y")])).is_ok());
    c2.release(&mut reg);
}

use assert_call::pattern::{Call, ToCall};
use assert_call::records::{Record, Records};

fn trace(ids: &[&str]) -> Records {
    let mut v = Vec::new();
    for id in ids {
        v.push(Record {
            id: id.to_string(),
            file: "src/lib.rs".to_string(),
            line: 1,
            thread_id: 0,
            backtrace: None,
        });
    }
    Records(v)
}

fn ids(xs: &[&str]) -> Call {
    let mut v = Vec::new();
    for x in xs {
        v.push(Call::id(x));
    }
    Call::seq(v)
}

#[test]
fn id() {
    let p = Call::id("1");
    assert!(p.verify(trace(&["1"]), "m", 0).is_ok());
}

#[test]
fn seq_array() {
    assert!(ids(&["1", "2", "3"]).verify(trace(&["1", "2", "3"]), "m", 0).is_ok());
}

#[test]
fn seq_vec() {
    let p = vec![Call::id("1"), Call::id("2"), Call::id("3")].to_call();
    assert!(p.verify(trace(&["1", "2", "3"]), "m", 0).is_ok());
}

#[test]
fn seq_fail_not_call() {
    let e = ids(&["1", "2"]).verify(trace(&["1"]), "m", 0).unwrap_err();
    assert_eq!(e.mismatch_index, 1);
    assert_eq!(e.expect, vec!["2".to_string()]);
}

#[test]
fn seq_fail_wrong_order() {
    let e = ids(&["1", "2"]).verify(trace(&["2", "1"]), "m", 0).unwrap_err();
    assert_eq!(e.mismatch_index, 0);
    assert_eq!(e.expect, vec!["1".to_string()]);
}

#[test]
fn any() {
    let expect = Call::any(vec![Call::id("1"), Call::id("2"), Call::id("3")]);
    assert!(expect.to_call().verify(trace(&["1"]), "m", 0).is_ok());
    assert!(expect.to_call().verify(trace(&["3"]), "m", 0).is_ok());
    assert!(expect.to_call().verify(trace(&["2"]), "m", 0).is_ok());
}

#[test]
fn any_fail_not_match() {
    let expect = Call::any(vec![Call::id("1"), Call::id("2"), Call::id("3")]);
    let e = expect.verify(trace(&["4"]), "m", 0).unwrap_err();
    assert_eq!(e.mismatch_index, 0);
    assert_eq!(
        e.expect,
        vec!["1".to_string(), "2".to_string(), "3".to_string()]
    );
}

#[test]
fn any_fail_not_call() {
    let expect = Call::any(vec![Call::id("1"), Call::id("2"), Call::id("3")]);
    assert!(expect.verify(trace(&[]), "m", 0).is_err());
}

#[test]
fn any_fail_extra_call() {
    let expect = Call::any(vec![Call::id("1"), Call::id("2"), Call::id("3")]);
    assert!(expect.verify(trace(&["1", "2"]), "m", 0).is_err());
}

#[test]
fn any_seq() {
    let expect = Call::any(vec![ids(&["1", "2"]), ids(&["a", "b"])]);
    assert!(expect.to_call().verify(trace(&["a", "b"]), "m", 0).is_ok());
    assert!(expect.to_call().verify(trace(&["1", "2"]), "m", 0).is_ok());
}

#[test]
fn par() {
    let expect = Call::par(vec![Call::id("1"), Call::id("2"), Call::id("3")]);
    assert!(expect.to_call().verify(trace(&["1", "2", "3"]), "m", 0).is_ok());
    assert!(expect.to_call().verify(trace(&["3", "1", "2"]), "m", 0).is_ok());
}

#[test]
fn par_seq() {
    let expect = Call::par(vec![ids(&["1", "2"]), ids(&["a", "b"])]);
    assert!(expect.verify(trace(&["1", "a", "b", "2"]), "m", 0).is_ok());
}

#[test]
fn par_all_interleavings_of_disjoint_branches() {
    let traces: [&[&str]; 6] = [
        &["1", "2", "a", "b"],
        &["1", "a", "2", "b"],
        &["1", "a", "b", "2"],
        &["a", "1", "2", "b"],
        &["a", "1", "b", "2"],
        &["a", "b", "1", "2"],
    ];
    for t in traces {
        let expect = Call::par(vec![ids(&["1", "2"]), ids(&["a", "b"])]);
        assert!(expect.verify(trace(t), "m", 0).is_ok());
    }
}

#[test]
fn par_rejects_order_broken_within_a_branch() {
    let expect = Call::par(vec![ids(&["1", "2"]), ids(&["a", "b"])]);
    assert!(expect.verify(trace(&["2", "1", "a", "b"]), "m", 0).is_err());
}

#[test]
fn any_rejects_with_union_of_expectations() {
    let expect = Call::any(vec![ids(&["1", "2"]), ids(&["a", "b"])]);
    let e = expect.verify(trace(&["x"]), "m", 0).unwrap_err();
    assert_eq!(e.mismatch_index, 0);
    assert_eq!(e.expect, vec!["1".to_string(), "a".to_string()]);
}

#[test]
fn call_format() {
    let x = 10;
    let p = ids(&["a_10", "b_10"]);
    let mut v = Vec::new();
    for id in [format!("a_{x}"), format!("b_{}", x)] {
        v.push(Record {
            id,
            file: "src/lib.rs".to_string(),
            line: 1,
            thread_id: 0,
            backtrace: None,
        });
    }
    assert!(p.verify(Records(v), "m", 0).is_ok());
}

#[test]
fn number_converts_to_its_decimal_identifier() {
    let p = 10usize.to_call();
    assert!(p.verify(trace(&["10"]), "m", 0).is_ok());
    let q = 10usize.to_call();
    assert!(q.verify(trace(&["11"]), "m", 0).is_err());
}

#[test]
fn mismatch_example_reports_position_and_expectation() {
    // trace ["1","2"] against pattern ["1","3"]
    let e = ids(&["1", "3"]).verify(trace(&["1", "2"]), "m", 7).unwrap_err();
    assert_eq!(e.mismatch_index, 1);
    assert_eq!(e.expect, vec!["3".to_string()]);
    assert_eq!(e.actual.0[1].id, "2");
    assert_eq!(e.thread_id, 7);
}

#[test]
fn empty_trace_examples() {
    // the nothing-expected pattern accepts the empty trace
    assert!(Call::empty().verify(trace(&[]), "m", 0).is_ok());
    // a single expected identifier rejects it at the end marker
    let e = Call::id("1").verify(trace(&[]), "m", 0).unwrap_err();
    assert_eq!(e.mismatch_index, 0);
    assert_eq!(e.expect, vec!["1".to_string()]);
    assert_eq!(e.actual.id_at(0), "(end)");
}

#[test]
fn par_greedy_commitment_on_shared_identifiers() {
    // the matcher routes an event to the first branch that takes it and
    // never backtracks: with a shared identifier, an interleaving that
    // needed the other routing is rejected
    let expect = Call::par(vec![ids(&["e"]), ids(&["e", "x"])]);
    let e = expect.verify(trace(&["e", "x", "e"]), "m", 0).unwrap_err();
    assert_eq!(e.mismatch_index, 1);
    assert_eq!(e.expect, vec!["e".to_string()]);
}

#[test]
fn par_trial_leaves_any_sibling_intact() {
    // a failed trial on the first branch must not prune its alternatives:
    // "x" is routed to the second branch, and the first branch's
    // alternative still accepts the rest of the trace
    let expect = Call::par(vec![Call::any(vec![ids(&["a", "b"])]), Call::id("x")]);
    assert!(expect.verify(trace(&["x", "a", "b"]), "m", 0).is_ok());
}

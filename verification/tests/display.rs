use assert_call::pattern::Call;
use assert_call::records::{Record, Records};

fn dummy(id: &str) -> Record {
    Record {
        id: id.to_string(),
        file: "tests\\test.rs".to_string(),
        line: 10,
        thread_id: 5,
        backtrace: None,
    }
}

fn trace(ids: &[&str]) -> Records {
    Records(ids.iter().map(|id| dummy(id)).collect())
}

fn seq_of(ids: &[&str]) -> Call {
    Call::seq(ids.iter().map(|id| Call::id(id)).collect())
}

#[test]
fn err() {
    let e = seq_of(&["1"])
        .verify(trace(&["0"]), "(message)", 5)
        .unwrap_err();
    let shown = e.display(false, false);
    let expect = r"
actual calls :
* 0
  (end)

(message)
tests\test.rs:10
actual : 0
expect : 1";
    assert_eq!(shown.trim(), expect.trim());
}

#[test]
fn err_many_expect() {
    let e = Call::any(vec![
        Call::id("1"),
        Call::id("2"),
        Call::id("1"),
        Call::id("2"),
    ])
    .verify(trace(&["0"]), "(message)", 5)
    .unwrap_err();
    let shown = e.display(false, false);
    let expect = r"
actual calls :
* 0
  (end)

(message)
tests\test.rs:10
actual : 0
expect : 1, 2";
    assert_eq!(shown.trim(), expect.trim());
}

#[test]
fn many_calls() {
    let mut ids = Vec::new();
    for i in 0..20 {
        if i == 10 {
            ids.push("None".to_string());
        } else {
            ids.push(format!("{i}"));
        }
    }
    let actual = Records(ids.iter().map(|id| dummy(id)).collect());
    let mut expect_pat = Vec::new();
    for i in 0..20u64 {
        expect_pat.push(Call::id(&format!("{i}")));
    }
    let e = Call::seq(expect_pat)
        .verify(actual, "(message)", 5)
        .unwrap_err();
    let shown = e.display(false, false);
    let expect = r"
actual calls :
  ...(previous 5 calls omitted)
  5
  6
  7
  8
  9
* None
  11
  12
  13
  14
  15
  ...(following 4 calls omitted)

(message)
tests\test.rs:10
actual : None
expect : 10";
    assert_eq!(shown.trim(), expect.trim());
}

#[test]
fn colored_mismatch_line_is_wrapped_in_red() {
    let e = seq_of(&["1", "3"])
        .verify(trace(&["1", "2"]), "(message)", 5)
        .unwrap_err();
    let shown = e.display(false, true);
    let expect = "actual calls :\n  1\n\u{1b}[31m* 2\u{1b}[0m\n  (end)\n\n(message)\ntests\\test.rs:10\nactual : 2\nexpect : 3\n";
    assert_eq!(shown, expect);
}

#[test]
fn backtrace_section_lists_entries_up_to_the_mismatch() {
    let mut rec = dummy("0");
    rec.backtrace = Some("bt zero".to_string());
    let e = seq_of(&["1"])
        .verify(Records(vec![rec]), "(message)", 5)
        .unwrap_err();
    let shown = e.display(true, false);
    let expect = "actual calls with backtrace :\n# 0\ntests\\test.rs:10\nthread: 5\nbt zero\n# (end)\n\nactual calls :\n* 0\n  (end)\n\n(message)\ntests\\test.rs:10\nthread : 5\nactual : 0\nexpect : 1\n";
    assert_eq!(shown, expect);
}

#[test]
fn backtrace_flag_without_captures_changes_only_the_thread_line() {
    let e = seq_of(&["1"])
        .verify(trace(&["0"]), "(message)", 5)
        .unwrap_err();
    let shown = e.display(true, false);
    let expect = "actual calls :\n* 0\n  (end)\n\n(message)\ntests\\test.rs:10\nthread : 5\nactual : 0\nexpect : 1\n";
    assert_eq!(shown, expect);
}

use rustdoc_ot::model::Op;
use rustdoc_ot::ops::OpSeq;
use rustdoc_ot::store::{EditError, State};

fn seq_of(build: &[Op]) -> OpSeq {
    let mut o = OpSeq::new();
    for op in build {
        match op {
            Op::Retain(n) => o.retain(*n as u32),
            Op::Delete(n) => o.delete(*n as u32),
            Op::Insert(s) => o.insert(s),
        }
    }
    o
}

fn replay(state: &State) -> String {
    let mut text = String::new();
    for entry in state.history_since(0) {
        text = entry.operation.apply(&text).unwrap();
    }
    text
}

#[test]
fn new_store_is_empty() {
    let s = State::new();
    assert_eq!(s.text(), "");
    assert_eq!(s.revision(), 0);
    assert!(s.history_since(0).is_empty());
}

#[test]
fn two_clients_insert_at_same_place() {
    let mut s = State::new();
    let a = seq_of(&[Op::Insert("abc".to_string())]);
    assert_eq!(s.submit_edit(1, 0, a), Ok(1));
    assert_eq!(s.text(), "abc");
    let mut b = OpSeq::new();
    b.retain(0);
    b.insert("xyz");
    assert_eq!(s.submit_edit(2, 0, b), Ok(2));
    // The incoming edit is the first operand of the transform, so its insert goes first.
    assert_eq!(s.text(), "xyzabc");
    assert_eq!(s.revision(), 2);
}

#[test]
fn revision_counts_edits_and_history_replays() {
    let mut s = State::new();
    assert_eq!(s.submit_edit(0, 0, seq_of(&[Op::Insert("hello".to_string())])), Ok(1));
    assert_eq!(s.submit_edit(0, 1, seq_of(&[Op::Retain(5), Op::Insert(" world".to_string())])), Ok(2));
    assert_eq!(s.submit_edit(1, 1, seq_of(&[Op::Delete(1), Op::Insert("J".to_string()), Op::Retain(4)])), Ok(3));
    assert_eq!(s.submit_edit(2, 3, seq_of(&[Op::Retain(11), Op::Insert("!".to_string())])), Ok(4));
    assert_eq!(s.revision(), 4);
    assert_eq!(s.text(), "Jello world!");
    assert_eq!(replay(&s), s.text());
}

#[test]
fn stale_future_revision_is_rejected() {
    let mut s = State::new();
    s.submit_edit(0, 0, seq_of(&[Op::Insert("ab".to_string())])).unwrap();
    let r = s.submit_edit(1, 2, seq_of(&[Op::Retain(2)]));
    assert_eq!(r, Err(EditError::StaleFuture));
    assert_eq!(s.text(), "ab");
    assert_eq!(s.revision(), 1);
}

#[test]
fn length_mismatch_when_rebase_fails() {
    let mut s = State::new();
    s.submit_edit(0, 0, seq_of(&[Op::Insert("ab".to_string())])).unwrap();
    let r = s.submit_edit(1, 0, seq_of(&[Op::Retain(5)]));
    assert_eq!(r, Err(EditError::LengthMismatch));
    assert_eq!(s.text(), "ab");
    assert_eq!(s.revision(), 1);
}

#[test]
fn apply_mismatch_on_current_revision() {
    let mut s = State::new();
    s.submit_edit(0, 0, seq_of(&[Op::Insert("ab".to_string())])).unwrap();
    let r = s.submit_edit(1, 1, seq_of(&[Op::Retain(3)]));
    assert_eq!(r, Err(EditError::ApplyMismatch));
    assert_eq!(s.text(), "ab");
}

#[test]
fn concurrent_submitters_all_merge() {
    let mut s = State::new();
    s.submit_edit(0, 0, seq_of(&[Op::Insert("--".to_string())])).unwrap();
    let n: u64 = 5;
    for k in 0..n {
        let op = seq_of(&[Op::Retain(1), Op::Insert(format!("{}", k)), Op::Retain(1)]);
        assert_eq!(s.submit_edit(k + 1, 1, op), Ok(k as usize + 2));
    }
    assert_eq!(s.revision(), 6);
    assert_eq!(s.text(), "-43210-");
    assert_eq!(replay(&s), s.text());
}

#[test]
fn history_since_returns_suffix() {
    let mut s = State::new();
    for k in 0..3u64 {
        let op = seq_of(&[Op::Retain(k), Op::Insert("x".to_string())]);
        s.submit_edit(k, k as usize, op).unwrap();
    }
    let tail = s.history_since(1);
    assert_eq!(tail.len(), 2);
    assert_eq!(tail[0].id, 1);
    assert_eq!(tail[1].id, 2);
    assert!(s.history_since(3).is_empty());
    assert!(s.history_since(10).is_empty());
}

#[test]
fn json_bumps_counter() {
    let mut s = State::new();
    s.submit_edit(0, 0, seq_of(&[Op::Insert("z".to_string())])).unwrap();
    let copy = s.json();
    assert_eq!(copy.count, 1);
    assert_eq!(s.count, 1);
    assert_eq!(copy.text, "z");
    assert_eq!(copy.operations.len(), 1);
}

use rustdoc_ot::model::Op;
use rustdoc_ot::ops::OpSeq;

fn seq_of(build: &[Op]) -> OpSeq {
    let mut o = OpSeq::new();
    for op in build {
        match op {
            Op::Retain(n) => o.retain(*n as u32),
            Op::Delete(n) => o.delete(*n as u32),
            Op::Insert(s) => o.insert(s),
        }
    }
    o
}

#[test]
fn compose_operation() {
    let mut a = OpSeq::new();
    a.insert("abc");
    let mut b = OpSeq::new();
    b.retain(3);
    b.insert("def");
    let after_a = a.apply("").unwrap();
    let after_b = b.apply(&after_a).unwrap();
    let after_ab = a.compose(&b).unwrap().apply("").unwrap();
    assert_eq!(after_ab, after_b);
}

#[test]
fn transform_operations() {
    let s = "abc";
    let mut a = OpSeq::new();
    a.retain(3);
    a.insert("def");
    let mut b = OpSeq::new();
    b.retain(3);
    b.insert("ghi");
    let pair = a.transform(&b).unwrap();
    let (a_prime, b_prime) = (pair.first(), pair.second());
    let ab_prime = a.compose(&b_prime).unwrap();
    let ba_prime = b.compose(&a_prime).unwrap();
    let after_ab_prime = ab_prime.apply(s).unwrap();
    let after_ba_prime = ba_prime.apply(s).unwrap();
    assert_eq!(ab_prime.operations(), ba_prime.operations());
    assert_eq!(after_ab_prime, after_ba_prime);
}

#[test]
fn invert_operations() {
    let s = "abc";
    let mut o = OpSeq::new();
    o.retain(3);
    o.insert("def");
    let p = o.invert(s);
    assert_eq!(p.apply(&o.apply(s).unwrap()).unwrap(), s);
}

#[test]
fn apply_gives_target_length() {
    let a = seq_of(&[Op::Retain(2), Op::Delete(1), Op::Insert("héllo".to_string()), Op::Retain(1)]);
    assert_eq!(a.base_len(), 4);
    assert_eq!(a.target_len(), 8);
    let out = a.apply("abcd").unwrap();
    assert_eq!(out, "abhéllod");
    assert_eq!(out.chars().count(), a.target_len());
}

#[test]
fn apply_rejects_wrong_length() {
    let a = seq_of(&[Op::Retain(2), Op::Insert("x".to_string())]);
    assert_eq!(a.apply("abc"), None);
    assert_eq!(a.apply("a"), None);
    assert_eq!(a.apply("ab"), Some("abx".to_string()));
}

#[test]
fn compose_rejects_length_mismatch() {
    let a = seq_of(&[Op::Insert("abc".to_string())]);
    let b = seq_of(&[Op::Retain(2)]);
    assert!(a.compose(&b).is_none());
}

#[test]
fn composition_law_on_values() {
    let t = "hello world";
    let a = seq_of(&[Op::Retain(5), Op::Delete(6), Op::Insert("!".to_string())]);
    let b = seq_of(&[Op::Insert(">> ".to_string()), Op::Retain(6)]);
    let c = a.compose(&b).unwrap();
    assert_eq!(c.apply(t).unwrap(), b.apply(&a.apply(t).unwrap()).unwrap());
    assert_eq!(c.apply(t).unwrap(), ">> hello!");
}

#[test]
fn convergence_law_on_values() {
    let t = "abcdef";
    let a = seq_of(&[Op::Retain(1), Op::Delete(3), Op::Insert("X".to_string()), Op::Retain(2)]);
    let b = seq_of(&[Op::Retain(2), Op::Insert("YY".to_string()), Op::Delete(2), Op::Retain(2)]);
    let pair = a.transform(&b).unwrap();
    let ab = a.compose(&pair.second()).unwrap();
    let ba = b.compose(&pair.first()).unwrap();
    assert_eq!(ab.apply(t).unwrap(), ba.apply(t).unwrap());
}

#[test]
fn transform_puts_first_insert_first() {
    let a = seq_of(&[Op::Insert("abc".to_string())]);
    let b = seq_of(&[Op::Insert("xyz".to_string())]);
    let pair = a.transform(&b).unwrap();
    let merged = a.compose(&pair.second()).unwrap();
    assert_eq!(merged.apply("").unwrap(), "abcxyz");
}

#[test]
fn transform_rejects_different_bases() {
    let a = seq_of(&[Op::Retain(1)]);
    let b = seq_of(&[Op::Retain(2)]);
    assert!(a.transform(&b).is_none());
}

#[test]
fn invert_restores_deleted_text() {
    let t = "hello world";
    let a = seq_of(&[Op::Delete(6), Op::Insert("big ".to_string()), Op::Retain(5)]);
    let inv = a.invert(t);
    assert_eq!(inv.base_len(), a.target_len());
    assert_eq!(inv.apply(&a.apply(t).unwrap()).unwrap(), t);
}

#[test]
fn builders_merge_adjacent_operations() {
    let mut a = OpSeq::new();
    a.retain(2);
    a.retain(3);
    a.delete(1);
    a.delete(1);
    a.insert("ab");
    a.insert("c");
    assert_eq!(a.operations(), vec![Op::Retain(5), Op::Insert("abc".to_string()), Op::Delete(2)]);
    assert_eq!(a.base_len(), 7);
    assert_eq!(a.target_len(), 8);
}

#[test]
fn builders_ignore_zero() {
    let mut a = OpSeq::new();
    a.retain(0);
    a.delete(0);
    a.insert("");
    assert!(a.operations().is_empty());
    assert!(a.is_noop());
    a.retain(4);
    assert!(a.is_noop());
    a.delete(1);
    assert!(!a.is_noop());
}

#[test]
fn transform_index_moves_cursor() {
    let a = seq_of(&[Op::Retain(2), Op::Insert("xyz".to_string()), Op::Retain(3)]);
    assert_eq!(a.transform_index(1), 1);
    assert_eq!(a.transform_index(2), 5);
    assert_eq!(a.transform_index(4), 7);
    let d = seq_of(&[Op::Retain(1), Op::Delete(3), Op::Retain(2)]);
    assert_eq!(d.transform_index(0), 0);
    assert_eq!(d.transform_index(2), 1);
    assert_eq!(d.transform_index(5), 2);
    let u = seq_of(&[Op::Insert("éé".to_string()), Op::Retain(2)]);
    assert_eq!(u.transform_index(1), 3);
}

#[test]
fn json_text_of_edit() {
    let a = seq_of(&[Op::Retain(1), Op::Delete(2), Op::Insert("abc".to_string())]);
    assert_eq!(a.to_string(), "[1,\"abc\",-2]");
    assert_eq!(OpSeq::new().to_string(), "[]");
    let b = seq_of(&[Op::Retain(10), Op::Delete(123)]);
    assert_eq!(b.to_string(), "[10,-123]");
    let c = seq_of(&[Op::Insert("say \"hi\"".to_string())]);
    assert_eq!(c.to_string(), "[\"say \\\"hi\\\"\"]");
}

#[test]
fn consistency_check_accepts_built_edits() {
    let a = seq_of(&[Op::Retain(3), Op::Insert("q".to_string()), Op::Delete(1)]);
    assert!(a.is_consistent());
}

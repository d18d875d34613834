use crate::inverse::{invert_of, law_invert, lemma_invert_canonical};
use crate::model::{
    apply_ops, base_of, deleted, index_through, inserted, inserted_of, lemma_apply_len,
    lemma_deleted_canonical, lemma_deleted_sums, lemma_inserted_canonical, lemma_inserted_sums,
    lemma_retained_canonical, lemma_retained_sums, lemma_sum_prefix,
    lemma_sum_push, ops_json, kind, starts_with_insert, steps_over_then_inserts, op_base, op_positive, op_target, canonical, retained, target_of, Op, OpV,
};
use crate::ot::{
    base_len_of, char_count, composed_ops, ops_of, ot_apply, ot_base_len,
    ot_clone, ot_compose, ot_default, ot_delete, ot_insert, ot_invert, ot_is_noop,
    ot_ops, ot_retain, ot_target_len, ot_to_json, ot_transform, seq_wf, target_len_of,
    transformed_ops,
};
use operational_transform::OperationSeq;
use vstd::prelude::*;

verus! {

/// An edit: a canonical sequence of retain, insert and delete operations.
pub struct OpSeq(pub OperationSeq);

impl Clone for OpSeq {
    fn clone(&self) -> (r: OpSeq)
        ensures
            r == *self,
    {
        OpSeq(ot_clone(&self.0))
    }
}

/// The two results of a transform.
pub struct OpSeqPair(pub OpSeq, pub OpSeq);

impl OpSeqPair {
    /// The transformed `self` of the pair.
    pub fn first(&self) -> (r: OpSeq)
        ensures
            r == self.0,
    {
        self.0.clone()
    }

    /// The transformed `other` of the pair.
    pub fn second(&self) -> (r: OpSeq)
        ensures
            r == self.1,
    {
        self.1.clone()
    }
}

/// `c` is the composition of `a` then `b`.
pub open spec fn is_composition(a: OpSeq, b: OpSeq, c: OpSeq) -> bool {
    &&& c.wf()
    &&& c.ops() == composed_ops(a.ops(), b.ops())
    &&& c.base() == a.base()
    &&& c.target() == b.target()
    &&& forall|t: Seq<char>|
        t.len() == a.base() ==> #[trigger] apply_ops(c.ops(), t) == apply_ops(
            b.ops(),
            apply_ops(a.ops(), t),
        )
}

/// `(a2, b2)` is the transform of the concurrent pair `(a, b)`.
pub open spec fn is_transform(a: OpSeq, b: OpSeq, a2: OpSeq, b2: OpSeq) -> bool {
    &&& a2.wf()
    &&& b2.wf()
    &&& (a2.ops(), b2.ops()) == transformed_ops(a.ops(), b.ops())
    &&& a2.base() == b.target()
    &&& b2.base() == a.target()
    &&& a2.target() == b2.target()
    &&& starts_with_insert(a.ops()) && starts_with_insert(b.ops()) ==> steps_over_then_inserts(
        b2.ops(),
        a.ops()[0]->Insert_0,
        b.ops()[0]->Insert_0,
    )
    &&& forall|t: Seq<char>|
        t.len() == a.base() ==> #[trigger] apply_ops(b2.ops(), apply_ops(a.ops(), t))
            == apply_ops(a2.ops(), apply_ops(b.ops(), t))
}

/// `inv` is the inverse of `a` made from the text `s`.
pub open spec fn is_inverse(a: OpSeq, s: Seq<char>, inv: OpSeq) -> bool {
    &&& inv.ops() == invert_of(a.ops(), s)
    &&& inv.wf()
    &&& inv.base() == a.target()
    &&& inv.target() == a.base()
}

/// Where both concurrent edits start by inserting at the front, the converged text starts
/// with the insert of the first edit, then that of the second.
pub proof fn law_tie_break(a: OpSeq, b: OpSeq, a2: OpSeq, b2: OpSeq, t: Seq<char>)
    requires
        a.wf(),
        b.wf(),
        is_transform(a, b, a2, b2),
        starts_with_insert(a.ops()),
        starts_with_insert(b.ops()),
        t.len() == a.base(),
    ensures
        ({
            let x = a.ops()[0]->Insert_0;
            let y = b.ops()[0]->Insert_0;
            apply_ops(b2.ops(), apply_ops(a.ops(), t)).take((x.len() + y.len()) as int) == x + y
        }),
{
    let x = a.ops()[0]->Insert_0;
    let y = b.ops()[0]->Insert_0;
    let u = apply_ops(a.ops(), t);
    let rest_a = apply_ops(a.ops().skip(1), t);
    assert(u == x + rest_a);
    let ops = b2.ops();
    let z = ops[1]->Insert_0;
    let tail = ops.skip(1);
    assert(tail[0] == ops[1]);
    assert(u.take(x.len() as int) =~= x);
    let v = u.skip(x.len() as int);
    assert(apply_ops(tail, v) == z + apply_ops(tail.skip(1), v));
    assert(apply_ops(ops, u) == x + apply_ops(tail, v));
    assert((x + (z + apply_ops(tail.skip(1), v))).take((x.len() + y.len()) as int) =~= x + y);
}

impl OpSeq {
    /// The operations, as mathematical values.
    pub open spec fn ops(&self) -> Seq<OpV> {
        ops_of(self.0)
    }

    /// Length of text this edit applies to.
    pub open spec fn base(&self) -> nat {
        base_len_of(self.0)
    }

    /// Length of text this edit produces.
    pub open spec fn target(&self) -> nat {
        target_len_of(self.0)
    }

    /// The operations are in canonical form and the recorded lengths are theirs.
    pub open spec fn wf(&self) -> bool {
        seq_wf(self.0)
    }

    /// The empty edit.
    pub fn new() -> (r: OpSeq)
        ensures
            r.wf(),
            r.ops() == Seq::<OpV>::empty(),
            r.base() == 0,
            r.target() == 0,
    {
        let r = OpSeq(ot_default());
        assert(r.ops() =~= Seq::<OpV>::empty());
        r
    }

    /// Appends a retain of `n` characters.
    pub fn retain(&mut self, n: u32)
        requires
            old(self).wf(),
            old(self).base() + n <= i64::MAX,
            old(self).target() + n <= i64::MAX,
        ensures
            final(self).wf(),
            final(self).ops() == retained(old(self).ops(), n as nat),
            final(self).base() == old(self).base() + n,
            final(self).target() == old(self).target() + n,
    {
        ot_retain(&mut self.0, n as u64);
        proof {
            lemma_retained_sums(old(self).ops(), n as nat);
            lemma_retained_canonical(old(self).ops(), n as nat);
        }
    }

    /// Appends a delete of `n` characters.
    pub fn delete(&mut self, n: u32)
        requires
            old(self).wf(),
            old(self).base() + n <= i64::MAX,
        ensures
            final(self).wf(),
            final(self).ops() == deleted(old(self).ops(), n as nat),
            final(self).base() == old(self).base() + n,
            final(self).target() == old(self).target(),
    {
        ot_delete(&mut self.0, n as u64);
        proof {
            lemma_deleted_sums(old(self).ops(), n as nat);
            lemma_deleted_canonical(old(self).ops(), n as nat);
        }
    }

    /// Appends an insert of `t`.
    pub fn insert(&mut self, t: &str)
        requires
            old(self).wf(),
            old(self).target() + t@.len() <= i64::MAX,
        ensures
            final(self).wf(),
            final(self).ops() == inserted(old(self).ops(), t@),
            final(self).base() == old(self).base(),
            final(self).target() == old(self).target() + t@.len(),
    {
        ot_insert(&mut self.0, t);
        proof {
            lemma_inserted_sums(old(self).ops(), t@);
            lemma_inserted_canonical(old(self).ops(), t@);
        }
    }

    /// Length of text this edit applies to.
    pub fn base_len(&self) -> (r: usize)
        ensures
            r == self.base(),
    {
        ot_base_len(&self.0)
    }

    /// Length of text this edit produces.
    pub fn target_len(&self) -> (r: usize)
        ensures
            r == self.target(),
    {
        ot_target_len(&self.0)
    }

    /// True when the edit changes nothing: no operation, or a single retain.
    pub fn is_noop(&self) -> (r: bool)
        ensures
            r == (self.ops().len() == 0 || (self.ops().len() == 1 && self.ops()[0] is Retain)),
    {
        ot_is_noop(&self.0)
    }

    /// Runs the edit over `s`; `None` when `s` does not have the base length.
    pub fn apply(&self, s: &str) -> (r: Option<String>)
        requires
            self.wf(),
        ensures
            r is Some <==> s@.len() == self.base(),
            r matches Some(out) ==> out@ == apply_ops(self.ops(), s@),
        r matches Some(out) ==> out@.len() == self.target(),
    {
        proof {
            if s@.len() == self.base() {
                lemma_apply_len(self.ops(), s@);
            }
        }
        match ot_apply(&self.0, s) {
            Ok(out) => Some(out),
            Err(_) => None,
        }
    }

    /// The edit equivalent to `self` followed by `other`; `None` when the target length of
    /// `self` differs from the base length of `other`.
    pub fn compose(&self, other: &OpSeq) -> (r: Option<OpSeq>)
        requires
            self.wf(),
            other.wf(),
        ensures
            r is Some <==> self.target() == other.base(),
            r matches Some(c) ==> is_composition(*self, *other, c),
    {
        match ot_compose(&self.0, &other.0) {
            Ok(c) => Some(OpSeq(c)),
            Err(_) => None,
        }
    }

    /// The pair `(a', b')` for the concurrent edits `self` and `other`: `self` then `b'`
    /// equals `other` then `a'`. Where both insert at one place, the text of `self` comes
    /// first. `None` when the base lengths differ.
    pub fn transform(&self, other: &OpSeq) -> (r: Option<OpSeqPair>)
        requires
            self.wf(),
            other.wf(),
            self.target() + other.target() <= i64::MAX,
        ensures
            r is Some <==> self.base() == other.base(),
            r matches Some(p) ==> is_transform(*self, *other, p.0, p.1),
    {
        match ot_transform(&self.0, &other.0) {
            Ok(p) => Some(OpSeqPair(OpSeq(p.0), OpSeq(p.1))),
            Err(_) => None,
        }
    }

    /// The edit that undoes `self` on the text it produces from `s`, the text `self`
    /// applies to.
    pub fn invert(&self, s: &str) -> (r: OpSeq)
        requires
            self.wf(),
            s@.len() == self.base(),
        ensures
            is_inverse(*self, s@, r),
            apply_ops(r.ops(), apply_ops(self.ops(), s@)) == s@,
    {
        let r = OpSeq(ot_invert(&self.0, s));
        proof {
            lemma_invert_canonical(self.ops(), s@);
            law_invert(self.ops(), s@);
        }
        r
    }

    /// Maps a cursor position in the input text to the matching position in the output.
    pub fn transform_index(&self, position: u32) -> (r: u32)
        requires
            position + inserted_of(self.ops()) <= u32::MAX,
        ensures
            r == index_through(self.ops(), position as int, position as int),
    {
        let ops = self.operations();
        let ghost all = self.ops();
        let mut moved: u64 = position as u64;
        let mut index: u64 = position as u64;
        let mut i: usize = 0;
        proof {
            assert(all.skip(0) =~= all);
        }
        while i < ops.len()
            invariant
                0 <= i <= ops.len(),
                ops@.map_values(|o: Op| o@) == all,
                all == self.ops(),
                index <= moved,
                moved + inserted_of(all.skip(i as int)) <= u32::MAX,
                index_through(all, position as int, position as int) == index_through(
                    all.skip(i as int),
                    index as int,
                    moved as int,
                ),
            decreases ops.len() - i,
        {
            let ghost rest = all.skip(i as int);
            proof {
                assert(rest.skip(1) =~= all.skip(i + 1));
                assert(rest[0] == ops@[i as int]@);
            }
            match &ops[i] {
                Op::Insert(t) => {
                    let n = char_count(t.as_str());
                    moved = moved + n as u64;
                },
                Op::Retain(n) => {
                    if *n > index {
                        return moved as u32;
                    }
                    index = index - *n;
                },
                Op::Delete(n) => {
                    if *n > index {
                        return (moved - index) as u32;
                    }
                    moved = moved - *n;
                    index = index - *n;
                },
            }
            i += 1;
        }
        proof {
            assert(all.skip(i as int).len() == 0);
        }
        moved as u32
    }

    /// Whether the recorded lengths are those of the operations.
    pub fn is_consistent(&self) -> (r: bool)
        ensures
            r == self.wf(),
    {
        let ops = self.operations();
        let ghost all = self.ops();
        let mut b: u64 = 0;
        let mut t: u64 = 0;
        let mut prev: u8 = 0;
        let mut i: usize = 0;
        proof {
            assert(all.take(0) =~= Seq::<OpV>::empty());
        }
        while i < ops.len()
            invariant
                0 <= i <= ops.len(),
                ops@.map_values(|o: Op| o@) == all,
                all == self.ops(),
                b == base_of(all.take(i as int)),
                t == target_of(all.take(i as int)),
                b <= i64::MAX,
                t <= i64::MAX,
                canonical(all.take(i as int)),
                i > 0 ==> prev as int == kind(all[i - 1]),
            decreases ops.len() - i,
        {
            let ghost pre = all.take(i as int);
            let ghost next = all.take(i + 1);
            proof {
                assert(next =~= pre.push(all[i as int]));
                assert(all[i as int] == ops@[i as int]@);
                lemma_sum_push(pre, all[i as int], |o: OpV| op_base(o));
                lemma_sum_push(pre, all[i as int], |o: OpV| op_target(o));
                lemma_sum_prefix(all, i + 1, |o: OpV| op_base(o));
                lemma_sum_prefix(all, i + 1, |o: OpV| op_target(o));
            }
            let k: u8 = match &ops[i] {
                Op::Retain(n) => {
                    if *n == 0 || *n > i64::MAX as u64 - b || *n > i64::MAX as u64 - t {
                        return false;
                    }
                    b = b + *n;
                    t = t + *n;
                    0
                },
                Op::Delete(n) => {
                    if *n == 0 || *n > i64::MAX as u64 - b {
                        return false;
                    }
                    b = b + *n;
                    1
                },
                Op::Insert(s) => {
                    let n = char_count(s.as_str());
                    if n == 0 || n as u64 > i64::MAX as u64 - t {
                        return false;
                    }
                    t = t + n as u64;
                    2
                },
            };
            if i > 0 && k == prev {
                proof {
                    assert(kind(all[i - 1]) == kind(all[i as int]));
                }
                return false;
            }
            proof {
                assert forall|x: int| 0 <= x < next.len() implies op_positive(#[trigger] next[x]) by {
                    if x < i {
                        assert(pre[x] == next[x]);
                    }
                }
                assert forall|x: int, y: int|
                    0 <= x && y == x + 1 && y < next.len() implies kind(#[trigger] next[x]) != kind(
                        #[trigger] next[y],
                    ) by {
                    if y < i {
                        assert(pre[x] == next[x] && pre[y] == next[y]);
                        assert(kind(pre[x]) != kind(pre[y]));
                    }
                }
            }
            prev = k;
            i += 1;
        }
        proof {
            assert(all.take(i as int) =~= all);
        }
        b == self.base_len() as u64 && t == self.target_len() as u64
    }

    /// The JSON text of the operations.
    pub fn to_string(&self) -> (r: String)
        requires
            self.wf(),
        ensures
            r@ == ops_json(self.ops()),
    {
        ot_to_json(&self.0)
    }

    /// The operations, in order.
    pub fn operations(&self) -> (r: Vec<Op>)
        ensures
            r@.map_values(|o: Op| o@) == self.ops(),
    {
        ot_ops(&self.0)
    }
}

/// An edit applied to a text of its base length succeeds and gives a text of its target
/// length.
pub proof fn law_apply_length(a: OpSeq, t: Seq<char>)
    requires
        a.wf(),
        t.len() == a.base(),
    ensures
        apply_ops(a.ops(), t).len() == a.target(),
{
    lemma_apply_len(a.ops(), t);
}

/// Applying the composition of `a` and `b` equals applying `a`, then `b`.
pub proof fn law_composition(a: OpSeq, b: OpSeq, c: OpSeq, t: Seq<char>)
    requires
        a.wf(),
        b.wf(),
        a.target() == b.base(),
        is_composition(a, b, c),
        t.len() == a.base(),
    ensures
        apply_ops(c.ops(), t) == apply_ops(b.ops(), apply_ops(a.ops(), t)),
        apply_ops(a.ops(), t).len() == b.base(),
{
    lemma_apply_len(a.ops(), t);
}

/// For concurrent `a` and `b` with `(a2, b2)` their transform, `a` composed with `b2` and
/// `b` composed with `a2` give the same text on every input of the shared base length.
pub proof fn law_convergence(
    a: OpSeq,
    b: OpSeq,
    a2: OpSeq,
    b2: OpSeq,
    ab: OpSeq,
    ba: OpSeq,
    t: Seq<char>,
)
    requires
        a.wf(),
        b.wf(),
        a.base() == b.base(),
        is_transform(a, b, a2, b2),
        is_composition(a, b2, ab),
        is_composition(b, a2, ba),
        t.len() == a.base(),
    ensures
        apply_ops(ab.ops(), t) == apply_ops(ba.ops(), t),
{
    assert(apply_ops(ab.ops(), t) == apply_ops(b2.ops(), apply_ops(a.ops(), t)));
    assert(apply_ops(ba.ops(), t) == apply_ops(a2.ops(), apply_ops(b.ops(), t)));
}

} // verus!

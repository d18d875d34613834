use crate::model::{
    apply_ops, base_of, canonical, deleted, lemma_deleted_canonical, lemma_inserted_canonical,
    lemma_retained_canonical, inserted, lemma_apply_len, lemma_deleted_sums,
    lemma_inserted_sums, lemma_retained_sums, lemma_sum_push, op_base, op_target, retained,
    target_of, OpV,
};
use vstd::prelude::*;

verus! {

/// The inverse of `ops` read against the original text `s`, built as `invert` builds it:
/// a retain stays a retain, an insert becomes a delete of its length, and a delete becomes
/// an insert of the characters of `s` it removed.
pub open spec fn invert_of(ops: Seq<OpV>, s: Seq<char>) -> Seq<OpV>
    decreases ops.len(),
{
    if ops.len() == 0 {
        Seq::<OpV>::empty()
    } else {
        let init = ops.drop_last();
        let acc = invert_of(init, s);
        let pos = if base_of(init) <= s.len() {
            base_of(init) as int
        } else {
            s.len() as int
        };
        match ops.last() {
            OpV::Retain(n) => retained(acc, n),
            OpV::Insert(t) => deleted(acc, t.len()),
            OpV::Delete(n) => {
                let end = if pos + n <= s.len() {
                    pos + n
                } else {
                    s.len() as int
                };
                inserted(acc, s.subrange(pos, end))
            },
        }
    }
}

/// Running `p` then `q` reads the first `base_of(p)` characters with `p` and the rest with `q`.
pub proof fn lemma_apply_concat(p: Seq<OpV>, q: Seq<OpV>, s: Seq<char>)
    requires
        base_of(p) <= s.len(),
    ensures
        apply_ops(p + q, s) == apply_ops(p, s.take(base_of(p) as int)) + apply_ops(
            q,
            s.skip(base_of(p) as int),
        ),
    decreases p.len(),
{
    let b = base_of(p) as int;
    if p.len() == 0 {
        assert(p + q =~= q);
        assert(s.skip(0) =~= s);
        assert(apply_ops(p, s.take(0)) + apply_ops(q, s) =~= apply_ops(q, s));
    } else {
        let r = p.skip(1);
        assert((p + q).skip(1) =~= r + q);
        assert((p + q)[0] == p[0]);
        let br = base_of(r) as int;
        let st = s.take(b);
        match p[0] {
            OpV::Retain(n) => {
                let k = n as int;
                lemma_apply_concat(r, q, s.skip(k));
                assert(st.take(k) =~= s.take(k));
                assert(st.skip(k) =~= s.skip(k).take(br));
                assert(s.skip(k).skip(br) =~= s.skip(b));
                assert(apply_ops(p + q, s) =~= apply_ops(p, st) + apply_ops(q, s.skip(b)));
            },
            OpV::Delete(n) => {
                let k = n as int;
                lemma_apply_concat(r, q, s.skip(k));
                assert(st.skip(k) =~= s.skip(k).take(br));
                assert(s.skip(k).skip(br) =~= s.skip(b));
                assert(apply_ops(p + q, s) =~= apply_ops(p, st) + apply_ops(q, s.skip(b)));
            },
            OpV::Insert(t) => {
                lemma_apply_concat(r, q, s);
                assert(apply_ops(p + q, s) =~= apply_ops(p, st) + apply_ops(q, s.skip(b)));
            },
        }
    }
}

/// One operation over a text of its base length.
pub proof fn lemma_apply_single(o: OpV, y: Seq<char>)
    requires
        op_base(o) == y.len(),
    ensures
        apply_ops(seq![o], y) == match o {
            OpV::Retain(_) => y,
            OpV::Delete(_) => Seq::<char>::empty(),
            OpV::Insert(t) => t,
        },
{
    let q = seq![o];
    assert(q.skip(1) =~= Seq::<OpV>::empty());
    assert(q[0] == o);
    assert(y.take(y.len() as int) =~= y);
    assert(apply_ops(q.skip(1), y.skip(y.len() as int)) == Seq::<char>::empty());
    assert(apply_ops(q.skip(1), y) == Seq::<char>::empty());
    match o {
        OpV::Retain(_) => {
            assert(apply_ops(q, y) =~= y);
        },
        OpV::Delete(_) => {
        },
        OpV::Insert(t) => {
            assert(apply_ops(q, y) =~= t);
        },
    }
}

/// An insert followed by a delete, over a text of the delete's length, gives the insert.
proof fn lemma_apply_insert_delete(t: Seq<char>, k: nat, y: Seq<char>)
    requires
        y.len() == k,
    ensures
        apply_ops(seq![OpV::Insert(t), OpV::Delete(k)], y) == t,
{
    let q = seq![OpV::Insert(t), OpV::Delete(k)];
    assert(q.skip(1) =~= seq![OpV::Delete(k)]);
    lemma_apply_single(OpV::Delete(k), y);
    assert(t + Seq::<char>::empty() =~= t);
}

/// Appending a retain of `n` copies `n` more characters through.
pub proof fn lemma_apply_retained(acc: Seq<OpV>, n: nat, x: Seq<char>, c: Seq<char>)
    requires
        base_of(acc) == x.len(),
        c.len() == n,
    ensures
        apply_ops(retained(acc, n), x + c) == apply_ops(acc, x) + c,
{
    let fb = |o: OpV| op_base(o);
    if n == 0 {
        assert(x + c =~= x);
        assert(apply_ops(acc, x) + c =~= apply_ops(acc, x));
    } else if acc.len() > 0 && acc.last() is Retain {
        let m = acc.last()->Retain_0;
        let p = acc.drop_last();
        assert(acc =~= p.push(OpV::Retain(m)));
        assert(acc =~= p + seq![OpV::Retain(m)]);
        assert(retained(acc, n) =~= p + seq![OpV::Retain(m + n)]);
        lemma_sum_push(p, OpV::Retain(m), fb);
        let bp = base_of(p) as int;
        lemma_apply_concat(p, seq![OpV::Retain(m + n)], x + c);
        lemma_apply_concat(p, seq![OpV::Retain(m)], x);
        assert((x + c).take(bp) =~= x.take(bp));
        assert((x + c).skip(bp) =~= x.skip(bp) + c);
        lemma_apply_single(OpV::Retain(m + n), x.skip(bp) + c);
        lemma_apply_single(OpV::Retain(m), x.skip(bp));
        assert(apply_ops(retained(acc, n), x + c) =~= apply_ops(acc, x) + c);
    } else {
        assert(retained(acc, n) =~= acc + seq![OpV::Retain(n)]);
        lemma_apply_concat(acc, seq![OpV::Retain(n)], x + c);
        assert((x + c).take(x.len() as int) =~= x);
        assert((x + c).skip(x.len() as int) =~= c);
        lemma_apply_single(OpV::Retain(n), c);
    }
}

/// Appending a delete of `m` skips `m` more characters.
pub proof fn lemma_apply_deleted(acc: Seq<OpV>, m: nat, x: Seq<char>, c: Seq<char>)
    requires
        base_of(acc) == x.len(),
        c.len() == m,
    ensures
        apply_ops(deleted(acc, m), x + c) == apply_ops(acc, x),
{
    let fb = |o: OpV| op_base(o);
    if m == 0 {
        assert(x + c =~= x);
    } else if acc.len() > 0 && acc.last() is Delete {
        let k = acc.last()->Delete_0;
        let p = acc.drop_last();
        assert(acc =~= p.push(OpV::Delete(k)));
        assert(acc =~= p + seq![OpV::Delete(k)]);
        assert(deleted(acc, m) =~= p + seq![OpV::Delete(k + m)]);
        lemma_sum_push(p, OpV::Delete(k), fb);
        let bp = base_of(p) as int;
        lemma_apply_concat(p, seq![OpV::Delete(k + m)], x + c);
        lemma_apply_concat(p, seq![OpV::Delete(k)], x);
        assert((x + c).take(bp) =~= x.take(bp));
        assert((x + c).skip(bp) =~= x.skip(bp) + c);
        lemma_apply_single(OpV::Delete(k + m), x.skip(bp) + c);
        lemma_apply_single(OpV::Delete(k), x.skip(bp));
        assert(apply_ops(deleted(acc, m), x + c) =~= apply_ops(acc, x));
    } else {
        assert(deleted(acc, m) =~= acc + seq![OpV::Delete(m)]);
        lemma_apply_concat(acc, seq![OpV::Delete(m)], x + c);
        assert((x + c).take(x.len() as int) =~= x);
        assert((x + c).skip(x.len() as int) =~= c);
        lemma_apply_single(OpV::Delete(m), c);
        assert(apply_ops(acc, x) + Seq::<char>::empty() =~= apply_ops(acc, x));
    }
}

/// Appending an insert of `d` adds `d` at the end of the output.
pub proof fn lemma_apply_inserted(acc: Seq<OpV>, d: Seq<char>, x: Seq<char>)
    requires
        base_of(acc) == x.len(),
    ensures
        apply_ops(inserted(acc, d), x) == apply_ops(acc, x) + d,
{
    let fb = |o: OpV| op_base(o);
    let n = acc.len();
    if d.len() == 0 {
        assert(apply_ops(acc, x) + d =~= apply_ops(acc, x));
    } else if n > 0 && acc[n - 1] is Insert {
        let t = acc[n - 1]->Insert_0;
        let p = acc.drop_last();
        assert(acc =~= p.push(OpV::Insert(t)));
        assert(acc =~= p + seq![OpV::Insert(t)]);
        assert(inserted(acc, d) =~= p + seq![OpV::Insert(t + d)]);
        lemma_sum_push(p, OpV::Insert(t), fb);
        let bp = base_of(p) as int;
        lemma_apply_concat(p, seq![OpV::Insert(t + d)], x);
        lemma_apply_concat(p, seq![OpV::Insert(t)], x);
        lemma_apply_single(OpV::Insert(t + d), x.skip(bp));
        lemma_apply_single(OpV::Insert(t), x.skip(bp));
        assert(apply_ops(inserted(acc, d), x) =~= apply_ops(acc, x) + d);
    } else if n > 1 && acc[n - 2] is Insert && acc[n - 1] is Delete {
        let t = acc[n - 2]->Insert_0;
        let k = acc[n - 1]->Delete_0;
        let p = acc.take(n - 2);
        assert(acc =~= p + seq![OpV::Insert(t), OpV::Delete(k)]);
        assert(inserted(acc, d) =~= p + seq![OpV::Insert(t + d), OpV::Delete(k)]);
        assert(acc =~= p.push(OpV::Insert(t)).push(OpV::Delete(k)));
        lemma_sum_push(p, OpV::Insert(t), fb);
        lemma_sum_push(p.push(OpV::Insert(t)), OpV::Delete(k), fb);
        let bp = base_of(p) as int;
        lemma_apply_concat(p, seq![OpV::Insert(t + d), OpV::Delete(k)], x);
        lemma_apply_concat(p, seq![OpV::Insert(t), OpV::Delete(k)], x);
        lemma_apply_insert_delete(t + d, k, x.skip(bp));
        lemma_apply_insert_delete(t, k, x.skip(bp));
        assert(apply_ops(inserted(acc, d), x) =~= apply_ops(acc, x) + d);
    } else if n > 0 && acc[n - 1] is Delete {
        let k = acc[n - 1]->Delete_0;
        let p = acc.drop_last();
        assert(acc =~= p.push(OpV::Delete(k)));
        assert(acc =~= p + seq![OpV::Delete(k)]);
        assert(inserted(acc, d) =~= p + seq![OpV::Insert(d), OpV::Delete(k)]);
        lemma_sum_push(p, OpV::Delete(k), fb);
        let bp = base_of(p) as int;
        lemma_apply_concat(p, seq![OpV::Insert(d), OpV::Delete(k)], x);
        lemma_apply_concat(p, seq![OpV::Delete(k)], x);
        lemma_apply_insert_delete(d, k, x.skip(bp));
        lemma_apply_single(OpV::Delete(k), x.skip(bp));
        assert(apply_ops(inserted(acc, d), x) =~= apply_ops(acc, x) + d);
    } else {
        assert(inserted(acc, d) =~= acc + seq![OpV::Insert(d)]);
        lemma_apply_concat(acc, seq![OpV::Insert(d)], x);
        assert(x.take(x.len() as int) =~= x);
        lemma_apply_single(OpV::Insert(d), x.skip(x.len() as int));
    }
}

/// On the part of `s` that `ops` reads, the inverse turns the output back into the input,
/// and it swaps the two lengths.
pub proof fn lemma_invert_prefix(ops: Seq<OpV>, s: Seq<char>)
    requires
        base_of(ops) <= s.len(),
    ensures
        base_of(invert_of(ops, s)) == target_of(ops),
        target_of(invert_of(ops, s)) == base_of(ops),
        apply_ops(invert_of(ops, s), apply_ops(ops, s.take(base_of(ops) as int))) == s.take(
            base_of(ops) as int,
        ),
    decreases ops.len(),
{
    let fb = |o: OpV| op_base(o);
    let ft = |o: OpV| op_target(o);
    if ops.len() == 0 {
        assert(s.take(0) =~= Seq::<char>::empty());
    } else {
        let init = ops.drop_last();
        let o = ops.last();
        assert(ops =~= init.push(o));
        assert(ops =~= init + seq![o]);
        lemma_sum_push(init, o, fb);
        lemma_sum_push(init, o, ft);
        let bi = base_of(init) as int;
        let b = base_of(ops) as int;
        lemma_invert_prefix(init, s);
        let acc = invert_of(init, s);
        let s1 = s.take(b);
        lemma_apply_concat(init, seq![o], s1);
        assert(s1.take(bi) =~= s.take(bi));
        let seg = s1.skip(bi);
        let x1 = apply_ops(init, s.take(bi));
        lemma_apply_len(init, s.take(bi));
        lemma_apply_single(o, seg);
        assert(s.take(bi) + seg =~= s1);
        match o {
            OpV::Retain(n) => {
                lemma_apply_retained(acc, n, x1, seg);
                lemma_retained_sums(acc, n);
            },
            OpV::Insert(t) => {
                assert(s1 =~= s.take(bi));
                lemma_apply_deleted(acc, t.len(), x1, t);
                lemma_deleted_sums(acc, t.len());
            },
            OpV::Delete(n) => {
                assert(seg =~= s.subrange(bi, bi + n));
                assert(x1 + Seq::<char>::empty() =~= x1);
                lemma_apply_inserted(acc, seg, x1);
                lemma_inserted_sums(acc, seg);
            },
        }
    }
}

/// The inverse is built through the builders from nothing, so it is in canonical form.
pub proof fn lemma_invert_canonical(ops: Seq<OpV>, s: Seq<char>)
    ensures
        canonical(invert_of(ops, s)),
    decreases ops.len(),
{
    if ops.len() > 0 {
        let init = ops.drop_last();
        lemma_invert_canonical(init, s);
        let acc = invert_of(init, s);
        let pos = if base_of(init) <= s.len() {
            base_of(init) as int
        } else {
            s.len() as int
        };
        match ops.last() {
            OpV::Retain(n) => lemma_retained_canonical(acc, n),
            OpV::Insert(t) => lemma_deleted_canonical(acc, t.len()),
            OpV::Delete(n) => {
                let end = if pos + n <= s.len() {
                    pos + n
                } else {
                    s.len() as int
                };
                lemma_inserted_canonical(acc, s.subrange(pos, end));
            },
        }
    }
}

/// The inverse of `a`, made from `t`, turns the result of `a` on `t` back into `t`.
pub proof fn law_invert(a: Seq<OpV>, t: Seq<char>)
    requires
        t.len() == base_of(a),
    ensures
        apply_ops(invert_of(a, t), apply_ops(a, t)) == t,
        base_of(invert_of(a, t)) == target_of(a),
        target_of(invert_of(a, t)) == base_of(a),
{
    lemma_invert_prefix(a, t);
    assert(t.take(t.len() as int) =~= t);
}

} // verus!

use vstd::prelude::*;

verus! {

/// One primitive of an edit, as plain values.
#[derive(Clone, Debug, PartialEq, Eq)]
pub enum Op {
    Delete(u64),
    Retain(u64),
    Insert(String),
}

/// The mathematical form of an `Op`: counts are naturals, text is a sequence of characters.
pub enum OpV {
    Delete(nat),
    Retain(nat),
    Insert(Seq<char>),
}

impl View for Op {
    type V = OpV;

    open spec fn view(&self) -> OpV {
        match self {
            Op::Delete(n) => OpV::Delete(*n as nat),
            Op::Retain(n) => OpV::Retain(*n as nat),
            Op::Insert(s) => OpV::Insert(s@),
        }
    }
}

/// Characters an operation consumes from its input.
pub open spec fn op_base(o: OpV) -> nat {
    match o {
        OpV::Delete(n) => n,
        OpV::Retain(n) => n,
        OpV::Insert(_) => 0,
    }
}

/// Characters an operation contributes to its output.
pub open spec fn op_target(o: OpV) -> nat {
    match o {
        OpV::Delete(_) => 0,
        OpV::Retain(n) => n,
        OpV::Insert(s) => s.len(),
    }
}

/// Characters an operation inserts.
pub open spec fn op_inserted(o: OpV) -> nat {
    match o {
        OpV::Insert(s) => s.len(),
        _ => 0,
    }
}

/// Sum of `f` over the operations.
pub open spec fn sum_by(ops: Seq<OpV>, f: spec_fn(OpV) -> nat) -> nat
    decreases ops.len(),
{
    if ops.len() == 0 {
        0
    } else {
        f(ops[0]) + sum_by(ops.skip(1), f)
    }
}

/// Length of text the operations expect as input.
pub open spec fn base_of(ops: Seq<OpV>) -> nat {
    sum_by(ops, |o: OpV| op_base(o))
}

/// Length of text the operations produce.
pub open spec fn target_of(ops: Seq<OpV>) -> nat {
    sum_by(ops, |o: OpV| op_target(o))
}

/// Number of characters the operations insert.
pub open spec fn inserted_of(ops: Seq<OpV>) -> nat {
    sum_by(ops, |o: OpV| op_inserted(o))
}

pub proof fn lemma_sum_push(ops: Seq<OpV>, o: OpV, f: spec_fn(OpV) -> nat)
    ensures
        sum_by(ops.push(o), f) == sum_by(ops, f) + f(o),
    decreases ops.len(),
{
    let p = ops.push(o);
    if ops.len() > 0 {
        assert(p.skip(1) =~= ops.skip(1).push(o));
        lemma_sum_push(ops.skip(1), o, f);
        assert(p[0] == ops[0]);
    } else {
        assert(p.skip(1) =~= Seq::<OpV>::empty());
        assert(p[0] == o);
        assert(sum_by(p.skip(1), f) == 0);
    }
}

pub proof fn lemma_sum_update(ops: Seq<OpV>, i: int, o: OpV, f: spec_fn(OpV) -> nat)
    requires
        0 <= i < ops.len(),
    ensures
        sum_by(ops.update(i, o), f) + f(ops[i]) == sum_by(ops, f) + f(o),
    decreases ops.len(),
{
    if i == 0 {
        assert(ops.update(i, o).skip(1) =~= ops.skip(1));
    } else {
        assert(ops.update(i, o).skip(1) =~= ops.skip(1).update(i - 1, o));
        lemma_sum_update(ops.skip(1), i - 1, o, f);
    }
}

/// A prefix sums to no more than the whole.
pub proof fn lemma_sum_prefix(ops: Seq<OpV>, i: int, f: spec_fn(OpV) -> nat)
    requires
        0 <= i <= ops.len(),
    ensures
        sum_by(ops.take(i), f) <= sum_by(ops, f),
    decreases ops.len(),
{
    if i < ops.len() {
        let init = ops.drop_last();
        assert(ops =~= init.push(ops.last()));
        lemma_sum_push(init, ops.last(), f);
        assert(ops.take(i) =~= init.take(i));
        lemma_sum_prefix(init, i, f);
    } else {
        assert(ops.take(i) =~= ops);
    }
}

/// The text obtained by running `ops` over `s` from its first character.
pub open spec fn apply_ops(ops: Seq<OpV>, s: Seq<char>) -> Seq<char>
    decreases ops.len(),
{
    if ops.len() == 0 {
        seq![]
    } else {
        match ops[0] {
            OpV::Retain(n) => {
                let k = if n as int <= s.len() { n as int } else { s.len() as int };
                s.take(k) + apply_ops(ops.skip(1), s.skip(k))
            },
            OpV::Delete(n) => {
                let k = if n as int <= s.len() { n as int } else { s.len() as int };
                apply_ops(ops.skip(1), s.skip(k))
            },
            OpV::Insert(t) => t + apply_ops(ops.skip(1), s),
        }
    }
}

/// Running operations over a text of their base length gives a text of their target length.
pub proof fn lemma_apply_len(ops: Seq<OpV>, s: Seq<char>)
    requires
        s.len() == base_of(ops),
    ensures
        apply_ops(ops, s).len() == target_of(ops),
    decreases ops.len(),
{
    if ops.len() > 0 {
        let rest = ops.skip(1);
        match ops[0] {
            OpV::Retain(n) => {
                lemma_apply_len(rest, s.skip(n as int));
            },
            OpV::Delete(n) => {
                lemma_apply_len(rest, s.skip(n as int));
            },
            OpV::Insert(t) => {
                lemma_apply_len(rest, s);
            },
        }
    }
}

/// Operations after appending a retain of `n`, merged into a trailing retain.
pub open spec fn retained(ops: Seq<OpV>, n: nat) -> Seq<OpV> {
    if n == 0 {
        ops
    } else if ops.len() > 0 && ops.last() is Retain {
        ops.update(ops.len() - 1, OpV::Retain(ops.last()->Retain_0 + n))
    } else {
        ops.push(OpV::Retain(n))
    }
}

/// Operations after appending a delete of `n`, merged into a trailing delete.
pub open spec fn deleted(ops: Seq<OpV>, n: nat) -> Seq<OpV> {
    if n == 0 {
        ops
    } else if ops.len() > 0 && ops.last() is Delete {
        ops.update(ops.len() - 1, OpV::Delete(ops.last()->Delete_0 + n))
    } else {
        ops.push(OpV::Delete(n))
    }
}

/// Operations after appending an insert of `t`: merged into a trailing insert, and
/// kept in front of a trailing delete.
pub open spec fn inserted(ops: Seq<OpV>, t: Seq<char>) -> Seq<OpV> {
    let n = ops.len();
    if t.len() == 0 {
        ops
    } else if n > 0 && ops[n - 1] is Insert {
        ops.update(n - 1, OpV::Insert(ops[n - 1]->Insert_0 + t))
    } else if n > 1 && ops[n - 2] is Insert && ops[n - 1] is Delete {
        ops.update(n - 2, OpV::Insert(ops[n - 2]->Insert_0 + t))
    } else if n > 0 && ops[n - 1] is Delete {
        ops.update(n - 1, OpV::Insert(t)).push(ops[n - 1])
    } else {
        ops.push(OpV::Insert(t))
    }
}

/// Lengths after a retain: both grow by `n`.
pub proof fn lemma_retained_sums(ops: Seq<OpV>, n: nat)
    ensures
    base_of(retained(ops, n)) == base_of(ops) + n,
    target_of(retained(ops, n)) == target_of(ops) + n,
{
    let o = OpV::Retain(n);
    if n > 0 {
        if ops.len() > 0 && ops.last() is Retain {
            let o2 = OpV::Retain(ops.last()->Retain_0 + n);
            lemma_sum_update(ops, ops.len() - 1, o2, |o: OpV| op_base(o));
            lemma_sum_update(ops, ops.len() - 1, o2, |o: OpV| op_target(o));
        } else {
            lemma_sum_push(ops, o, |o: OpV| op_base(o));
            lemma_sum_push(ops, o, |o: OpV| op_target(o));
        }
    }
}

/// Lengths after a delete: the base grows by `n`.
pub proof fn lemma_deleted_sums(ops: Seq<OpV>, n: nat)
    ensures
    base_of(deleted(ops, n)) == base_of(ops) + n,
    target_of(deleted(ops, n)) == target_of(ops),
{
    let o = OpV::Delete(n);
    if n > 0 {
        if ops.len() > 0 && ops.last() is Delete {
            let o2 = OpV::Delete(ops.last()->Delete_0 + n);
            lemma_sum_update(ops, ops.len() - 1, o2, |o: OpV| op_base(o));
            lemma_sum_update(ops, ops.len() - 1, o2, |o: OpV| op_target(o));
        } else {
            lemma_sum_push(ops, o, |o: OpV| op_base(o));
            lemma_sum_push(ops, o, |o: OpV| op_target(o));
        }
    }
}

/// Lengths after an insert: the target grows by the inserted length.
pub proof fn lemma_inserted_sums(ops: Seq<OpV>, t: Seq<char>)
    ensures
    base_of(inserted(ops, t)) == base_of(ops),
    target_of(inserted(ops, t)) == target_of(ops) + t.len(),
{
    let n = ops.len();
    let fb = |o: OpV| op_base(o);
    let ft = |o: OpV| op_target(o);
    if t.len() > 0 {
        if n > 0 && ops[n - 1] is Insert {
            let o = OpV::Insert(ops[n - 1]->Insert_0 + t);
            lemma_sum_update(ops, n - 1, o, fb);
            lemma_sum_update(ops, n - 1, o, ft);
        } else if n > 1 && ops[n - 2] is Insert && ops[n - 1] is Delete {
            let o = OpV::Insert(ops[n - 2]->Insert_0 + t);
            lemma_sum_update(ops, n - 2, o, fb);
            lemma_sum_update(ops, n - 2, o, ft);
        } else if n > 0 && ops[n - 1] is Delete {
            let o = OpV::Insert(t);
            lemma_sum_update(ops, n - 1, o, fb);
            lemma_sum_update(ops, n - 1, o, ft);
            lemma_sum_push(ops.update(n - 1, o), ops[n - 1], fb);
            lemma_sum_push(ops.update(n - 1, o), ops[n - 1], ft);
        } else {
            lemma_sum_push(ops, OpV::Insert(t), fb);
            lemma_sum_push(ops, OpV::Insert(t), ft);
        }
    }
}

/// Where a cursor at `index` (counted in the input still ahead) ends up, `moved` being its
/// position in the output so far: inserts ahead of it push it on, deletes ahead of it pull
/// it back by their overlap, and the walk stops once the cursor has been passed.
pub open spec fn index_through(ops: Seq<OpV>, index: int, moved: int) -> int
    decreases ops.len(),
{
    if ops.len() == 0 {
        moved
    } else {
        let (i2, m2) = match ops[0] {
            OpV::Insert(t) => (index, moved + t.len()),
            OpV::Retain(n) => (index - n, moved),
            OpV::Delete(n) => (index - n, moved - if index < n { index } else { n as int }),
        };
        if i2 < 0 {
            m2
        } else {
            index_through(ops.skip(1), i2, m2)
        }
    }
}

/// `ops` starts with an insert.
pub open spec fn starts_with_insert(ops: Seq<OpV>) -> bool {
    ops.len() > 0 && ops[0] is Insert
}

/// `b2` first steps over the text `x` inserted by the other side, then inserts a text that
/// begins with `y`.
pub open spec fn steps_over_then_inserts(b2: Seq<OpV>, x: Seq<char>, y: Seq<char>) -> bool {
    &&& b2.len() >= 2
    &&& b2[0] == OpV::Retain(x.len())
    &&& b2[1] is Insert
    &&& y.len() <= b2[1]->Insert_0.len()
    &&& b2[1]->Insert_0.take(y.len() as int) == y
}

/// Which of the three kinds an operation is.
pub open spec fn kind(o: OpV) -> int {
    match o {
        OpV::Retain(_) => 0,
        OpV::Delete(_) => 1,
        OpV::Insert(_) => 2,
    }
}

/// An operation that does something: a positive count, or a non-empty text.
pub open spec fn op_positive(o: OpV) -> bool {
    match o {
        OpV::Retain(n) => n > 0,
        OpV::Delete(n) => n > 0,
        OpV::Insert(t) => t.len() > 0,
    }
}

/// The canonical form: every operation does something, and no two neighbours are of one
/// kind.
pub open spec fn canonical(ops: Seq<OpV>) -> bool {
    &&& forall|i: int| 0 <= i < ops.len() ==> op_positive(#[trigger] ops[i])
    &&& forall|i: int, j: int|
        0 <= i && j == i + 1 && j < ops.len() ==> kind(#[trigger] ops[i]) != kind(
            #[trigger] ops[j],
        )
}

/// A retain appended through the builder keeps the canonical form.
pub proof fn lemma_retained_canonical(ops: Seq<OpV>, n: nat)
    requires
        canonical(ops),
    ensures
        canonical(retained(ops, n)),
{
    let r = retained(ops, n);
    if n > 0 {
        assert forall|i: int, j: int|
            0 <= i && j == i + 1 && j < r.len() implies kind(#[trigger] r[i]) != kind(
                #[trigger] r[j],
            ) by {
            if j < ops.len() {
                assert(kind(ops[i]) != kind(ops[j]));
            }
        }
    }
}

/// A delete appended through the builder keeps the canonical form.
pub proof fn lemma_deleted_canonical(ops: Seq<OpV>, n: nat)
    requires
        canonical(ops),
    ensures
        canonical(deleted(ops, n)),
{
    let r = deleted(ops, n);
    if n > 0 {
        assert forall|i: int, j: int|
            0 <= i && j == i + 1 && j < r.len() implies kind(#[trigger] r[i]) != kind(
                #[trigger] r[j],
            ) by {
            if j < ops.len() {
                assert(kind(ops[i]) != kind(ops[j]));
            }
        }
    }
}

/// An insert appended through the builder keeps the canonical form.
pub proof fn lemma_inserted_canonical(ops: Seq<OpV>, t: Seq<char>)
    requires
        canonical(ops),
    ensures
        canonical(inserted(ops, t)),
{
    let r = inserted(ops, t);
    let n = ops.len();
    if t.len() > 0 {
        assert forall|i: int| 0 <= i < r.len() implies op_positive(#[trigger] r[i]) by {
            if i < n {
                assert(op_positive(ops[i]));
            }
        }
        assert forall|i: int, j: int|
            0 <= i && j == i + 1 && j < r.len() implies kind(#[trigger] r[i]) != kind(
                #[trigger] r[j],
            ) by {
            if j < n {
                assert(kind(ops[i]) != kind(ops[j]));
            }
            if n > 1 {
                assert(kind(ops[n - 2]) != kind(ops[n - 1]));
            }
        }
    }
}

/// The character of the decimal digit `d`.
pub open spec fn digit(d: nat) -> char {
    seq!['0', '1', '2', '3', '4', '5', '6', '7', '8', '9'][d as int]
}

/// Decimal digits of `n`, most significant first, without sign or padding.
pub open spec fn decimal_of(n: nat) -> Seq<char>
    decreases n,
{
    if n < 10 {
        seq![digit(n)]
    } else {
        decimal_of(n / 10).push(digit(n % 10))
    }
}

/// The JSON string literal `serde_json` writes for a text: quotes, escapes and all.
pub uninterp spec fn json_string(t: Seq<char>) -> Seq<char>;

/// The JSON form of one operation: a retain as its count, a delete as its count negated,
/// an insert as a JSON string.
pub open spec fn op_json(o: OpV) -> Seq<char> {
    match o {
        OpV::Retain(n) => decimal_of(n),
        OpV::Delete(n) => seq!['-'] + decimal_of(n),
        OpV::Insert(t) => json_string(t),
    }
}

/// The JSON forms of the operations, separated by commas.
pub open spec fn ops_items_json(ops: Seq<OpV>) -> Seq<char>
    decreases ops.len(),
{
    if ops.len() == 0 {
        Seq::<char>::empty()
    } else if ops.len() == 1 {
        op_json(ops[0])
    } else {
        op_json(ops[0]) + seq![','] + ops_items_json(ops.skip(1))
    }
}

/// The JSON array of the operations.
pub open spec fn ops_json(ops: Seq<OpV>) -> Seq<char> {
    seq!['['] + ops_items_json(ops) + seq![']']
}

} // verus!

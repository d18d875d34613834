use crate::inverse::invert_of;
use crate::model::{json_string, ops_json, apply_ops, base_of, canonical, starts_with_insert, steps_over_then_inserts, deleted, inserted, retained, target_of, Op, OpV};
use operational_transform::{OTError, Operation, OperationSeq};
use vstd::prelude::*;

verus! {

#[verifier::external_type_specification]
#[verifier::external_body]
pub struct ExOperationSeq(OperationSeq);

#[verifier::external_type_specification]
#[verifier::external_body]
pub struct ExOTError(OTError);

/// The operations held by an `OperationSeq`, in order.
pub uninterp spec fn ops_of(s: OperationSeq) -> Seq<OpV>;

/// The base length an `OperationSeq` records.
pub uninterp spec fn base_len_of(s: OperationSeq) -> nat;

/// The target length an `OperationSeq` records.
pub uninterp spec fn target_len_of(s: OperationSeq) -> nat;

/// The operations are in canonical form, the recorded lengths agree with them, and both
/// lengths fit an `i64`, as the JSON form writes a delete as a negative `i64`.
pub open spec fn seq_wf(s: OperationSeq) -> bool {
    &&& canonical(ops_of(s))
    &&& base_len_of(s) == base_of(ops_of(s))
    &&& target_len_of(s) == target_of(ops_of(s))
    &&& base_len_of(s) <= i64::MAX
    &&& target_len_of(s) <= i64::MAX
}

/// What `OperationSeq::compose` yields, as a function of the two operation lists.
pub uninterp spec fn composed_ops(a: Seq<OpV>, b: Seq<OpV>) -> Seq<OpV>;

/// What `OperationSeq::transform` yields, as a function of the two operation lists.
pub uninterp spec fn transformed_ops(a: Seq<OpV>, b: Seq<OpV>) -> (Seq<OpV>, Seq<OpV>);

/// Relies on `OperationSeq::default`: no operations and both lengths zero.
#[verifier::external_body]
pub(crate) fn ot_default() -> (r: OperationSeq)
    ensures
        ops_of(r) == Seq::<OpV>::empty(),
        base_len_of(r) == 0,
        target_len_of(r) == 0,
{
    OperationSeq::default()
}

/// Relies on `OperationSeq::base_len`: the recorded base length.
#[verifier::external_body]
pub(crate) fn ot_base_len(s: &OperationSeq) -> (r: usize)
    ensures
        r == base_len_of(*s),
{
    s.base_len()
}

/// Relies on `OperationSeq::target_len`: the recorded target length.
#[verifier::external_body]
pub(crate) fn ot_target_len(s: &OperationSeq) -> (r: usize)
    ensures
        r == target_len_of(*s),
{
    s.target_len()
}

/// Relies on `OperationSeq::retain`: merges into a trailing retain, both lengths grow by `n`.
#[verifier::external_body]
pub(crate) fn ot_retain(s: &mut OperationSeq, n: u64)
    requires
        seq_wf(*old(s)),
        base_len_of(*old(s)) + n <= i64::MAX,
        target_len_of(*old(s)) + n <= i64::MAX,
    ensures
        ops_of(*final(s)) == retained(ops_of(*old(s)), n as nat),
        base_len_of(*final(s)) == base_len_of(*old(s)) + n,
        target_len_of(*final(s)) == target_len_of(*old(s)) + n,
{
    s.retain(n)
}

/// Relies on `OperationSeq::delete`: merges into a trailing delete, the base length grows by `n`.
#[verifier::external_body]
pub(crate) fn ot_delete(s: &mut OperationSeq, n: u64)
    requires
        seq_wf(*old(s)),
        base_len_of(*old(s)) + n <= i64::MAX,
    ensures
        ops_of(*final(s)) == deleted(ops_of(*old(s)), n as nat),
        base_len_of(*final(s)) == base_len_of(*old(s)) + n,
        target_len_of(*final(s)) == target_len_of(*old(s)),
{
    s.delete(n)
}

/// Relies on `OperationSeq::insert`: merges into a trailing insert or goes in front of a
/// trailing delete; the target length grows by the number of characters of `t`.
#[verifier::external_body]
pub(crate) fn ot_insert(s: &mut OperationSeq, t: &str)
    requires
        target_len_of(*old(s)) + t@.len() <= i64::MAX,
    ensures
        ops_of(*final(s)) == inserted(ops_of(*old(s)), t@),
        base_len_of(*final(s)) == base_len_of(*old(s)),
        target_len_of(*final(s)) == target_len_of(*old(s)) + t@.len(),
{
    s.insert(t)
}

/// Relies on `OperationSeq::is_noop`: true when there is no operation or a single retain.
#[verifier::external_body]
pub(crate) fn ot_is_noop(s: &OperationSeq) -> (r: bool)
    ensures
        r == (ops_of(*s).len() == 0 || (ops_of(*s).len() == 1 && ops_of(*s)[0] is Retain)),
{
    s.is_noop()
}

/// Relies on `OperationSeq::apply`: fails exactly when the text's character count differs
/// from the base length; otherwise runs the operations over the text.
#[verifier::external_body]
pub(crate) fn ot_apply(s: &OperationSeq, text: &str) -> (r: Result<String, OTError>)
    requires
        seq_wf(*s),
    ensures
        r is Ok <==> text@.len() == base_len_of(*s),
        r matches Ok(out) ==> out@ == apply_ops(ops_of(*s), text@),
{
    s.apply(text)
}

/// Relies on `OperationSeq::ops`: hands out each operation as a plain value, in order.
#[verifier::external_body]
pub(crate) fn ot_ops(s: &OperationSeq) -> (r: Vec<Op>)
    ensures
        r@.map_values(|o: Op| o@) == ops_of(*s),
{
    s.ops().iter().map(|o| match o {
        Operation::Delete(n) => Op::Delete(*n),
        Operation::Retain(n) => Op::Retain(*n),
        Operation::Insert(t) => Op::Insert(t.clone()),
    }).collect()
}

/// Relies on `OperationSeq::clone`: an equal copy.
#[verifier::external_body]
pub(crate) fn ot_clone(s: &OperationSeq) -> (r: OperationSeq)
    ensures
        r == *s,
{
    s.clone()
}

/// Relies on `OperationSeq::compose`: it fails exactly on a length conflict, builds its
/// result with the builders, and, as its documentation promises, the result applied to `S`
/// equals `b` applied to `a` applied to `S`.
#[verifier::external_body]
pub(crate) fn ot_compose(a: &OperationSeq, b: &OperationSeq) -> (r: Result<OperationSeq, OTError>)
    requires
        seq_wf(*a),
        seq_wf(*b),
    ensures
        r is Ok <==> target_len_of(*a) == base_len_of(*b),
        r matches Ok(c) ==> seq_wf(c),
        r matches Ok(c) ==> ops_of(c) == composed_ops(ops_of(*a), ops_of(*b)),
        r matches Ok(c) ==> base_len_of(c) == base_len_of(*a),
        r matches Ok(c) ==> target_len_of(c) == target_len_of(*b),
        r matches Ok(c) ==> forall|t: Seq<char>|
            t.len() == base_len_of(*a) ==> #[trigger] apply_ops(ops_of(c), t) == apply_ops(
                ops_of(*b),
                apply_ops(ops_of(*a), t),
            ),
{
    a.compose(b)
}

/// Relies on `OperationSeq::transform`: it fails exactly when the base lengths differ,
/// builds both results with the builders, and, as its documentation promises,
/// `apply(apply(S, a), b') == apply(apply(S, b), a')`. Its first match arm takes an insert
/// of `a` before anything of `b`: when both start with an insert, `b'` retains over `a`'s
/// text and then inserts `b`'s.
#[verifier::external_body]
pub(crate) fn ot_transform(a: &OperationSeq, b: &OperationSeq) -> (r: Result<(OperationSeq, OperationSeq), OTError>)
    requires
        seq_wf(*a),
        seq_wf(*b),
        target_len_of(*a) + target_len_of(*b) <= i64::MAX,
    ensures
        r is Ok <==> base_len_of(*a) == base_len_of(*b),
        r matches Ok(p) ==> seq_wf(p.0) && seq_wf(p.1),
        r matches Ok(p) ==> (ops_of(p.0), ops_of(p.1)) == transformed_ops(ops_of(*a), ops_of(*b)),
        r matches Ok(p) ==> base_len_of(p.0) == target_len_of(*b),
        r matches Ok(p) ==> base_len_of(p.1) == target_len_of(*a),
        r matches Ok(p) ==> target_len_of(p.0) == target_len_of(p.1),
        r matches Ok(p) ==> (starts_with_insert(ops_of(*a)) && starts_with_insert(ops_of(*b))
            ==> steps_over_then_inserts(
            ops_of(p.1),
            ops_of(*a)[0]->Insert_0,
            ops_of(*b)[0]->Insert_0,
        )),
        r matches Ok(p) ==> forall|t: Seq<char>|
            t.len() == base_len_of(*a) ==> #[trigger] apply_ops(ops_of(p.1), apply_ops(ops_of(*a), t))
                == apply_ops(ops_of(p.0), apply_ops(ops_of(*b), t)),
{
    a.transform(b)
}

/// Relies on `OperationSeq::invert`: walking the operations with a cursor into `s`, a
/// retain of `n` is added as a retain of `n`, an insert as a delete of its character count,
/// and a delete of `n` as an insert of the next (at most) `n` characters of `s`, all through
/// the builders.
#[verifier::external_body]
pub(crate) fn ot_invert(a: &OperationSeq, s: &str) -> (r: OperationSeq)
    requires
        seq_wf(*a),
        s@.len() == base_len_of(*a),
    ensures
        ops_of(r) == invert_of(ops_of(*a), s@),
        base_len_of(r) == base_of(ops_of(r)),
        target_len_of(r) == target_of(ops_of(r)),
{
    a.invert(s)
}

/// Relies on `serde_json::to_string` over the `Serialize` impl of `OperationSeq`, which
/// writes a compact JSON array with one element per operation: a retain as `u64`, a delete
/// as its count negated as `i64`, an insert as a JSON string. It writes
/// a delete as a negative `i64`; `seq_wf` keeps every count within the base length, so
/// within `i64::MAX`.
#[verifier::external_body]
pub(crate) fn ot_to_json(s: &OperationSeq) -> (r: String)
    requires
        seq_wf(*s),
    ensures
        r@ == ops_json(ops_of(*s)),
        ops_of(*s).len() == 1 && ops_of(*s)[0] is Insert ==> r@ == seq!['['] + json_string(
            ops_of(*s)[0]->Insert_0,
        ) + seq![']'],
{
    serde_json::to_string(s).unwrap_or_default()
}

/// Relies on `bytecount::num_chars`: the number of characters of a UTF-8 text.
#[verifier::external_body]
pub(crate) fn char_count(s: &str) -> (r: usize)
    ensures
        r == s@.len(),
{
    bytecount::num_chars(s.as_bytes())
}

} // verus!

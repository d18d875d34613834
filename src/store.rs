use crate::model::{apply_ops, base_of, target_of, OpV};
use crate::ops::OpSeq;
use crate::ot::transformed_ops;
use vstd::prelude::*;

verus! {

/// One entry of the edit history: who made the edit, and the edit as it was applied.
pub struct UserOperation {
    pub id: u64,
    pub operation: OpSeq,
}

impl Clone for UserOperation {
    fn clone(&self) -> (r: UserOperation)
        ensures
            r == *self,
    {
        UserOperation { id: self.id, operation: self.operation.clone() }
    }
}

/// Why an edit was refused.
#[derive(Clone, Copy, Debug, PartialEq, Eq)]
pub enum EditError {
    /// The client named a revision that does not exist yet.
    StaleFuture,
    /// The edit does not fit one of the edits it was rebased over.
    LengthMismatch,
    /// The rebased edit does not fit the current text.
    ApplyMismatch,
}

/// The text that replaying `h` in order over the empty text gives.
pub open spec fn replay(h: Seq<Seq<OpV>>) -> Seq<char>
    decreases h.len(),
{
    if h.len() == 0 {
        Seq::<char>::empty()
    } else {
        apply_ops(h.last(), replay(h.drop_last()))
    }
}

/// `op` transformed in turn against each edit of `missed`, in order; `None` where a step
/// fails on lengths.
pub open spec fn rebase(op: Seq<OpV>, missed: Seq<Seq<OpV>>) -> Option<Seq<OpV>>
    decreases missed.len(),
{
    if missed.len() == 0 {
        Some(op)
    } else if base_of(op) != base_of(missed[0]) || target_of(op) + target_of(missed[0])
        > i64::MAX {
        None
    } else {
        rebase(transformed_ops(op, missed[0]).0, missed.skip(1))
    }
}

/// An entry that fits the text before it produces the text after it.
proof fn lemma_entry_target(h: Seq<Seq<OpV>>, k: int)
    requires
        0 <= k < h.len(),
        base_of(h[k]) == replay(h.take(k)).len(),
    ensures
        target_of(h[k]) == replay(h.take(k + 1)).len(),
{
    let t = h.take(k + 1);
    assert(t.drop_last() =~= h.take(k));
    assert(t.last() == h[k]);
    crate::model::lemma_apply_len(h[k], replay(h.take(k)));
}

/// Appending an edit that fits the replayed text keeps every entry fitting the text before it.
proof fn lemma_replay_push(h: Seq<Seq<OpV>>, o: Seq<OpV>)
    requires
        forall|i: int| 0 <= i < h.len() ==> base_of(#[trigger] h[i]) == replay(h.take(i)).len(),
        base_of(o) == replay(h).len(),
    ensures
        forall|i: int|
            0 <= i < h.push(o).len() ==> base_of(#[trigger] h.push(o)[i]) == replay(
                h.push(o).take(i),
            ).len(),
        replay(h.push(o)) == apply_ops(o, replay(h)),
{
    let h2 = h.push(o);
    assert(h2.drop_last() =~= h);
    assert forall|k: int| 0 <= k < h2.len() implies base_of(#[trigger] h2[k]) == replay(
        h2.take(k),
    ).len() by {
        if k < h.len() {
            assert(h2.take(k) =~= h.take(k));
        } else {
            assert(h2.take(k) =~= h);
        }
    }
}

/// No length sum along the rebase of `op` over `missed` exceeds the machine's limit.
pub open spec fn rebase_fits(op: Seq<OpV>, missed: Seq<Seq<OpV>>) -> bool
    decreases missed.len(),
{
    missed.len() == 0 || (target_of(op) + target_of(missed[0]) <= i64::MAX && rebase_fits(
        transformed_ops(op, missed[0]).0,
        missed.skip(1),
    ))
}

/// `op` fits the text as it stood at revision `revision`, and its rebase stays within the
/// machine's limits.
pub open spec fn edit_valid(s: State, revision: nat, op: Seq<OpV>) -> bool {
    &&& revision <= s.operations@.len()
    &&& base_of(op) == replay(s.hist().take(revision as int)).len()
    &&& rebase_fits(op, s.hist().skip(revision as int))
}

/// Whether an edit made against revision `revision` is accepted by a store in state `s`:
/// the revision exists, the rebase succeeds and its result fits the current text.
pub open spec fn edit_accepted(s: State, revision: nat, op: Seq<OpV>) -> bool {
    &&& revision <= s.operations@.len()
    &&& rebase(op, s.hist().skip(revision as int)) matches Some(o)
    &&& base_of(o) == s.text@.len()
}

/// What an edit does to the store: accepted, the history gains its rebase, authored by
/// `id`, and the text becomes that rebase applied to the old text; refused, nothing changes.
pub open spec fn edit_effect(
    before: State,
    after: State,
    id: u64,
    revision: nat,
    op: Seq<OpV>,
) -> bool {
    if edit_accepted(before, revision, op) {
        let o = rebase(op, before.hist().skip(revision as int))->Some_0;
        &&& after.hist() == before.hist().push(o)
        &&& after.text@ == apply_ops(o, before.text@)
        &&& after.operations@.len() == before.operations@.len() + 1
        &&& after.operations@.take(before.operations@.len() as int) == before.operations@
        &&& after.operations@.last().id == id
        &&& after.operations@.last().operation.wf()
        &&& after.count == before.count
    } else {
        after == before
    }
}

/// The effect of an edit keeps the store valid.
pub proof fn lemma_effect_keeps_wf(
    before: State,
    after: State,
    id: u64,
    revision: nat,
    op: Seq<OpV>,
)
    requires
        before.wf(),
        edit_effect(before, after, id, revision, op),
    ensures
        after.wf(),
        after.hist().len() == after.operations@.len(),
        after.hist().take(before.hist().len() as int) == before.hist(),
{
    if edit_accepted(before, revision, op) {
        let o = rebase(op, before.hist().skip(revision as int))->Some_0;
        let n = before.operations@.len() as int;
        lemma_replay_push(before.hist(), o);
        assert forall|i: int| 0 <= i < after.operations@.len() implies (
        #[trigger] after.operations@[i]).operation.wf() by {
            if i < n {
                assert(after.operations@.take(n)[i] == after.operations@[i]);
            }
        }
        assert(before.hist().push(o).take(n) =~= before.hist());
    } else {
        assert(after.hist().take(before.hist().len() as int) =~= before.hist());
    }
}

/// The steps of a run of accepted edits: each state is the one before after an accepted edit.
pub open spec fn accepted_run(
    states: Seq<State>,
    ids: Seq<u64>,
    revisions: Seq<nat>,
    ops: Seq<Seq<OpV>>,
) -> bool {
    &&& states.len() == ops.len() + 1
    &&& ids.len() == ops.len()
    &&& revisions.len() == ops.len()
    &&& forall|k: int|
        0 <= k < ops.len() ==> #[trigger] run_step(states, ids, revisions, ops, k)
}

/// Step `k` of a run: edit `k` is accepted and has its effect.
pub open spec fn run_step(
    states: Seq<State>,
    ids: Seq<u64>,
    revisions: Seq<nat>,
    ops: Seq<Seq<OpV>>,
    k: int,
) -> bool {
    &&& edit_accepted(states[k], revisions[k], ops[k])
    &&& edit_effect(states[k], states[k + 1], ids[k], revisions[k], ops[k])
}

/// The facts of `law_serial_edits`, for the first `k` steps of the run.
proof fn lemma_run_prefix(
    states: Seq<State>,
    ids: Seq<u64>,
    revisions: Seq<nat>,
    ops: Seq<Seq<OpV>>,
    k: int,
)
    requires
        accepted_run(states, ids, revisions, ops),
        states[0].wf(),
        0 <= k <= ops.len(),
    ensures
        states[k].wf(),
        forall|j: int|
            0 <= j <= k ==> (#[trigger] states[j]).operations@.len() == states[0].operations@.len()
                + j,
        forall|j: int|
            0 <= j <= k ==> states[k].hist().take((#[trigger] states[j]).hist().len() as int)
                == states[j].hist(),
        forall|i: int|
            0 <= i < k ==> Some(#[trigger] states[k].hist()[states[0].operations@.len() + i])
                == rebase(ops[i], states[i].hist().skip(revisions[i] as int)),
    decreases k,
{
    let l0 = states[0].operations@.len() as int;
    if k == 0 {
        assert(states[0].hist().take(states[0].hist().len() as int) =~= states[0].hist());
    } else {
        lemma_run_prefix(states, ids, revisions, ops, k - 1);
        assert(run_step(states, ids, revisions, ops, k - 1));
        let prev = states[k - 1];
        let cur = states[k];
        assert(states[k - 1 + 1] == cur);
        lemma_effect_keeps_wf(prev, cur, ids[k - 1], revisions[k - 1], ops[k - 1]);
        let hp = prev.hist();
        let hc = cur.hist();
        let o = rebase(ops[k - 1], hp.skip(revisions[k - 1] as int))->Some_0;
        assert(hc == hp.push(o));
        assert forall|j: int| 0 <= j <= k implies hc.take((#[trigger] states[j]).hist().len() as int)
            == states[j].hist() by {
            if j < k {
                assert(hp.take(states[j].hist().len() as int) == states[j].hist());
                assert(hc.take(states[j].hist().len() as int) =~= hp.take(
                    states[j].hist().len() as int,
                ));
            } else {
                assert(hc.take(hc.len() as int) =~= hc);
            }
        }
        assert forall|i: int| 0 <= i < k implies Some(#[trigger] hc[l0 + i]) == rebase(
            ops[i],
            states[i].hist().skip(revisions[i] as int),
        ) by {
            if i < k - 1 {
                assert(hc[l0 + i] == hp[l0 + i]);
            }
        }
    }
}

/// A run of accepted edits, each state the one before after an edit: the revision grows by
/// the number of edits, the store stays valid (so replaying the history gives the text),
/// the history only grows, and entry `k` of the run is edit `k` rebased over everything
/// the history held beyond its revision when it came, in the order the edits came.
pub proof fn law_serial_edits(
    states: Seq<State>,
    ids: Seq<u64>,
    revisions: Seq<nat>,
    ops: Seq<Seq<OpV>>,
)
    requires
        accepted_run(states, ids, revisions, ops),
        states[0].wf(),
    ensures
        states.last().wf(),
        states.last().operations@.len() == states[0].operations@.len() + ops.len(),
        states.last().text@ == replay(states.last().hist()),
        forall|j: int|
            0 <= j < states.len() ==> states.last().hist().take(
                (#[trigger] states[j]).hist().len() as int,
            ) == states[j].hist(),
        forall|k: int|
            0 <= k < ops.len() ==> Some(
                #[trigger] states.last().hist()[states[0].operations@.len() + k],
            ) == rebase(ops[k], states[k].hist().skip(revisions[k] as int)),
{
    lemma_run_prefix(states, ids, revisions, ops, ops.len() as int);
    assert(states.last() == states[ops.len() as int]);
}

/// An edit that fits the text at revision `revision` keeps fitting it while later edits
/// are appended: the history before it never changes.
pub proof fn law_fit_is_kept(earlier: State, later: State, revision: nat, op: Seq<OpV>)
    requires
        revision <= earlier.operations@.len(),
        earlier.hist().len() <= later.hist().len(),
        later.hist().take(earlier.hist().len() as int) == earlier.hist(),
        base_of(op) == replay(earlier.hist().take(revision as int)).len(),
    ensures
        base_of(op) == replay(later.hist().take(revision as int)).len(),
{
    assert(later.hist().take(revision as int) =~= earlier.hist().take(revision as int));
}

/// Which error a refused edit gets.
pub open spec fn edit_error(s: State, revision: nat, op: Seq<OpV>) -> EditError {
    if revision > s.operations@.len() {
        EditError::StaleFuture
    } else if rebase(op, s.hist().skip(revision as int)) is None {
        EditError::LengthMismatch
    } else {
        EditError::ApplyMismatch
    }
}

/// The authoritative document: its text and the history of edits that made it.
pub struct State {
    pub text: String,
    /// How many times the state was read out through `json`.
    pub count: u64,
    /// The history, oldest first; the revision is its length.
    pub operations: Vec<UserOperation>,
}

impl State {
    /// The edits of the history, as operation lists.
    pub open spec fn hist(&self) -> Seq<Seq<OpV>> {
        self.operations@.map_values(|u: UserOperation| u.operation.ops())
    }

    /// Every entry is a well-formed edit that fits the text before it, and the text is the
    /// replay of the whole history.
    pub open spec fn wf(&self) -> bool {
        &&& forall|i: int|
            0 <= i < self.operations@.len() ==> #[trigger] self.operations@[i].operation.wf()
        &&& forall|i: int|
            0 <= i < self.hist().len() ==> base_of(#[trigger] self.hist()[i]) == replay(
                self.hist().take(i),
            ).len()
        &&& self.text@ == replay(self.hist())
    }

    /// An empty document with no history.
    pub fn new() -> (r: State)
        ensures
            r.wf(),
            r.text@ == Seq::<char>::empty(),
            r.count == 0,
            r.operations@.len() == 0,
    {
        let r = State { text: String::new(), count: 0, operations: Vec::new() };
        assert(r.hist() =~= Seq::<Seq<OpV>>::empty());
        r
    }

    /// The current text.
    pub fn text(&self) -> (r: String)
        ensures
            r@ == self.text@,
    {
        self.text.clone()
    }

    /// The current revision: the number of edits in the history.
    pub fn revision(&self) -> (r: usize)
        ensures
            r == self.operations@.len(),
    {
        self.operations.len()
    }

    /// The history from index `start` on; empty when `start` is past its end.
    pub fn history_since(&self, start: usize) -> (r: Vec<UserOperation>)
        ensures
            start < self.operations@.len() ==> r@ == self.operations@.skip(start as int),
            start >= self.operations@.len() ==> r@.len() == 0,
    {
        let mut out: Vec<UserOperation> = Vec::new();
        let mut i: usize = start;
        while i < self.operations.len()
            invariant
                start <= i || start >= self.operations@.len(),
                start < self.operations@.len() ==> out@ == self.operations@.subrange(
                    start as int,
                    i as int,
                ),
                start < self.operations@.len() ==> i <= self.operations@.len(),
                start >= self.operations@.len() ==> out@.len() == 0 && i == start,
            decreases self.operations@.len() - i,
        {
            out.push(self.operations[i].clone());
            i += 1;
        }
        proof {
            if start < self.operations@.len() {
                assert(out@ =~= self.operations@.skip(start as int));
            }
        }
        out
    }

    /// `operation` rebased over the history from index `revision` on.
    fn rebase_from(&self, operation: OpSeq, revision: usize) -> (r: Option<OpSeq>)
        requires
            self.wf(),
            operation.wf(),
            revision <= self.operations@.len(),
        ensures
            r is None <==> rebase(operation.ops(), self.hist().skip(revision as int)) is None,
            r matches Some(o) ==> o.wf() && rebase(
                operation.ops(),
                self.hist().skip(revision as int),
            ) == Some(o.ops()),
            revision < self.operations@.len() ==> (r matches Some(o) ==> base_of(o.ops())
                == self.text@.len()),
            edit_valid(*self, revision as nat, operation.ops()) ==> (r matches Some(o) && base_of(
                o.ops(),
            ) == self.text@.len()),
    {
        let ghost valid = edit_valid(*self, revision as nat, operation.ops());
        let len = self.operations.len();
        let ghost h = self.hist();
        let ghost goal = rebase(operation.ops(), h.skip(revision as int));
        let mut op = operation;
        let mut i: usize = revision;
        proof {
            assert(h.skip(revision as int).skip(0) =~= h.skip(revision as int));
        }
        while i < len
            invariant
                revision <= i <= len,
                len == self.operations@.len(),
                self.wf(),
                h == self.hist(),
                i > revision ==> base_of(op.ops()) == replay(h.take(i as int)).len(),
                valid == edit_valid(*self, revision as nat, operation.ops()),
                valid ==> base_of(op.ops()) == replay(h.take(i as int)).len() && rebase_fits(
                    op.ops(),
                    h.skip(i as int),
                ),
                op.wf(),
                goal == rebase(op.ops(), h.skip(i as int)),
                goal == rebase(operation.ops(), h.skip(revision as int)),
            decreases len - i,
        {
            let ghost missed = h.skip(i as int);
            let other = &self.operations[i].operation;
            proof {
                assert(missed.skip(1) =~= h.skip(i + 1));
                assert(missed[0] == other.ops());
                assert(other.wf());
                assert(missed.len() > 0);
                assert(base_of(missed[0]) == other.base());
                assert(target_of(missed[0]) == other.target());
            }
            let t1 = op.target_len();
            let t2 = other.target_len();
            if t1 as u64 > i64::MAX as u64 - t2 as u64 {
                return None;
            }
            proof {
                lemma_entry_target(h, i as int);
                assert(h[i as int] == missed[0]);
            }
            match op.transform(other) {
                Some(pair) => {
                    op = pair.0;
                },
                None => {
                    return None;
                },
            }
            i += 1;
        }
        proof {
            assert(h.skip(i as int) =~= Seq::<Seq<OpV>>::empty());
            assert(h.take(i as int) =~= h);
        }
        Some(op)
    }

    /// Rebases `operation`, made against revision `revision`, over every edit it missed,
    /// applies it to the text and appends it to the history. Returns the new revision.
    /// On any failure the state is left as it was. The incoming edit is the first operand
    /// of each transform, so where it and a missed edit insert at one place, its text comes
    /// first.
    pub fn submit_edit(&mut self, id: u64, revision: usize, operation: OpSeq) -> (r: Result<
        usize,
        EditError,
    >)
        requires
            old(self).wf(),
            operation.wf(),
        ensures
            final(self).wf(),
            revision > old(self).operations@.len() ==> r == Err::<usize, EditError>(
                EditError::StaleFuture,
            ),
            revision <= old(self).operations@.len() && rebase(
                operation.ops(),
                old(self).hist().skip(revision as int),
            ) is None ==> r == Err::<usize, EditError>(EditError::LengthMismatch),
            revision <= old(self).operations@.len() ==> (rebase(
                operation.ops(),
                old(self).hist().skip(revision as int),
            ) matches Some(o) ==> {
                if base_of(o) != old(self).text@.len() {
                    r == Err::<usize, EditError>(EditError::ApplyMismatch)
                } else {
                    &&& r == Ok::<usize, EditError>((old(self).operations@.len() + 1) as usize)
                    &&& final(self).text@ == apply_ops(o, old(self).text@)
                    &&& final(self).hist() == old(self).hist().push(o)
                    &&& final(self).operations@.take(old(self).operations@.len() as int)
                        == old(self).operations@
                    &&& final(self).operations@.last().id == id
                    &&& final(self).count == old(self).count
                }
            }),
            r is Err ==> *final(self) == *old(self),
            r is Ok <==> edit_accepted(*old(self), revision as nat, operation.ops()),
            r matches Err(e) ==> e == edit_error(*old(self), revision as nat, operation.ops()),
            revision < old(self).operations@.len() ==> r != Err::<usize, EditError>(
                EditError::ApplyMismatch,
            ),
            edit_valid(*old(self), revision as nat, operation.ops()) ==> r is Ok,
            edit_effect(*old(self), *final(self), id, revision as nat, operation.ops()),
    {
        let len = self.operations.len();
        if revision > len {
            return Err(EditError::StaleFuture);
        }
        let op = match self.rebase_from(operation, revision) {
            Some(o) => o,
            None => {
                return Err(EditError::LengthMismatch);
            },
        };
        let ghost h = self.hist();
        let new_text = match op.apply(self.text.as_str()) {
            Some(t) => t,
            None => {
                return Err(EditError::ApplyMismatch);
            },
        };
        let ghost o = op.ops();
        self.operations.push(UserOperation { id, operation: op });
        self.text = new_text;
        proof {
            let h2 = self.hist();
            assert(h2 =~= h.push(o));
            lemma_replay_push(h, o);
            assert(self.operations@.take(len as int) =~= old(self).operations@);
        }
        Ok(self.operations.len())
    }

    /// Replaying the whole history over the empty text gives the current text, and the
    /// revision is the number of entries.
    pub proof fn law_replay(&self)
        requires
            self.wf(),
        ensures
            self.text@ == replay(self.hist()),
            self.hist().len() == self.operations@.len(),
    {
    }

    /// Bumps the view counter and returns a copy of the state after it.
    pub fn json(&mut self) -> (r: State)
        requires
            old(self).count < u64::MAX,
        ensures
            final(self).count == old(self).count + 1,
            final(self).text == old(self).text,
            final(self).operations == old(self).operations,
            r.count == final(self).count,
            r.text == final(self).text,
            r.operations@ == final(self).operations@,
    {
        self.count = self.count + 1;
        let ops = self.history_since(0);
        proof {
            if self.operations@.len() > 0 {
                assert(self.operations@.skip(0) =~= self.operations@);
            } else {
                assert(ops@ =~= self.operations@);
            }
        }
        State { text: self.text.clone(), count: self.count, operations: ops }
    }
}

} // verus!

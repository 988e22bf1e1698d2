//! Laws of the settling pass, stated over the model.
use vstd::prelude::*;
use crate::model::{
    CircuitModel, Input, InputId, OutputId, any_dirty, evaluate, feeds, iterate, read_inputs, ready, settle, settle_loop,
    step_block, sweep, wf, index_consistent, wiring_live,
};
use crate::catalog::output_count;

verus! {

/// `a` and `b` hold the same blocks, wiring, output index, signals and dirty set.
pub open spec fn same_signals(a: CircuitModel, b: CircuitModel) -> bool {
    &&& a.kinds == b.kinds
    &&& a.inputs == b.inputs
    &&& a.consumers == b.consumers
    &&& a.input_state == b.input_state
    &&& a.output_state == b.output_state
    &&& a.dirty == b.dirty
}

proof fn lemma_sweep_same(a: CircuitModel, b: CircuitModel, d: Seq<bool>, forced: bool, j: nat)
    requires
        same_signals(a, b),
    ensures
        same_signals(sweep(a, d, forced, j), sweep(b, d, forced, j)),
    decreases j,
{
    if j > 0 {
        lemma_sweep_same(a, b, d, forced, (j - 1) as nat);
        let sa = sweep(a, d, forced, (j - 1) as nat);
        let sb = sweep(b, d, forced, (j - 1) as nat);
        let ea = evaluate(sa, d, j - 1);
        let eb = evaluate(sb, d, j - 1);
        assert(read_inputs(sa, d, j - 1) =~= read_inputs(sb, d, j - 1));
        assert forall|k: int| #[trigger] feeds(sa, j - 1, k) == feeds(sb, j - 1, k) by {
            if feeds(sa, j - 1, k) {
                let (o, i) = choose|o: int, i: int| 0 <= o < sa.consumers[j - 1].len() && 0 <= i < sa.consumers[j - 1][o].len()
                    && (#[trigger] sa.consumers[j - 1][o][i]).block == k;
                assert(sb.consumers[j - 1][o][i].block == k);
            }
            if feeds(sb, j - 1, k) {
                let (o, i) = choose|o: int, i: int| 0 <= o < sb.consumers[j - 1].len() && 0 <= i < sb.consumers[j - 1][o].len()
                    && (#[trigger] sb.consumers[j - 1][o][i]).block == k;
                assert(sa.consumers[j - 1][o][i].block == k);
            }
        }
        assert(ea.dirty =~= eb.dirty);
        assert(ready(sa, d, j - 1) == ready(sb, d, j - 1));
        assert(same_signals(step_block(sa, d, forced, j - 1), step_block(sb, d, forced, j - 1)));
    }
}

proof fn lemma_settle_loop_same(a: CircuitModel, b: CircuitModel, budget: nat)
    requires
        same_signals(a, b),
    ensures
        same_signals(settle_loop(a, budget).0, settle_loop(b, budget).0),
        settle_loop(a, budget).1 == settle_loop(b, budget).1,
    decreases budget,
{
    if budget > 0 && any_dirty(a) {
        lemma_sweep_same(a, b, a.dirty, false, a.kinds.len());
        lemma_settle_loop_same(iterate(a, false), iterate(b, false), (budget - 1) as nat);
    }
}

/// Determinism: two passes over the same blocks, wiring, signals and dirty set end in the
/// same signals, with the same number of iterations, whatever wiring snapshot each holds.
pub proof fn settle_is_deterministic(a: CircuitModel, b: CircuitModel)
    requires
        same_signals(a, b),
    ensures
        same_signals(settle(a).0, settle(b).0),
        settle(a).0.output_state == settle(b).0.output_state,
        settle(a).1 == settle(b).1,
{
    lemma_settle_loop_same(a, b, a.kinds.len());
    let ra = settle_loop(a, a.kinds.len()).0;
    let rb = settle_loop(b, b.kinds.len()).0;
    if any_dirty(ra) {
        lemma_sweep_same(ra, rb, ra.dirty, true, ra.kinds.len());
    }
}

/// A pass that starts with no dirty block changes nothing and runs no iteration.
pub proof fn quiet_pass_changes_nothing(m: CircuitModel)
    requires
        !any_dirty(m),
    ensures
        settle(m) == (m, 0nat),
{
}

/// Idempotence at a fixed point: once a pass leaves no block dirty, a second pass changes
/// nothing.
pub proof fn settled_pass_is_idempotent(m: CircuitModel)
    requires
        !any_dirty(settle(m).0),
    ensures
        settle(settle(m).0).0 == settle(m).0,
{
    quiet_pass_changes_nothing(settle(m).0);
}

proof fn lemma_settle_loop_bounded(m: CircuitModel, budget: nat)
    ensures
        settle_loop(m, budget).1 <= budget,
    decreases budget,
{
    if budget > 0 && any_dirty(m) {
        lemma_settle_loop_bounded(iterate(m, false), (budget - 1) as nat);
    }
}

/// Termination bound: a pass over `K` blocks, cycles or not, runs at most `K + 1` iterations.
pub proof fn settle_iterations_bounded(m: CircuitModel)
    ensures
        settle(m).1 <= m.kinds.len() + 1,
{
    lemma_settle_loop_bounded(m, m.kinds.len());
}

/// No dangling wire: in a well-formed circuit whose index is up to date, an output of a
/// removed block has no consumer.
pub proof fn removed_block_feeds_nothing(m: CircuitModel, b: int, o: int, x: InputId)
    requires
        wf(m),
        index_consistent(m),
        0 <= b < m.kinds.len(),
        m.removed[b],
        0 <= o < output_count(m.kinds[b]),
    ensures
        !m.consumers[b][o].contains(x),
{
    if m.consumers[b][o].contains(x) {
        assert(wiring_live(m));
        assert(m.inputs[x.block as int][x.input as int] == Input::Connected(OutputId { block: b as usize, output: o as usize }));
    }
}

} // verus!

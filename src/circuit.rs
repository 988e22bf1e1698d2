//! The circuit: an arena of blocks addressed by index, their wiring, the output index and
//! the signal state, with wiring edits, the output index rebuild and the settling pass.
use vstd::prelude::*;
use crate::catalog::{BlockKind, input_count, output_count, transfer};
use crate::model::{
    CircuitModel, Input, InputId, OutputId, any_dirty, evaluate, feeds, index_consistent,
    index_matches, iterate, points_at, progresses, read_inputs, ready, settle, settle_loop,
    slots_valid, sweep, valid_output, wf, wired, wiring_live,
};

verus! {

pub struct Circuit {
    kinds: Vec<BlockKind>,
    inputs: Vec<Vec<Input>>,
    last_inputs: Vec<Vec<Input>>,
    consumers: Vec<Vec<Vec<InputId>>>,
    input_state: Vec<Vec<bool>>,
    output_state: Vec<Vec<bool>>,
    dirty: Vec<bool>,
    removed: Vec<bool>,
}

impl View for Circuit {
    type V = CircuitModel;

    closed spec fn view(&self) -> CircuitModel {
        CircuitModel {
            kinds: self.kinds@,
            inputs: Seq::new(self.inputs@.len(), |b: int| self.inputs@[b]@),
            last_inputs: Seq::new(self.last_inputs@.len(), |b: int| self.last_inputs@[b]@),
            consumers: Seq::new(
                self.consumers@.len(),
                |b: int| Seq::new(self.consumers@[b]@.len(), |o: int| self.consumers@[b]@[o]@),
            ),
            input_state: Seq::new(self.input_state@.len(), |b: int| self.input_state@[b]@),
            output_state: Seq::new(self.output_state@.len(), |b: int| self.output_state@[b]@),
            dirty: self.dirty@,
            removed: self.removed@,
        }
    }
}

/// `n` copies of `v`.
fn filled<T: Copy>(v: T, n: usize) -> (r: Vec<T>)
    ensures
        r@ == Seq::new(n as nat, |i: int| v),
{
    let mut r: Vec<T> = Vec::new();
    let mut i: usize = 0;
    while i < n
        invariant
            i <= n,
            r@ == Seq::new(i as nat, |k: int| v),
        decreases n - i,
    {
        r.push(v);
        i = i + 1;
        assert(r@ =~= Seq::new(i as nat, |k: int| v));
    }
    r
}

impl Circuit {
    /// An empty circuit.
    pub fn new() -> (r: Circuit)
        ensures
            wf(r@),
            r@.kinds.len() == 0,
    {
        let r = Circuit {
            kinds: Vec::new(),
            inputs: Vec::new(),
            last_inputs: Vec::new(),
            consumers: Vec::new(),
            input_state: Vec::new(),
            output_state: Vec::new(),
            dirty: Vec::new(),
            removed: Vec::new(),
        };
        assert(r@.inputs =~= Seq::empty());
        r
    }

    /// Number of blocks.
    pub fn len(&self) -> (r: usize)
        requires
            wf(self@),
        ensures
            r == self@.kinds.len(),
    {
        self.kinds.len()
    }

    /// Places a new block of the given kind: all inputs unconnected, all signals false, and
    /// the block dirty so that the next pass evaluates it. Returns its handle.
    pub fn add_block(&mut self, kind: BlockKind) -> (h: usize)
        requires
            wf(old(self)@),
            old(self)@.kinds.len() + 1 < usize::MAX,
        ensures
            wf(final(self)@),
            h == old(self)@.kinds.len(),
            final(self)@.kinds == old(self)@.kinds.push(kind),
            final(self)@.inputs == old(self)@.inputs.push(
                Seq::new(input_count(kind), |i: int| Input::Unconnected),
            ),
            final(self)@.input_state == old(self)@.input_state.push(
                Seq::new(input_count(kind), |i: int| false),
            ),
            final(self)@.output_state == old(self)@.output_state.push(
                Seq::new(output_count(kind), |i: int| false),
            ),
            final(self)@.consumers == old(self)@.consumers.push(
                Seq::new(output_count(kind), |i: int| Seq::<InputId>::empty()),
            ),
            final(self)@.dirty == old(self)@.dirty.push(true),
            final(self)@.removed == old(self)@.removed.push(false),
            index_consistent(old(self)@) ==> index_consistent(final(self)@),
    {
        let ghost m0 = self@;
        let h = self.kinds.len();
        let ni = kind.inputs();
        let no = kind.outputs();
        let mut cons: Vec<Vec<InputId>> = Vec::new();
        let mut o: usize = 0;
        while o < no
            invariant
                o <= no,
                cons@.len() == o,
                forall|k: int| 0 <= k < o ==> (#[trigger] cons@[k])@ == Seq::<InputId>::empty(),
            decreases no - o,
        {
            cons.push(Vec::new());
            o = o + 1;
        }
        self.kinds.push(kind);
        self.inputs.push(filled(Input::Unconnected, ni));
        self.last_inputs.push(filled(Input::Unconnected, ni));
        self.consumers.push(cons);
        self.input_state.push(filled(false, ni));
        self.output_state.push(filled(false, no));
        self.dirty.push(true);
        self.removed.push(false);
        let ghost m = self@;
        assert(m.inputs =~= m0.inputs.push(Seq::new(input_count(kind), |i: int| Input::Unconnected)));
        assert(m.last_inputs =~= m0.last_inputs.push(Seq::new(input_count(kind), |i: int| Input::Unconnected)));
        assert(m.input_state =~= m0.input_state.push(Seq::new(input_count(kind), |i: int| false)));
        assert(m.output_state =~= m0.output_state.push(Seq::new(output_count(kind), |i: int| false)));
        assert(m.consumers[h as int] =~= Seq::new(output_count(kind), |i: int| Seq::<InputId>::empty()));
        assert(m.consumers =~= m0.consumers.push(Seq::new(output_count(kind), |i: int| Seq::<InputId>::empty())));
        assert forall|b: int| 0 <= b < m.kinds.len() implies {
            &&& (#[trigger] m.inputs[b]).len() == input_count(m.kinds[b])
            &&& m.last_inputs[b].len() == input_count(m.kinds[b])
            &&& m.input_state[b].len() == input_count(m.kinds[b])
            &&& m.consumers[b].len() == output_count(m.kinds[b])
            &&& m.output_state[b].len() == output_count(m.kinds[b])
            &&& !m.dirty[b] ==> m.output_state[b] == transfer(m.kinds[b], m.input_state[b])
        } by {
            if b < h {
                assert(m.kinds[b] == m0.kinds[b]);
                assert(m.inputs[b] == m0.inputs[b]);
            }
        }
        assert forall|b: int, i: int|
            0 <= b < m.inputs.len() && 0 <= i < m.inputs[b].len() implies match #[trigger] m.inputs[b][i] {
                Input::Connected(o) => valid_output(m, o),
                Input::Unconnected => true,
            } by {
            if b < h {
                assert(m.inputs[b][i] == m0.inputs[b][i]);
            }
        }
        assert forall|b: int, i: int|
            0 <= b < m.inputs.len() && 0 <= i < m.inputs[b].len() implies match #[trigger] m.inputs[b][i] {
                Input::Connected(o) => !m.removed[o.block as int] && !m.removed[b],
                Input::Unconnected => true,
            } by {
            if b < h {
                assert(m.inputs[b][i] == m0.inputs[b][i]);
                assert(slots_valid(m0, m0.inputs));
            }
        }
        assert forall|b: int, i: int|
            0 <= b < m.last_inputs.len() && 0 <= i < m.last_inputs[b].len() implies match #[trigger] m.last_inputs[b][i] {
                Input::Connected(o) => valid_output(m, o),
                Input::Unconnected => true,
            } by {
            if b < h {
                assert(m.last_inputs[b][i] == m0.last_inputs[b][i]);
            }
        }
        assert forall|b: int, o: int, x: InputId|
            0 <= b < m.kinds.len() && 0 <= o < output_count(m.kinds[b]) implies (
            #[trigger] m.consumers[b][o].contains(x) <==> wired(m.last_inputs, x, OutputId { block: b as usize, output: o as usize })) by {
            assert(m.inputs[b].len() == input_count(m.kinds[b]));
            Self::lemma_new_block_wiring(m0, m, m0.last_inputs, m.last_inputs, x, OutputId { block: b as usize, output: o as usize });
        }
        proof {
            if index_consistent(m0) {
            assert forall|b: int, o: int, x: InputId|
                0 <= b < m.kinds.len() && 0 <= o < output_count(m.kinds[b]) implies (
                #[trigger] m.consumers[b][o].contains(x) <==> wired(m.inputs, x, OutputId { block: b as usize, output: o as usize })) by {
                assert(m.inputs[b].len() == input_count(m.kinds[b]));
            Self::lemma_new_block_wiring(m0, m, m0.inputs, m.inputs, x, OutputId { block: b as usize, output: o as usize });
            }
            }
        }
        h
    }

    /// Rewires input `i` of block `t` and marks `t` dirty.
    fn set_slot(&mut self, t: usize, i: usize, x: Input)
        requires
            wf(old(self)@),
            t < old(self)@.kinds.len(),
            i < input_count(old(self)@.kinds[t as int]),
            match x {
                Input::Connected(o) => valid_output(old(self)@, o) && !old(self)@.removed[o.block as int]
                    && !old(self)@.removed[t as int],
                Input::Unconnected => true,
            },
        ensures
            wf(final(self)@),
            final(self)@ == (CircuitModel {
                inputs: old(self)@.inputs.update(t as int, old(self)@.inputs[t as int].update(i as int, x)),
                dirty: old(self)@.dirty.update(t as int, true),
                ..old(self)@
            }),
    {
        let ghost m0 = self@;
        assert(m0.inputs[t as int].len() == input_count(m0.kinds[t as int]));
        self.inputs[t][i] = x;
        self.dirty.set(t, true);
        let ghost m = self@;
        let ghost want = CircuitModel {
            inputs: m0.inputs.update(t as int, m0.inputs[t as int].update(i as int, x)),
            dirty: m0.dirty.update(t as int, true),
            ..m0
        };
        assert(m.inputs =~= want.inputs);
        assert(m.last_inputs =~= want.last_inputs);
        assert(m.input_state =~= want.input_state);
        assert(m.output_state =~= want.output_state);
        assert(m.consumers =~= want.consumers);
        assert(m == want);
        assert forall|b: int| 0 <= b < m.kinds.len() implies {
            &&& (#[trigger] m.inputs[b]).len() == input_count(m.kinds[b])
            &&& m.last_inputs[b].len() == input_count(m.kinds[b])
            &&& m.input_state[b].len() == input_count(m.kinds[b])
            &&& m.consumers[b].len() == output_count(m.kinds[b])
            &&& m.output_state[b].len() == output_count(m.kinds[b])
            &&& !m.dirty[b] ==> m.output_state[b] == transfer(m.kinds[b], m.input_state[b])
        } by {
            assert(m0.inputs[b].len() == input_count(m0.kinds[b]));
        }
        assert forall|b: int, j: int|
            0 <= b < m.inputs.len() && 0 <= j < m.inputs[b].len() implies match #[trigger] m.inputs[b][j] {
                Input::Connected(o) => valid_output(m, o),
                Input::Unconnected => true,
            } by {
            if b != t || j != i {
                assert(m.inputs[b][j] == m0.inputs[b][j]);
            }
        }
        assert forall|b: int, j: int|
            0 <= b < m.inputs.len() && 0 <= j < m.inputs[b].len() implies match #[trigger] m.inputs[b][j] {
                Input::Connected(o) => !m.removed[o.block as int] && !m.removed[b],
                Input::Unconnected => true,
            } by {
            if b != t || j != i {
                assert(m.inputs[b][j] == m0.inputs[b][j]);
            }
        }
    }

    /// Wires input `input` of block `target` to output `output` of block `source`, replacing
    /// any earlier wire, and marks `target` dirty. The output index is stale until the next
    /// rebuild. A cycle is allowed.
    pub fn connect(&mut self, target: usize, input: usize, source: usize, output: usize)
        requires
            wf(old(self)@),
            target < old(self)@.kinds.len(),
            input < input_count(old(self)@.kinds[target as int]),
            source < old(self)@.kinds.len(),
            output < output_count(old(self)@.kinds[source as int]),
            !old(self)@.removed[target as int],
            !old(self)@.removed[source as int],
        ensures
            wf(final(self)@),
            final(self)@ == (CircuitModel {
                inputs: old(self)@.inputs.update(
                    target as int,
                    old(self)@.inputs[target as int].update(input as int, Input::Connected(OutputId { block: source, output })),
                ),
                dirty: old(self)@.dirty.update(target as int, true),
                ..old(self)@
            }),
    {
        self.set_slot(target, input, Input::from_output(source, output));
    }

    /// Leaves input `input` of block `target` unconnected and marks `target` dirty.
    pub fn disconnect(&mut self, target: usize, input: usize)
        requires
            wf(old(self)@),
            target < old(self)@.kinds.len(),
            input < input_count(old(self)@.kinds[target as int]),
        ensures
            wf(final(self)@),
            final(self)@ == (CircuitModel {
                inputs: old(self)@.inputs.update(
                    target as int,
                    old(self)@.inputs[target as int].update(input as int, Input::Unconnected),
                ),
                dirty: old(self)@.dirty.update(target as int, true),
                ..old(self)@
            }),
    {
        self.set_slot(target, input, Input::Unconnected);
    }

    /// Removes block `b`: every input wired to it is left unconnected and its block marked
    /// dirty, its own inputs are unconnected, and it is flagged removed. Its handle is not
    /// reused. The output index is stale until the next rebuild.
    pub fn remove_block(&mut self, b: usize)
        requires
            wf(old(self)@),
            b < old(self)@.kinds.len(),
            !old(self)@.removed[b as int],
        ensures
            wf(final(self)@),
            final(self)@ == (CircuitModel {
                inputs: Seq::new(old(self)@.kinds.len(), |k: int|
                    if k == b {
                        Seq::new(old(self)@.inputs[k].len(), |i: int| Input::Unconnected)
                    } else {
                        detached(old(self)@.inputs[k], b as int)
                    }),
                dirty: Seq::new(old(self)@.kinds.len(), |k: int|
                    old(self)@.dirty[k] || (k != b && exists|i: int| 0 <= i < old(self)@.inputs[k].len()
                        && #[trigger] points_at(old(self)@.inputs[k][i], b as int))),
                removed: old(self)@.removed.update(b as int, true),
                ..old(self)@
            }),
    {
        let ghost m0 = self@;
        let n = self.kinds.len();
        let mut k: usize = 0;
        while k < n
            invariant
                wf(self@),
                wf(m0),
                n == m0.kinds.len(),
                b < n,
                k <= n,
                self@ == (CircuitModel { inputs: self@.inputs, dirty: self@.dirty, ..m0 }),
                self@.inputs.len() == n,
                self@.dirty.len() == n,
                forall|q: int| 0 <= q < n ==> #[trigger] self@.inputs[q] == if q < k && q != b {
                    detached(m0.inputs[q], b as int)
                } else {
                    m0.inputs[q]
                },
                forall|q: int| 0 <= q < n ==> #[trigger] self@.dirty[q] == (m0.dirty[q] || (q < k && q != b
                    && exists|i: int| 0 <= i < m0.inputs[q].len() && #[trigger] points_at(m0.inputs[q][i], b as int))),
            decreases n - k,
        {
            if k != b {
                assert(self@.inputs[k as int] == m0.inputs[k as int]);
                assert(m0.inputs[k as int].len() == input_count(m0.kinds[k as int]));
                let len = self.inputs[k].len();
                let mut i: usize = 0;
                let ghost touched = false;
                while i < len
                    invariant
                        wf(self@),
                        wf(m0),
                        n == m0.kinds.len(),
                        b < n,
                        k < n,
                        k != b,
                        len == m0.inputs[k as int].len(),
                        i <= len,
                        self@ == (CircuitModel { inputs: self@.inputs, dirty: self@.dirty, ..m0 }),
                        self@.inputs.len() == n,
                        self@.dirty.len() == n,
                        forall|q: int| 0 <= q < n && q != k ==> #[trigger] self@.inputs[q] == if q < k && q != b {
                            detached(m0.inputs[q], b as int)
                        } else {
                            m0.inputs[q]
                        },
                        self@.inputs[k as int] == detached(m0.inputs[k as int], b as int).subrange(0, i as int)
                            + m0.inputs[k as int].subrange(i as int, len as int),
                        forall|q: int| 0 <= q < n && q != k ==> #[trigger] self@.dirty[q] == (m0.dirty[q] || (q < k && q != b
                            && exists|j: int| 0 <= j < m0.inputs[q].len() && #[trigger] points_at(m0.inputs[q][j], b as int))),
                        self@.dirty[k as int] == (m0.dirty[k as int] || exists|j: int| 0 <= j < i
                            && #[trigger] points_at(m0.inputs[k as int][j], b as int)),
                    decreases len - i,
                {
                    let ghost before = self@;
                    assert(self@.inputs[k as int][i as int] == m0.inputs[k as int][i as int]);
                    assert(self@.inputs[k as int].len() == len);
                    let hit = match self.inputs[k][i] {
                        Input::Connected(o) => o.block == b,
                        Input::Unconnected => false,
                    };
                    if hit {
                        self.set_slot(k, i, Input::Unconnected);
                    }
                    assert(self@.inputs[k as int] =~= detached(m0.inputs[k as int], b as int).subrange(0, i + 1)
                        + m0.inputs[k as int].subrange(i + 1, len as int));
                    assert forall|q: int| 0 <= q < n && q != k implies #[trigger] self@.inputs[q] == before.inputs[q] by {}
                    assert forall|q: int| 0 <= q < n && q != k implies #[trigger] self@.dirty[q] == before.dirty[q] by {}
                    if hit {
                        assert(points_at(m0.inputs[k as int][i as int], b as int));
                    } else {
                        assert(!points_at(m0.inputs[k as int][i as int], b as int));
                    }
                    assert(self@.dirty[k as int] == (m0.dirty[k as int] || exists|j: int| 0 <= j < i + 1
                        && #[trigger] points_at(m0.inputs[k as int][j], b as int)));
                    i = i + 1;
                }
                assert(self@.inputs[k as int] =~= detached(m0.inputs[k as int], b as int));
            }
            k = k + 1;
        }
        // the block's own inputs
        let ghost m1 = self@;
        assert(m0.inputs[b as int].len() == input_count(m0.kinds[b as int]));
        let own = filled(Input::Unconnected, self.inputs[b].len());
        self.inputs.set(b, own);
        self.removed.set(b, true);
        let ghost m = self@;
        let ghost want = CircuitModel {
            inputs: Seq::new(m0.kinds.len(), |k: int|
                if k == b {
                    Seq::new(m0.inputs[k].len(), |i: int| Input::Unconnected)
                } else {
                    detached(m0.inputs[k], b as int)
                }),
            dirty: Seq::new(m0.kinds.len(), |k: int|
                m0.dirty[k] || (k != b && exists|i: int| 0 <= i < m0.inputs[k].len()
                    && #[trigger] points_at(m0.inputs[k][i], b as int))),
            removed: m0.removed.update(b as int, true),
            ..m0
        };
        assert forall|q: int| 0 <= q < n implies #[trigger] m.inputs[q] == want.inputs[q] by {
            if q == b {
                assert(m1.inputs[q] == m0.inputs[q]);
                assert(m.inputs[q] =~= want.inputs[q]);
            } else {
                assert(m1.inputs[q] == detached(m0.inputs[q], b as int));
            }
        }
        assert(m.inputs =~= want.inputs);
        assert(m.dirty =~= want.dirty);
        assert(m.last_inputs =~= want.last_inputs);
        assert(m.input_state =~= want.input_state);
        assert(m.output_state =~= want.output_state);
        assert(m.consumers =~= want.consumers);
        assert(m == want);
        assert forall|q: int| 0 <= q < m.kinds.len() implies {
            &&& (#[trigger] m.inputs[q]).len() == input_count(m.kinds[q])
            &&& m.last_inputs[q].len() == input_count(m.kinds[q])
            &&& m.input_state[q].len() == input_count(m.kinds[q])
            &&& m.consumers[q].len() == output_count(m.kinds[q])
            &&& m.output_state[q].len() == output_count(m.kinds[q])
            &&& !m.dirty[q] ==> m.output_state[q] == transfer(m.kinds[q], m.input_state[q])
        } by {
            assert(m1.inputs[q].len() == input_count(m1.kinds[q]));
        }
        assert forall|q: int, j: int|
            0 <= q < m.inputs.len() && 0 <= j < m.inputs[q].len() implies match #[trigger] m.inputs[q][j] {
                Input::Connected(o) => valid_output(m, o) && !m.removed[o.block as int] && !m.removed[q],
                Input::Unconnected => true,
            } by {
            if q != b {
                assert(m.inputs[q][j] == m1.inputs[q][j]);
                assert(m.inputs[q] == detached(m0.inputs[q], b as int));
                assert(slots_valid(m1, m1.inputs));
                assert(wiring_live(m1));
                assert(wiring_live(m0));
                assert(m.inputs[q][j] == m0.inputs[q][j] || m.inputs[q][j] == Input::Unconnected);
                if m.inputs[q][j] != Input::Unconnected {
                    assert(m0.inputs[q][j] == m.inputs[q][j]);
                    assert(!m0.removed[q]);
                }
            }
        }
        assert(slots_valid(m, m.inputs));
        assert(wiring_live(m));
    }

    /// Marks block `b` for evaluation in the next pass.
    pub fn mark_dirty(&mut self, b: usize)
        requires
            wf(old(self)@),
            b < old(self)@.kinds.len(),
        ensures
            wf(final(self)@),
            final(self)@ == (CircuitModel { dirty: old(self)@.dirty.update(b as int, true), ..old(self)@ }),
    {
        self.dirty.set(b, true);
        assert(self@.inputs =~= old(self)@.inputs);
        assert(self@.last_inputs =~= old(self)@.last_inputs);
        assert(self@.input_state =~= old(self)@.input_state);
        assert(self@.output_state =~= old(self)@.output_state);
        assert(self@.consumers =~= old(self)@.consumers);
        assert(wiring_live(self@));
    }

    /// Sets the constant of toggle `b` and marks it dirty, so that the next pass drives the
    /// new value onto its output.
    pub fn set_toggle(&mut self, b: usize, value: bool)
        requires
            wf(old(self)@),
            b < old(self)@.kinds.len(),
            old(self)@.kinds[b as int] is Toggle,
        ensures
            wf(final(self)@),
            final(self)@ == (CircuitModel {
                kinds: old(self)@.kinds.update(b as int, BlockKind::Toggle(value)),
                dirty: old(self)@.dirty.update(b as int, true),
                ..old(self)@
            }),
    {
        let ghost m0 = self@;
        self.kinds.set(b, BlockKind::Toggle(value));
        self.dirty.set(b, true);
        let ghost m = self@;
        assert(m.inputs =~= m0.inputs);
        assert(m.last_inputs =~= m0.last_inputs);
        assert(m.input_state =~= m0.input_state);
        assert(m.output_state =~= m0.output_state);
        assert(m.consumers =~= m0.consumers);
        assert forall|k: int| 0 <= k < m.kinds.len() implies output_count(#[trigger] m.kinds[k]) == output_count(m0.kinds[k])
            && input_count(m.kinds[k]) == input_count(m0.kinds[k]) by {}
        assert forall|bb: int| 0 <= bb < m.kinds.len() implies {
            &&& (#[trigger] m.inputs[bb]).len() == input_count(m.kinds[bb])
            &&& m.last_inputs[bb].len() == input_count(m.kinds[bb])
            &&& m.input_state[bb].len() == input_count(m.kinds[bb])
            &&& m.consumers[bb].len() == output_count(m.kinds[bb])
            &&& m.output_state[bb].len() == output_count(m.kinds[bb])
            &&& !m.dirty[bb] ==> m.output_state[bb] == transfer(m.kinds[bb], m.input_state[bb])
        } by {
            assert(m0.inputs[bb].len() == input_count(m0.kinds[bb]));
        }
        assert(slots_valid(m, m.inputs));
        assert(slots_valid(m, m.last_inputs));
        assert(wiring_live(m));
    }

    /// The kind of block `b`.
    pub fn kind(&self, b: usize) -> (r: BlockKind)
        requires
            wf(self@),
            b < self@.kinds.len(),
        ensures
            r == self@.kinds[b as int],
    {
        self.kinds[b]
    }

    /// The wiring of the inputs of block `b`.
    pub fn inputs(&self, b: usize) -> (r: &Vec<Input>)
        requires
            wf(self@),
            b < self@.kinds.len(),
        ensures
            r@ == self@.inputs[b as int],
    {
        &self.inputs[b]
    }

    /// The input ports that the output index lists for output `o` of block `b`.
    pub fn consumers(&self, b: usize, o: usize) -> (r: &Vec<InputId>)
        requires
            wf(self@),
            b < self@.kinds.len(),
            o < output_count(self@.kinds[b as int]),
        ensures
            r@ == self@.consumers[b as int][o as int],
    {
        assert(self@.inputs[b as int].len() == input_count(self@.kinds[b as int]));
        &self.consumers[b][o]
    }

    /// The values last presented to the inputs of block `b`.
    pub fn input_state(&self, b: usize) -> (r: &Vec<bool>)
        requires
            wf(self@),
            b < self@.kinds.len(),
        ensures
            r@ == self@.input_state[b as int],
    {
        &self.input_state[b]
    }

    /// The current output values of block `b`.
    pub fn output_state(&self, b: usize) -> (r: &Vec<bool>)
        requires
            wf(self@),
            b < self@.kinds.len(),
        ensures
            r@ == self@.output_state[b as int],
    {
        &self.output_state[b]
    }

    /// Whether block `b` has been removed.
    pub fn is_removed(&self, b: usize) -> (r: bool)
        requires
            wf(self@),
            b < self@.kinds.len(),
        ensures
            r == self@.removed[b as int],
    {
        self.removed[b]
    }

    /// Whether block `b` waits for evaluation.
    pub fn is_dirty(&self, b: usize) -> (r: bool)
        requires
            wf(self@),
            b < self@.kinds.len(),
        ensures
            r == self@.dirty[b as int],
    {
        self.dirty[b]
    }

    /// Every input port wired to `o` now, in block order.
    fn scan_consumers(&self, o: OutputId) -> (r: Vec<InputId>)
        ensures
            forall|x: InputId| r@.contains(x) <==> wired(self@.inputs, x, o),
    {
        let ghost m = self@;
        let mut r: Vec<InputId> = Vec::new();
        let n = self.inputs.len();
        let mut b: usize = 0;
        while b < n
            invariant
                m == self@,
                n == m.inputs.len(),
                b <= n,
                forall|x: InputId| r@.contains(x) <==> (wired(m.inputs, x, o) && x.block < b),
            decreases n - b,
        {
            let row = &self.inputs[b];
            let mut i: usize = 0;
            while i < row.len()
                invariant
                    m == self@,
                    n == m.inputs.len(),
                    b < n,
                    row@ == m.inputs[b as int],
                    i <= row@.len(),
                    forall|x: InputId| r@.contains(x) <==> (wired(m.inputs, x, o)
                        && (x.block < b || (x.block == b && x.input < i))),
                decreases row@.len() - i,
            {
                if row[i] == Input::Connected(o) {
                    let ghost r0 = r@;
                    let v = InputId::new(b, i);
                    r.push(v);
                    assert forall|x: InputId| r@.contains(x) <==> (wired(m.inputs, x, o)
                        && (x.block < b || (x.block == b && x.input < i + 1))) by {
                        if r0.contains(x) {
                            let j = choose|j: int| 0 <= j < r0.len() && r0[j] == x;
                            assert(r@[j] == x);
                        }
                        if x == v {
                            assert(r@[r0.len() as int] == x);
                        }
                        if r@.contains(x) {
                            let j = choose|j: int| 0 <= j < r@.len() && r@[j] == x;
                            if j < r0.len() {
                                assert(r0[j] == x);
                            }
                        }
                    }
                }
                i = i + 1;
            }
            b = b + 1;
        }
        r
    }

    /// Brings the output index up to date with the wiring. Only outputs that a changed slot
    /// pointed at, before or after the change, are recomputed, each by a scan of every
    /// block's inputs; the snapshot of the wiring is then refreshed.
    pub fn rebuild_index(&mut self)
        requires
            wf(old(self)@),
        ensures
            wf(final(self)@),
            index_consistent(final(self)@),
            final(self)@.last_inputs == final(self)@.inputs,
            final(self)@ == (CircuitModel {
                consumers: final(self)@.consumers,
                last_inputs: old(self)@.inputs,
                ..old(self)@
            }),
    {
        let ghost m0 = self@;
        let n = self.kinds.len();
        // which outputs need their consumer list recomputed
        let mut aff: Vec<Vec<bool>> = Vec::new();
        let mut b: usize = 0;
        while b < n
            invariant
                m0 == self@,
                wf(m0),
                n == m0.kinds.len(),
                b <= n,
                aff@.len() == b,
                forall|k: int| 0 <= k < b ==> (#[trigger] aff@[k])@.len() == output_count(m0.kinds[k]),
                forall|k: int| 0 <= k < b ==> !(#[trigger] aff@[k])@.contains(true),
            decreases n - b,
        {
            let row = filled(false, self.kinds[b].outputs());
            assert(!row@.contains(true));
            aff.push(row);
            b = b + 1;
        }
        b = 0;
        while b < n
            invariant
                m0 == self@,
                wf(m0),
                n == m0.kinds.len(),
                b <= n,
                aff@.len() == n,
                forall|k: int| 0 <= k < n ==> (#[trigger] aff@[k])@.len() == output_count(m0.kinds[k]),
                forall|k: int, i: int| 0 <= k < b && 0 <= i < m0.inputs[k].len()
                    && #[trigger] m0.inputs[k][i] != m0.last_inputs[k][i] ==>
                    flagged(aff@, m0.inputs[k][i]) && flagged(aff@, m0.last_inputs[k][i]),
            decreases n - b,
        {
            assert(m0.inputs[b as int].len() == input_count(m0.kinds[b as int]));
            let cur = &self.inputs[b];
            let last = &self.last_inputs[b];
            let mut i: usize = 0;
            while i < cur.len()
                invariant
                    m0 == self@,
                    wf(m0),
                    n == m0.kinds.len(),
                    b < n,
                    cur@ == m0.inputs[b as int],
                    last@ == m0.last_inputs[b as int],
                    cur@.len() == last@.len(),
                    i <= cur@.len(),
                    aff@.len() == n,
                    forall|k: int| 0 <= k < n ==> (#[trigger] aff@[k])@.len() == output_count(m0.kinds[k]),
                    forall|k: int, j: int| 0 <= k < m0.inputs.len() && 0 <= j < m0.inputs[k].len()
                        && (k < b || (k == b && j < i))
                        && #[trigger] m0.inputs[k][j] != m0.last_inputs[k][j] ==>
                        flagged(aff@, m0.inputs[k][j]) && flagged(aff@, m0.last_inputs[k][j]),
                decreases cur@.len() - i,
            {
                if cur[i] != last[i] {
                    let ghost a0 = aff@;
                    assert(slots_valid(m0, m0.inputs));
                    assert(match m0.inputs[b as int][i as int] {
                        Input::Connected(o) => valid_output(m0, o),
                        Input::Unconnected => true,
                    });
                    assert(match m0.last_inputs[b as int][i as int] {
                        Input::Connected(o) => valid_output(m0, o),
                        Input::Unconnected => true,
                    });
                    if let Input::Connected(o) = cur[i] {
                        aff[o.block].set(o.output, true);
                    }
                    let ghost a1 = aff@;
                    assert(flagged(a1, m0.inputs[b as int][i as int]));
                    if let Input::Connected(o) = last[i] {
                        aff[o.block].set(o.output, true);
                    }
                    assert(flagged(aff@, m0.last_inputs[b as int][i as int]));
                    assert(forall|k: int| 0 <= k < n ==> aff@[k]@.len() == a0[k]@.len());
                    assert(forall|k: int, j: int| 0 <= k < n && 0 <= j < a0[k]@.len() && a0[k]@[j] ==> aff@[k]@[j]);
                    proof { lemma_flag_kept(a1, aff@, m0.inputs[b as int][i as int]); }
                    assert forall|k: int, j: int| 0 <= k < m0.inputs.len() && 0 <= j < m0.inputs[k].len()
                        && (k < b || (k == b && j < i + 1))
                        && #[trigger] m0.inputs[k][j] != m0.last_inputs[k][j] implies
                        flagged(aff@, m0.inputs[k][j]) && flagged(aff@, m0.last_inputs[k][j]) by {
                        if k < b || j < i {
                            assert(slots_valid(m0, m0.last_inputs));
                            assert(m0.inputs[k].len() == input_count(m0.kinds[k]));
                            assert(match m0.inputs[k][j] { Input::Connected(o) => valid_output(m0, o), Input::Unconnected => true });
                            assert(match m0.last_inputs[k][j] { Input::Connected(o) => valid_output(m0, o), Input::Unconnected => true });
                            lemma_flag_kept(a0, aff@, m0.inputs[k][j]);
                            lemma_flag_kept(a0, aff@, m0.last_inputs[k][j]);
                        }
                    }
                    assert forall|k: int| 0 <= k < n implies (#[trigger] aff@[k])@.len() == output_count(m0.kinds[k]) by {
                        assert(a0[k]@.len() == output_count(m0.kinds[k]));
                    }
                }
                i = i + 1;
            }
            b = b + 1;
        }
        // recompute the consumer lists of the affected outputs
        assert forall|k: int| 0 <= k < n implies (#[trigger] self@.consumers[k]).len() == output_count(m0.kinds[k]) by {
            assert(m0.inputs[k].len() == input_count(m0.kinds[k]));
        }
        b = 0;
        while b < n
            invariant
                wf(m0),
                n == m0.kinds.len(),
                b <= n,
                aff@.len() == n,
                forall|k: int| 0 <= k < n ==> (#[trigger] aff@[k])@.len() == output_count(m0.kinds[k]),
                forall|k: int, i: int| 0 <= k < n && 0 <= i < m0.inputs[k].len()
                    && #[trigger] m0.inputs[k][i] != m0.last_inputs[k][i] ==>
                    flagged(aff@, m0.inputs[k][i]) && flagged(aff@, m0.last_inputs[k][i]),
                self@ == (CircuitModel { consumers: self@.consumers, ..m0 }),
                self@.consumers.len() == n,
                forall|k: int| 0 <= k < n ==> (#[trigger] self@.consumers[k]).len() == output_count(m0.kinds[k]),
                forall|k: int, o: int| 0 <= k < n && 0 <= o < output_count(m0.kinds[k]) ==>
                    #[trigger] entry_ok(m0, self@.consumers, aff@, k, o, b as int, 0),
            decreases n - b,
        {
            let no = self.kinds[b].outputs();
            let mut o: usize = 0;
            while o < no
                invariant
                    wf(m0),
                    n == m0.kinds.len(),
                    b < n,
                    no == output_count(m0.kinds[b as int]),
                    o <= no,
                    aff@.len() == n,
                    forall|k: int| 0 <= k < n ==> (#[trigger] aff@[k])@.len() == output_count(m0.kinds[k]),
                    self@ == (CircuitModel { consumers: self@.consumers, ..m0 }),
                    self@.consumers.len() == n,
                    forall|k: int| 0 <= k < n ==> (#[trigger] self@.consumers[k]).len() == output_count(m0.kinds[k]),
                    forall|k: int, oo: int| 0 <= k < n && 0 <= oo < output_count(m0.kinds[k]) ==>
                        #[trigger] entry_ok(m0, self@.consumers, aff@, k, oo, b as int, o as int),
                decreases no - o,
            {
                if aff[b][o] {
                    let ghost c0 = self@.consumers;
                    let list = self.scan_consumers(OutputId::new(b, o));
                    assert(self@.consumers[b as int].len() == no);
                    self.consumers[b][o] = list;
                    assert(self@.consumers =~~= c0.update(b as int, c0[b as int].update(o as int, list@)));
                    assert(self@.inputs =~= m0.inputs);
                    assert(self@.last_inputs =~= m0.last_inputs);
                    assert(self@.input_state =~= m0.input_state);
                    assert(self@.output_state =~= m0.output_state);
                    assert forall|k: int| 0 <= k < n implies (#[trigger] self@.consumers[k]).len() == output_count(m0.kinds[k]) by {
                        assert(c0[k].len() == output_count(m0.kinds[k]));
                    }
                    assert forall|k: int, oo: int| 0 <= k < n && 0 <= oo < output_count(m0.kinds[k]) implies
                        #[trigger] entry_ok(m0, self@.consumers, aff@, k, oo, b as int, o + 1) by {
                        assert(entry_ok(m0, c0, aff@, k, oo, b as int, o as int));
                    }
                } else {
                    assert forall|k: int, oo: int| 0 <= k < n && 0 <= oo < output_count(m0.kinds[k]) implies
                        #[trigger] entry_ok(m0, self@.consumers, aff@, k, oo, b as int, o + 1) by {
                        assert(entry_ok(m0, self@.consumers, aff@, k, oo, b as int, o as int));
                    }
                }
                o = o + 1;
            }
            assert forall|k: int, oo: int| 0 <= k < n && 0 <= oo < output_count(m0.kinds[k]) implies
                #[trigger] entry_ok(m0, self@.consumers, aff@, k, oo, b + 1, 0) by {
                assert(entry_ok(m0, self@.consumers, aff@, k, oo, b as int, no as int));
            }
            b = b + 1;
        }
        // refresh the snapshot
        let ghost m1 = self@;
        let mut snap: Vec<Vec<Input>> = Vec::new();
        b = 0;
        while b < n
            invariant
                m1 == self@,
                n == m1.inputs.len(),
                b <= n,
                snap@.len() == b,
                forall|k: int| 0 <= k < b ==> (#[trigger] snap@[k])@ == m1.inputs[k],
            decreases n - b,
        {
            let row = &self.inputs[b];
            let mut copy: Vec<Input> = Vec::new();
            let mut i: usize = 0;
            while i < row.len()
                invariant
                    row@ == m1.inputs[b as int],
                    i <= row@.len(),
                    copy@ == row@.subrange(0, i as int),
                decreases row@.len() - i,
            {
                copy.push(row[i]);
                i = i + 1;
                assert(copy@ =~= row@.subrange(0, i as int));
            }
            assert(copy@ =~= row@);
            snap.push(copy);
            b = b + 1;
        }
        self.last_inputs = snap;
        let ghost m = self@;
        assert(m.last_inputs =~= m.inputs);
        assert(m.inputs =~= m0.inputs);
        assert(m.input_state =~= m0.input_state);
        assert(m.output_state =~= m0.output_state);
        assert(m.consumers =~= m1.consumers);
        assert forall|k: int, o: int, x: InputId|
            0 <= k < m.kinds.len() && 0 <= o < output_count(m.kinds[k]) implies (
            #[trigger] m.consumers[k][o].contains(x) <==> wired(m.inputs, x, OutputId { block: k as usize, output: o as usize })) by {
            let t = OutputId { block: k as usize, output: o as usize };
            assert(entry_ok(m0, m1.consumers, aff@, k, o, n as int, 0));
            if !aff@[k]@[o] {
                assert(m.consumers[k][o] == m0.consumers[k][o]);
                assert(m0.consumers[k][o].contains(x) <==> wired(m0.last_inputs, x, t));
                if x.block < n && x.input < m0.inputs[x.block as int].len() {
                    let kb = x.block as int;
                    assert(m0.inputs[kb].len() == input_count(m0.kinds[kb]));
                    if m0.inputs[kb][x.input as int] != m0.last_inputs[kb][x.input as int] {
                        assert(flagged(aff@, m0.inputs[kb][x.input as int]));
                        assert(flagged(aff@, m0.last_inputs[kb][x.input as int]));
                    }
                } else if x.block < n {
                    let kb = x.block as int;
                    assert(m0.inputs[kb].len() == input_count(m0.kinds[kb]));
                }
            }
        }
        assert forall|k: int| 0 <= k < m.kinds.len() implies {
            &&& (#[trigger] m.inputs[k]).len() == input_count(m.kinds[k])
            &&& m.last_inputs[k].len() == input_count(m.kinds[k])
            &&& m.input_state[k].len() == input_count(m.kinds[k])
            &&& m.consumers[k].len() == output_count(m.kinds[k])
            &&& m.output_state[k].len() == output_count(m.kinds[k])
            &&& !m.dirty[k] ==> m.output_state[k] == transfer(m.kinds[k], m.input_state[k])
        } by {
            assert(m0.inputs[k].len() == input_count(m0.kinds[k]));
        }
    }

    /// The values presented to the inputs of block `b` when the blocks of `d` are unsettled.
    fn read_block_inputs(&self, d: &Vec<bool>, b: usize) -> (r: Vec<bool>)
        requires
            wf(self@),
            b < self@.kinds.len(),
            d@.len() == self@.kinds.len(),
        ensures
            r@ == read_inputs(self@, d@, b as int),
    {
        let ghost m = self@;
        let row = &self.inputs[b];
        let mut r: Vec<bool> = Vec::new();
        let mut i: usize = 0;
        while i < row.len()
            invariant
                m == self@,
                wf(m),
                b < m.kinds.len(),
                d@.len() == m.kinds.len(),
                row@ == m.inputs[b as int],
                i <= row@.len(),
                r@ == read_inputs(m, d@, b as int).subrange(0, i as int),
            decreases row@.len() - i,
        {
            assert(slots_valid(m, m.inputs));
            let v = match row[i] {
                Input::Connected(o) => {
                    assert(valid_output(m, o));
                    assert(m.inputs[o.block as int].len() == input_count(m.kinds[o.block as int]));
                    !d[o.block] && self.output_state[o.block][o.output]
                },
                Input::Unconnected => false,
            };
            r.push(v);
            i = i + 1;
            assert(r@ =~= read_inputs(m, d@, b as int).subrange(0, i as int));
        }
        assert(r@ =~= read_inputs(m, d@, b as int));
        r
    }

    /// Whether no source of block `b` is in `d`.
    fn is_ready(&self, d: &Vec<bool>, b: usize) -> (r: bool)
        requires
            wf(self@),
            b < self@.kinds.len(),
            d@.len() == self@.kinds.len(),
        ensures
            r == ready(self@, d@, b as int),
    {
        let ghost m = self@;
        let row = &self.inputs[b];
        let mut i: usize = 0;
        while i < row.len()
            invariant
                m == self@,
                wf(m),
                b < m.kinds.len(),
                d@.len() == m.kinds.len(),
                row@ == m.inputs[b as int],
                i <= row@.len(),
                forall|j: int| 0 <= j < i ==> match #[trigger] m.inputs[b as int][j] {
                    Input::Connected(o) => !d@[o.block as int],
                    Input::Unconnected => true,
                },
            decreases row@.len() - i,
        {
            assert(slots_valid(m, m.inputs));
            if let Input::Connected(o) = row[i] {
                assert(valid_output(m, o));
                if d[o.block] {
                    return false;
                }
            }
            i = i + 1;
        }
        true
    }

    /// Evaluates block `b` against the unsettled set `d`.
    fn evaluate_block(&mut self, d: &Vec<bool>, b: usize)
        requires
            wf(old(self)@),
            b < old(self)@.kinds.len(),
            d@.len() == old(self)@.kinds.len(),
        ensures
            final(self)@ == evaluate(old(self)@, d@, b as int),
            wf(final(self)@),
    {
        let ghost m = self@;
        let n = self.kinds.len();
        assert(m.inputs[b as int].len() == input_count(m.kinds[b as int]));
        let ins = self.read_block_inputs(d, b);
        let outs = self.kinds[b].compute(&ins);
        let changed = !same_bits(&outs, &self.output_state[b]);
        let ghost want = evaluate(m, d@, b as int);
        self.input_state.set(b, ins);
        self.output_state.set(b, outs);
        self.dirty.set(b, false);
        assert(self@.inputs =~= want.inputs);
        assert(self@.last_inputs =~= want.last_inputs);
        assert(self@.input_state =~= want.input_state);
        assert(self@.output_state =~= want.output_state);
        assert(self@.consumers =~= want.consumers);
        assert(self@.consumers[b as int].len() == m.consumers[b as int].len());
        let no = self.consumers[b].len();
        if changed {
            let mut o: usize = 0;
            while o < no
                invariant
                    wf(m),
                    n == m.kinds.len(),
                    b < n,
                    no == m.consumers[b as int].len(),
                    o <= no,
                    want == evaluate(m, d@, b as int),
                    self@ == (CircuitModel { dirty: self@.dirty, ..want }),
                    self@.dirty == Seq::new(n as nat, |k: int|
                        if marked(m, b as int, o as int, 0, k) { true } else if k == b { false } else { m.dirty[k] }),
                decreases no - o,
            {
                assert(self@.consumers[b as int].len() == no);
                assert(self@.consumers[b as int][o as int].len() == m.consumers[b as int][o as int].len());
                let len = self.consumers[b][o].len();
                let mut j: usize = 0;
                while j < len
                    invariant
                        wf(m),
                        n == m.kinds.len(),
                        b < n,
                        no == m.consumers[b as int].len(),
                        o < no,
                        len == m.consumers[b as int][o as int].len(),
                        j <= len,
                        want == evaluate(m, d@, b as int),
                    self@ == (CircuitModel { dirty: self@.dirty, ..want }),
                        self@.dirty == Seq::new(n as nat, |k: int|
                            if marked(m, b as int, o as int, j as int, k) { true } else if k == b { false } else { m.dirty[k] }),
                    decreases len - j,
                {
                    assert(self@.consumers[b as int].len() == no);
                    assert(self@.consumers[b as int][o as int].len() == len);
                    let c = self.consumers[b][o][j];
                    assert(m.consumers[b as int][o as int][j as int] == c);
                    assert(m.consumers[b as int][o as int].contains(c));
                    assert(o < output_count(m.kinds[b as int]));
                    assert(wired(m.last_inputs, c, OutputId { block: b, output: o }));
                    let ghost d0 = self@.dirty;
                    self.dirty.set(c.block, true);
                    assert forall|k: int| 0 <= k < n implies
                        #[trigger] marked(m, b as int, o as int, j + 1, k) == (marked(m, b as int, o as int, j as int, k) || k == c.block) by {
                        if marked(m, b as int, o as int, j + 1, k) && !marked(m, b as int, o as int, j as int, k) {
                            let (oo, jj) = choose|oo: int, jj: int| 0 <= oo < m.consumers[b as int].len()
                                && 0 <= jj < m.consumers[b as int][oo].len()
                                && (oo < o || (oo == o && jj < j + 1))
                                && #[trigger] m.consumers[b as int][oo][jj].block == k;
                            assert(oo == o && jj == j);
                        }
                        if k == c.block {
                            assert(m.consumers[b as int][o as int][j as int].block == k);
                        }
                    }
                    assert(self@.dirty =~= Seq::new(n as nat, |k: int|
                        if marked(m, b as int, o as int, j + 1, k) { true } else if k == b { false } else { m.dirty[k] }));
                    assert(self@.inputs =~= want.inputs);
                    assert(self@.last_inputs =~= want.last_inputs);
                    assert(self@.input_state =~= want.input_state);
                    assert(self@.output_state =~= want.output_state);
                    assert(self@.consumers =~= want.consumers);
                    j = j + 1;
                }
                assert forall|k: int| 0 <= k < n implies
                    #[trigger] marked(m, b as int, o + 1, 0, k) == marked(m, b as int, o as int, len as int, k) by {
                    if marked(m, b as int, o + 1, 0, k) {
                        let (oo, jj) = choose|oo: int, jj: int| 0 <= oo < m.consumers[b as int].len()
                            && 0 <= jj < m.consumers[b as int][oo].len()
                            && (oo < o + 1 || (oo == o + 1 && jj < 0))
                            && #[trigger] m.consumers[b as int][oo][jj].block == k;
                        assert(marked(m, b as int, o as int, len as int, k));
                    }
                    if marked(m, b as int, o as int, len as int, k) {
                        let (oo, jj) = choose|oo: int, jj: int| 0 <= oo < m.consumers[b as int].len()
                            && 0 <= jj < m.consumers[b as int][oo].len()
                            && (oo < o || (oo == o && jj < len))
                            && #[trigger] m.consumers[b as int][oo][jj].block == k;
                        assert(marked(m, b as int, o + 1, 0, k));
                    }
                }
                assert(self@.dirty =~= Seq::new(n as nat, |k: int|
                    if marked(m, b as int, o + 1, 0, k) { true } else if k == b { false } else { m.dirty[k] }));
                o = o + 1;
            }
            assert forall|k: int| 0 <= k < n implies #[trigger] marked(m, b as int, no as int, 0, k) == feeds(m, b as int, k) by {
                if feeds(m, b as int, k) {
                    let (oo, jj) = choose|oo: int, jj: int| 0 <= oo < m.consumers[b as int].len()
                        && 0 <= jj < m.consumers[b as int][oo].len()
                        && (#[trigger] m.consumers[b as int][oo][jj]).block == k;
                    assert(marked(m, b as int, no as int, 0, k));
                }
            }
            assert(self@.dirty =~= want.dirty);
        } else {
            assert(self@.dirty =~= want.dirty);
        }
        assert(self@.inputs =~= want.inputs);
        assert(self@.last_inputs =~= want.last_inputs);
        assert(self@.input_state =~= want.input_state);
        assert(self@.output_state =~= want.output_state);
        assert(self@.consumers =~= want.consumers);
        proof { lemma_evaluate_wf(m, d@, b as int); }
    }

    /// Whether any block is dirty.
    pub fn has_dirty(&self) -> (r: bool)
        requires
            wf(self@),
        ensures
            r == any_dirty(self@),
    {
        let mut i: usize = 0;
        while i < self.dirty.len()
            invariant
                i <= self.dirty@.len(),
                forall|k: int| 0 <= k < i ==> !self.dirty@[k],
            decreases self.dirty@.len() - i,
        {
            if self.dirty[i] {
                assert(self@.dirty[i as int]);
                return true;
            }
            i = i + 1;
        }
        false
    }

    /// One iteration: every block dirty at its start that is ready (or every one, when
    /// `forced`) is evaluated, in handle order. Tells whether any block was evaluated.
    fn run_iteration(&mut self, forced: bool) -> (progress: bool)
        requires
            wf(old(self)@),
        ensures
            wf(final(self)@),
            final(self)@ == iterate(old(self)@, forced),
            progress == progresses(old(self)@, forced),
            final(self)@.kinds == old(self)@.kinds,
            final(self)@.inputs == old(self)@.inputs,
            final(self)@.consumers == old(self)@.consumers,
    {
        let ghost m0 = self@;
        let d = copy_vec(&self.dirty);
        let n = self.kinds.len();
        let mut progress = false;
        let mut j: usize = 0;
        while j < n
            invariant
                wf(m0),
                n == m0.kinds.len(),
                d@ == m0.dirty,
                j <= n,
                self@ == sweep(m0, d@, forced, j as nat),
                wf(self@),
                self@.kinds == m0.kinds,
                self@.inputs == m0.inputs,
                self@.consumers == m0.consumers,
                progress == (exists|b: int| 0 <= b < j && #[trigger] d@[b] && (forced || ready(m0, d@, b))),
            decreases n - j,
        {
            if d[j] && (forced || self.is_ready(&d, j)) {
                self.evaluate_block(&d, j);
                progress = true;
            }
            proof {
                lemma_evaluate_wf(sweep(m0, d@, forced, j as nat), d@, j as int);
            }
            j = j + 1;
        }
        progress
    }

    /// One settling pass. Ordinary iterations run while blocks are dirty and the previous
    /// iteration evaluated something, at most one per block; if blocks are still dirty then,
    /// one forced iteration evaluates all of them, reading an unsettled source as false.
    /// Returns the number of iterations run.
    pub fn settle(&mut self) -> (iterations: usize)
        requires
            wf(old(self)@),
        ensures
            wf(final(self)@),
            (final(self)@, iterations as nat) == settle(old(self)@),
            iterations <= old(self)@.kinds.len() + 1,
            final(self)@.kinds == old(self)@.kinds,
            final(self)@.inputs == old(self)@.inputs,
            final(self)@.consumers == old(self)@.consumers,
    {
        let ghost m0 = self@;
        let n = self.kinds.len();
        let mut iters: usize = 0;
        let mut progress = true;
        while progress && iters < n && self.has_dirty()
            invariant
                wf(self@),
                n == m0.kinds.len(),
                self@.kinds == m0.kinds,
                self@.inputs == m0.inputs,
                self@.consumers == m0.consumers,
                iters <= n,
                progress ==> settle_loop(m0, n as nat) == (settle_loop(self@, (n - iters) as nat).0,
                    (settle_loop(self@, (n - iters) as nat).1 + iters) as nat),
                !progress ==> settle_loop(m0, n as nat) == (self@, iters as nat),
            decreases n - iters,
        {
            let ghost s = self@;
            progress = self.run_iteration(false);
            proof {
                if !progress {
                    lemma_sweep_idle(s, false, n as nat);
                }
            }
            iters = iters + 1;
        }
        if self.has_dirty() {
            self.run_iteration(true);
            iters = iters + 1;
        }
        iters
    }

    proof fn lemma_new_block_wiring(m0: CircuitModel, m: CircuitModel, s0: Seq<Seq<Input>>, s: Seq<Seq<Input>>, x: InputId, o: OutputId)
        requires
            wf(m0),
            slots_valid(m0, s0),
            s0.len() == m0.kinds.len(),
            s.len() == s0.len() + 1,
            forall|b: int| 0 <= b < s0.len() ==> s[b] == s0[b],
            forall|i: int| 0 <= i < s[s0.len() as int].len() ==> s[s0.len() as int][i] == Input::Unconnected,
            m.kinds.len() == m0.kinds.len() + 1,
            forall|b: int| 0 <= b < m0.kinds.len() ==> m.consumers[b] == m0.consumers[b],
            forall|oo: int| 0 <= oo < m.consumers[s0.len() as int].len() ==> m.consumers[s0.len() as int][oo] == Seq::<InputId>::empty(),
            o.block < m.kinds.len(),
            o.output < m.consumers[o.block as int].len(),
            index_matches(m0, s0),
            m.consumers.len() == m.kinds.len(),
        ensures
            m.consumers[o.block as int][o.output as int].contains(x) <==> wired(s, x, o),
    {
        if x.block < s0.len() && x.input < s0[x.block as int].len() {
            let v = s0[x.block as int][x.input as int];
            assert(s[x.block as int][x.input as int] == v);
        }
        if o.block == s0.len() {
            assert(!m.consumers[o.block as int][o.output as int].contains(x));
            if wired(s, x, o) {
                assert(x.block < s0.len());
                assert(valid_output(m0, o));
            }
        } else {
            assert(m0.inputs[o.block as int].len() == input_count(m0.kinds[o.block as int]));
            assert(m.consumers[o.block as int] == m0.consumers[o.block as int]);
        }
    }
}

/// Some consumer listed for block `b` before entry `j` of output `o` belongs to block `k`.
spec fn marked(m: CircuitModel, b: int, o: int, j: int, k: int) -> bool {
    exists|oo: int, jj: int| 0 <= oo < m.consumers[b].len()
        && 0 <= jj < m.consumers[b][oo].len()
        && (oo < o || (oo == o && jj < j))
        && #[trigger] m.consumers[b][oo][jj].block == k
}

/// Whether two bit vectors are equal.
fn same_bits(a: &Vec<bool>, b: &Vec<bool>) -> (r: bool)
    ensures
        r == (a@ == b@),
{
    if a.len() != b.len() {
        return false;
    }
    let mut i: usize = 0;
    while i < a.len()
        invariant
            a@.len() == b@.len(),
            i <= a@.len(),
            forall|j: int| 0 <= j < i ==> a@[j] == b@[j],
        decreases a@.len() - i,
    {
        if a[i] != b[i] {
            return false;
        }
        i = i + 1;
    }
    assert(a@ =~= b@);
    true
}

/// Evaluating a block keeps a circuit well formed.
proof fn lemma_evaluate_wf(m: CircuitModel, d: Seq<bool>, b: int)
    requires
        wf(m),
        0 <= b < m.kinds.len(),
        d.len() == m.kinds.len(),
    ensures
        wf(evaluate(m, d, b)),
        evaluate(m, d, b).kinds == m.kinds,
        evaluate(m, d, b).inputs == m.inputs,
        evaluate(m, d, b).last_inputs == m.last_inputs,
        evaluate(m, d, b).consumers == m.consumers,
{
    let e = evaluate(m, d, b);
    assert(m.inputs[b].len() == input_count(m.kinds[b]));
    assert forall|k: int| 0 <= k < e.kinds.len() implies {
        &&& (#[trigger] e.inputs[k]).len() == input_count(e.kinds[k])
        &&& e.last_inputs[k].len() == input_count(e.kinds[k])
        &&& e.input_state[k].len() == input_count(e.kinds[k])
        &&& e.consumers[k].len() == output_count(e.kinds[k])
        &&& e.output_state[k].len() == output_count(e.kinds[k])
        &&& !e.dirty[k] ==> e.output_state[k] == transfer(e.kinds[k], e.input_state[k])
    } by {
        assert(m.inputs[k].len() == input_count(m.kinds[k]));
    }
}

/// `slots` with every wire from block `b` taken out.
pub open spec fn detached(slots: Seq<Input>, b: int) -> Seq<Input> {
    Seq::new(slots.len(), |i: int| if points_at(slots[i], b) { Input::Unconnected } else { slots[i] })
}

/// A copy of `v`.
fn copy_vec<T: Copy>(v: &Vec<T>) -> (r: Vec<T>)
    ensures
        r@ == v@,
{
    let mut r: Vec<T> = Vec::new();
    let mut i: usize = 0;
    while i < v.len()
        invariant
            i <= v@.len(),
            r@ == v@.subrange(0, i as int),
        decreases v@.len() - i,
    {
        r.push(v[i]);
        i = i + 1;
        assert(r@ =~= v@.subrange(0, i as int));
    }
    assert(r@ =~= v@);
    r
}

/// A sweep in which no block qualifies leaves the circuit as it was.
proof fn lemma_sweep_idle(m: CircuitModel, forced: bool, j: nat)
    requires
        j <= m.kinds.len(),
        !progresses(m, forced),
    ensures
        sweep(m, m.dirty, forced, j) == m,
    decreases j,
{
    if j > 0 {
        lemma_sweep_idle(m, forced, (j - 1) as nat);
        assert(!(m.dirty[j - 1] && (forced || ready(m, m.dirty, j - 1))));
    }
}

/// Entry `o` of block `k` of the index `c` while the recomputation has reached output
/// `oo` of block `b`: recomputed from the wiring if it is affected and already passed,
/// otherwise as it was.
spec fn entry_ok(m0: CircuitModel, c: Seq<Seq<Seq<InputId>>>, aff: Seq<Vec<bool>>, k: int, o: int, b: int, oo: int) -> bool {
    if (k < b || (k == b && o < oo)) && aff[k]@[o] {
        forall|x: InputId| #[trigger] c[k][o].contains(x)
            <==> wired(m0.inputs, x, OutputId { block: k as usize, output: o as usize })
    } else {
        c[k][o] == m0.consumers[k][o]
    }
}

/// The output that `x` points at is marked in `aff`; an unconnected slot needs no mark.
spec fn flagged(aff: Seq<Vec<bool>>, x: Input) -> bool {
    match x {
        Input::Connected(o) => aff[o.block as int]@[o.output as int],
        Input::Unconnected => true,
    }
}

proof fn lemma_flag_kept(a0: Seq<Vec<bool>>, a1: Seq<Vec<bool>>, x: Input)
    requires
        a0.len() == a1.len(),
        forall|k: int| 0 <= k < a0.len() ==> a1[k]@.len() == a0[k]@.len(),
        forall|k: int, j: int| 0 <= k < a0.len() && 0 <= j < a0[k]@.len() && a0[k]@[j] ==> a1[k]@[j],
        flagged(a0, x),
        match x {
            Input::Connected(o) => o.block < a0.len() && o.output < a0[o.block as int]@.len(),
            Input::Unconnected => true,
        },
    ensures
        flagged(a1, x),
{
}

} // verus!

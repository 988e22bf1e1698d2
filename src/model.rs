//! Mathematical model of a circuit, and the settling pass stated over it.
use vstd::prelude::*;
use crate::catalog::{BlockKind, input_count, output_count, transfer};

verus! {

/// A signal source: output port `output` of block `block`.
#[derive(Clone, Copy, PartialEq, Eq, Structural, Debug)]
pub struct OutputId {
    pub block: usize,
    pub output: usize,
}

/// What an input port is wired to.
#[derive(Clone, Copy, PartialEq, Eq, Structural, Debug)]
pub enum Input {
    Connected(OutputId),
    Unconnected,
}

/// A consumer: input port `input` of block `block`.
#[derive(Clone, Copy, PartialEq, Eq, Structural, Debug)]
pub struct InputId {
    pub block: usize,
    pub input: usize,
}

impl OutputId {
    pub fn new(block: usize, output: usize) -> (r: OutputId)
        ensures
            r == (OutputId { block, output }),
    {
        OutputId { block, output }
    }
}

impl InputId {
    pub fn new(block: usize, input: usize) -> (r: InputId)
        ensures
            r == (InputId { block, input }),
    {
        InputId { block, input }
    }
}

impl Input {
    /// A slot wired to output `output` of block `block`.
    pub fn from_output(block: usize, output: usize) -> (r: Input)
        ensures
            r == Input::Connected(OutputId { block, output }),
    {
        Input::Connected(OutputId::new(block, output))
    }
}

/// The state of a circuit: one entry per block in every sequence.
pub struct CircuitModel {
    pub kinds: Seq<BlockKind>,
    /// Input slots, as wired now.
    pub inputs: Seq<Seq<Input>>,
    /// Input slots as they were when the output index was last brought up to date.
    pub last_inputs: Seq<Seq<Input>>,
    /// The output index: for each output port, the input ports wired to it.
    pub consumers: Seq<Seq<Seq<InputId>>>,
    pub input_state: Seq<Seq<bool>>,
    pub output_state: Seq<Seq<bool>>,
    pub dirty: Seq<bool>,
    /// Blocks taken out of the circuit; their handles are not reused.
    pub removed: Seq<bool>,
}

pub open spec fn block_count(m: CircuitModel) -> nat {
    m.kinds.len()
}

/// `o` names an existing output port.
pub open spec fn valid_output(m: CircuitModel, o: OutputId) -> bool {
    o.block < m.kinds.len() && o.output < output_count(m.kinds[o.block as int])
}

/// Every connected slot among `slots` points at an existing output port.
pub open spec fn slots_valid(m: CircuitModel, slots: Seq<Seq<Input>>) -> bool {
    forall|b: int, i: int|
        0 <= b < slots.len() && 0 <= i < slots[b].len() ==> match #[trigger] slots[b][i] {
            Input::Connected(o) => valid_output(m, o),
            Input::Unconnected => true,
        }
}

/// `x` is a wire from some output of block `b`.
pub open spec fn points_at(x: Input, b: int) -> bool {
    match x {
        Input::Connected(o) => o.block == b,
        Input::Unconnected => false,
    }
}

/// No wire leaves a removed block, and a removed block has no wire into it.
pub open spec fn wiring_live(m: CircuitModel) -> bool {
    forall|b: int, i: int|
        0 <= b < m.inputs.len() && 0 <= i < m.inputs[b].len() ==> match #[trigger] m.inputs[b][i] {
            Input::Connected(o) => !m.removed[o.block as int] && !m.removed[b],
            Input::Unconnected => true,
        }
}

/// Input port `x` is wired to `o` in `slots`.
pub open spec fn wired(slots: Seq<Seq<Input>>, x: InputId, o: OutputId) -> bool {
    x.block < slots.len() && x.input < slots[x.block as int].len()
        && slots[x.block as int][x.input as int] == Input::Connected(o)
}

/// The output index lists, for each output port, exactly the input ports wired to it in `slots`.
pub open spec fn index_matches(m: CircuitModel, slots: Seq<Seq<Input>>) -> bool {
    forall|b: int, o: int, x: InputId|
        0 <= b < m.kinds.len() && 0 <= o < output_count(m.kinds[b]) ==> (
        #[trigger] m.consumers[b][o].contains(x) <==> wired(slots, x, OutputId { block: b as usize, output: o as usize }))
}

/// The output index agrees with the current wiring.
pub open spec fn index_consistent(m: CircuitModel) -> bool {
    index_matches(m, m.inputs)
}

/// Well-formedness: port vectors have the arity of their block, every wire points at an
/// existing output of a block still in place, the index agrees with the wiring it was last rebuilt from, and a block
/// that is not dirty shows the transfer of its input values.
pub open spec fn wf(m: CircuitModel) -> bool {
    let n = m.kinds.len();
    &&& n < usize::MAX
    &&& m.inputs.len() == n
    &&& m.last_inputs.len() == n
    &&& m.consumers.len() == n
    &&& m.input_state.len() == n
    &&& m.output_state.len() == n
    &&& m.dirty.len() == n
    &&& m.removed.len() == n
    &&& forall|b: int| 0 <= b < n ==> {
        &&& (#[trigger] m.inputs[b]).len() == input_count(m.kinds[b])
        &&& m.last_inputs[b].len() == input_count(m.kinds[b])
        &&& m.input_state[b].len() == input_count(m.kinds[b])
        &&& m.consumers[b].len() == output_count(m.kinds[b])
        &&& m.output_state[b].len() == output_count(m.kinds[b])
        &&& !m.dirty[b] ==> m.output_state[b] == transfer(m.kinds[b], m.input_state[b])
    }
    &&& slots_valid(m, m.inputs)
    &&& wiring_live(m)
    &&& slots_valid(m, m.last_inputs)
    &&& index_matches(m, m.last_inputs)
}

/// Value presented to input `i` of block `b`: the upstream output, or false when the slot is
/// unconnected or its source is in the dirty set `d`.
pub open spec fn input_value(m: CircuitModel, d: Seq<bool>, b: int, i: int) -> bool {
    match m.inputs[b][i] {
        Input::Connected(o) => !d[o.block as int] && m.output_state[o.block as int][o.output as int],
        Input::Unconnected => false,
    }
}

pub open spec fn read_inputs(m: CircuitModel, d: Seq<bool>, b: int) -> Seq<bool> {
    Seq::new(m.inputs[b].len(), |i: int| input_value(m, d, b, i))
}

/// No source of block `b` is in the dirty set `d`.
pub open spec fn ready(m: CircuitModel, d: Seq<bool>, b: int) -> bool {
    forall|i: int| 0 <= i < m.inputs[b].len() ==> match #[trigger] m.inputs[b][i] {
        Input::Connected(o) => !d[o.block as int],
        Input::Unconnected => true,
    }
}

/// Block `k` consumes some output of block `b`, by the output index.
pub open spec fn feeds(m: CircuitModel, b: int, k: int) -> bool {
    exists|o: int, j: int|
        0 <= o < m.consumers[b].len() && 0 <= j < m.consumers[b][o].len()
            && (#[trigger] m.consumers[b][o][j]).block == k
}

/// Evaluates block `b`: stores its input values and the transfer of them, clears its dirty
/// mark, and when the outputs changed marks every consumer dirty.
pub open spec fn evaluate(m: CircuitModel, d: Seq<bool>, b: int) -> CircuitModel {
    let ins = read_inputs(m, d, b);
    let outs = transfer(m.kinds[b], ins);
    let changed = outs != m.output_state[b];
    CircuitModel {
        input_state: m.input_state.update(b, ins),
        output_state: m.output_state.update(b, outs),
        dirty: Seq::new(m.dirty.len(), |k: int|
            if changed && feeds(m, b, k) { true } else if k == b { false } else { m.dirty[k] }),
        ..m
    }
}

/// One block's turn in a sweep against the dirty set `d` taken when the sweep began.
/// A forced sweep evaluates every block of `d`; an ordinary one only the ready ones.
pub open spec fn step_block(m: CircuitModel, d: Seq<bool>, forced: bool, b: int) -> CircuitModel {
    if d[b] && (forced || ready(m, d, b)) { evaluate(m, d, b) } else { m }
}

/// The state after blocks `0..j` have had their turn.
pub open spec fn sweep(m: CircuitModel, d: Seq<bool>, forced: bool, j: nat) -> CircuitModel
    decreases j,
{
    if j == 0 { m } else { step_block(sweep(m, d, forced, (j - 1) as nat), d, forced, j - 1) }
}

/// One iteration of the settling pass.
pub open spec fn iterate(m: CircuitModel, forced: bool) -> CircuitModel {
    sweep(m, m.dirty, forced, m.kinds.len())
}

/// An iteration evaluates at least one block.
pub open spec fn progresses(m: CircuitModel, forced: bool) -> bool {
    exists|b: int| 0 <= b < m.kinds.len() && #[trigger] m.dirty[b] && (forced || ready(m, m.dirty, b))
}

pub open spec fn any_dirty(m: CircuitModel) -> bool {
    exists|b: int| 0 <= b < m.dirty.len() && #[trigger] m.dirty[b]
}

/// Ordinary iterations, at most `budget` of them, until nothing is dirty or an iteration
/// evaluates nothing. Gives the state and the number of iterations run.
pub open spec fn settle_loop(m: CircuitModel, budget: nat) -> (CircuitModel, nat)
    decreases budget,
{
    if budget == 0 || !any_dirty(m) {
        (m, 0)
    } else if !progresses(m, false) {
        (m, 1)
    } else {
        let r = settle_loop(iterate(m, false), (budget - 1) as nat);
        (r.0, r.1 + 1)
    }
}

/// A settling pass: ordinary iterations, at most one per block, then, if blocks are still
/// dirty, one forced iteration that reads a dirty source as false.
pub open spec fn settle(m: CircuitModel) -> (CircuitModel, nat) {
    let r = settle_loop(m, m.kinds.len());
    if any_dirty(r.0) { (iterate(r.0, true), r.1 + 1) } else { r }
}

} // verus!

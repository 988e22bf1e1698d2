//! The circuit that the sandbox opens with: two toggles on an AND gate that drives an LED.
use vstd::prelude::*;
use crate::catalog::BlockKind;
use crate::circuit::Circuit;
use crate::model::{Input, OutputId, wf};

verus! {

impl Circuit {
    /// Blocks 0 and 1 are toggles set to true, wired to inputs 0 and 1 of the AND gate
    /// (block 2), whose output drives the LED (block 3). Every block is dirty.
    pub fn starter() -> (r: Circuit)
        ensures
            wf(r@),
            r@.kinds == seq![BlockKind::Toggle(true), BlockKind::Toggle(true), BlockKind::And, BlockKind::Led],
            r@.inputs == seq![
                Seq::<Input>::empty(),
                Seq::<Input>::empty(),
                seq![Input::Connected(OutputId { block: 0, output: 0 }), Input::Connected(OutputId { block: 1, output: 0 })],
                seq![Input::Connected(OutputId { block: 2, output: 0 })],
            ],
            r@.dirty == seq![true, true, true, true],
    {
        let mut c = Circuit::new();
        let a = c.add_block(BlockKind::Toggle(true));
        let b = c.add_block(BlockKind::Toggle(true));
        let and = c.add_block(BlockKind::And);
        let led = c.add_block(BlockKind::Led);
        c.connect(and, 0, a, 0);
        c.connect(and, 1, b, 0);
        c.connect(led, 0, and, 0);
        assert(c@.kinds =~= seq![BlockKind::Toggle(true), BlockKind::Toggle(true), BlockKind::And, BlockKind::Led]);
        assert(c@.inputs[0] =~= Seq::<Input>::empty());
        assert(c@.inputs[1] =~= Seq::<Input>::empty());
        assert(c@.inputs[2] =~= seq![Input::Connected(OutputId { block: 0, output: 0 }), Input::Connected(OutputId { block: 1, output: 0 })]);
        assert(c@.inputs[3] =~= seq![Input::Connected(OutputId { block: 2, output: 0 })]);
        assert(c@.inputs =~= seq![
            Seq::<Input>::empty(),
            Seq::<Input>::empty(),
            seq![Input::Connected(OutputId { block: 0, output: 0 }), Input::Connected(OutputId { block: 1, output: 0 })],
            seq![Input::Connected(OutputId { block: 2, output: 0 })],
        ]);
        assert(c@.dirty =~= seq![true, true, true, true]);
        c
    }
}

} // verus!

//! The block catalog: every kind of block, its port counts and its transfer function.
use vstd::prelude::*;

verus! {

/// A kind of block. A toggle carries the constant that it drives onto its output.
#[derive(Clone, Copy, PartialEq, Eq, Structural, Debug)]
pub enum BlockKind {
    And,
    Or,
    Xor,
    Not,
    Toggle(bool),
    Led,
}

/// Number of input ports of a block of this kind.
pub open spec fn input_count(kind: BlockKind) -> nat {
    match kind {
        BlockKind::And | BlockKind::Or | BlockKind::Xor => 2,
        BlockKind::Not | BlockKind::Led => 1,
        BlockKind::Toggle(_) => 0,
    }
}

/// Number of output ports of a block of this kind.
pub open spec fn output_count(kind: BlockKind) -> nat {
    match kind {
        BlockKind::Led => 0,
        _ => 1,
    }
}

/// The transfer function of a block kind, over input sequences of the right length.
pub open spec fn transfer(kind: BlockKind, ins: Seq<bool>) -> Seq<bool> {
    match kind {
        BlockKind::And => seq![ins[0] && ins[1]],
        BlockKind::Or => seq![ins[0] || ins[1]],
        BlockKind::Xor => seq![ins[0] != ins[1]],
        BlockKind::Not => seq![!ins[0]],
        BlockKind::Toggle(v) => seq![v],
        BlockKind::Led => seq![],
    }
}

impl BlockKind {
    /// Number of input ports.
    pub fn inputs(&self) -> (r: usize)
        ensures
            r == input_count(*self),
    {
        match self {
            BlockKind::And | BlockKind::Or | BlockKind::Xor => 2,
            BlockKind::Not | BlockKind::Led => 1,
            BlockKind::Toggle(_) => 0,
        }
    }

    /// Number of output ports.
    pub fn outputs(&self) -> (r: usize)
        ensures
            r == output_count(*self),
    {
        match self {
            BlockKind::Led => 0,
            _ => 1,
        }
    }

    /// Applies the transfer function to one value per input port.
    pub fn compute(&self, ins: &Vec<bool>) -> (r: Vec<bool>)
        requires
            ins@.len() == input_count(*self),
        ensures
            r@ == transfer(*self, ins@),
            r@.len() == output_count(*self),
    {
        let r = match self {
            BlockKind::And => vec![ins[0] && ins[1]],
            BlockKind::Or => vec![ins[0] || ins[1]],
            BlockKind::Xor => vec![ins[0] != ins[1]],
            BlockKind::Not => vec![!ins[0]],
            BlockKind::Toggle(v) => vec![*v],
            BlockKind::Led => vec![],
        };
        assert(r@ =~= transfer(*self, ins@));
        r
    }
}

/// The transfer function is a function of the kind and the input values alone:
/// two evaluations on the same inputs agree.
pub proof fn compute_is_pure(kind: BlockKind, a: Seq<bool>, b: Seq<bool>)
    requires
        a == b,
    ensures
        transfer(kind, a) == transfer(kind, b),
        transfer(kind, a).len() == output_count(kind),
{
}

} // verus!

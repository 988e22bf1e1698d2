//! What the display shows for a block: which mesh, and which colour for its state.
use vstd::prelude::*;
use crate::catalog::{BlockKind, input_count};

verus! {

/// The colours that blocks are drawn in.
#[derive(Clone, Copy, PartialEq, Eq, Structural, Debug)]
pub enum Color {
    Red,
    Yellow,
    Green,
    Cyan,
    Blue,
    Magenta,
    Gray,
}

/// The shape that a block is drawn with.
#[derive(Clone, Copy, PartialEq, Eq, Structural, Debug)]
pub enum MeshKind {
    And,
    Or,
    Xor,
    Not,
    Toggle,
    Led,
}

/// Red for a signal that is on, gray for one that is off.
pub open spec fn signal_color(on: bool) -> Color {
    if on { Color::Red } else { Color::Gray }
}

/// The colour of a block of kind `kind` whose inputs read `ins`: a toggle shows its constant,
/// an LED its input, a gate the colour of its kind.
pub open spec fn color_of(kind: BlockKind, ins: Seq<bool>) -> Color {
    match kind {
        BlockKind::And => Color::Cyan,
        BlockKind::Or => Color::Yellow,
        BlockKind::Xor => Color::Green,
        BlockKind::Not => Color::Magenta,
        BlockKind::Toggle(v) => signal_color(v),
        BlockKind::Led => signal_color(ins[0]),
    }
}

pub open spec fn mesh_of(kind: BlockKind) -> MeshKind {
    match kind {
        BlockKind::And => MeshKind::And,
        BlockKind::Or => MeshKind::Or,
        BlockKind::Xor => MeshKind::Xor,
        BlockKind::Not => MeshKind::Not,
        BlockKind::Toggle(_) => MeshKind::Toggle,
        BlockKind::Led => MeshKind::Led,
    }
}

impl BlockKind {
    /// The shape a block of this kind is drawn with.
    pub fn mesh(&self) -> (r: MeshKind)
        ensures
            r == mesh_of(*self),
    {
        match self {
            BlockKind::And => MeshKind::And,
            BlockKind::Or => MeshKind::Or,
            BlockKind::Xor => MeshKind::Xor,
            BlockKind::Not => MeshKind::Not,
            BlockKind::Toggle(_) => MeshKind::Toggle,
            BlockKind::Led => MeshKind::Led,
        }
    }

    /// The colour a block of this kind is drawn in, given the values at its inputs.
    pub fn material(&self, ins: &Vec<bool>) -> (r: Color)
        requires
            ins@.len() == input_count(*self),
        ensures
            r == color_of(*self, ins@),
    {
        match self {
            BlockKind::And => Color::Cyan,
            BlockKind::Or => Color::Yellow,
            BlockKind::Xor => Color::Green,
            BlockKind::Not => Color::Magenta,
            BlockKind::Toggle(v) => if *v { Color::Red } else { Color::Gray },
            BlockKind::Led => if ins[0] { Color::Red } else { Color::Gray },
        }
    }
}

} // verus!

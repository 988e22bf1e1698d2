//! Propagation engine of a digital-logic sandbox. Blocks (gates, toggles, LEDs) live in an
//! arena and are addressed by index; their inputs are wired to other blocks' outputs, a
//! reverse index lists the consumers of every output, and a settling pass per tick carries
//! signal changes through the wiring, cycles included, in a bounded number of iterations.
pub mod catalog;
pub mod model;
pub mod circuit;
pub mod laws;
pub mod display;
pub mod tick;
pub mod starter;

use bsim::catalog::BlockKind;
use bsim::circuit::Circuit;
use bsim::model::{Input, InputId, OutputId};

const TOGGLE_A: usize = 0;
const TOGGLE_B: usize = 1;
const AND: usize = 2;
const LED: usize = 3;

fn settled_starter() -> Circuit {
    let mut c = Circuit::starter();
    c.tick();
    c
}

#[test]
fn and_of_two_true_toggles_lights_the_led() {
    let mut c = Circuit::starter();
    let iterations = c.tick();
    assert_eq!(iterations, 3);
    assert_eq!(c.output_state(AND), &vec![true]);
    assert_eq!(c.input_state(AND), &vec![true, true]);
    assert_eq!(c.input_state(LED), &vec![true]);
    assert!(!c.has_dirty());
}

#[test]
fn flipping_a_toggle_turns_the_led_off() {
    let mut c = settled_starter();
    c.set_toggle(TOGGLE_A, false);
    c.tick();
    assert_eq!(c.output_state(TOGGLE_A), &vec![false]);
    assert_eq!(c.output_state(AND), &vec![false]);
    assert_eq!(c.input_state(LED), &vec![false]);
    assert_eq!(c.output_state(TOGGLE_B), &vec![true]);
}

#[test]
fn disconnected_input_reads_false() {
    let mut c = settled_starter();
    c.disconnect(AND, 0);
    c.tick();
    assert!(!c.consumers(TOGGLE_A, 0).contains(&InputId::new(AND, 0)));
    assert_eq!(c.inputs(AND)[0], Input::Unconnected);
    assert_eq!(c.input_state(AND), &vec![false, true]);
    assert_eq!(c.output_state(AND), &vec![false]);
    c.set_toggle(TOGGLE_A, true);
    c.tick();
    assert_eq!(c.input_state(AND), &vec![false, true]);
    assert_eq!(c.output_state(AND), &vec![false]);
    assert_eq!(c.input_state(LED), &vec![false]);
}

#[test]
fn not_gate_feeding_itself_settles_by_force() {
    let mut c = Circuit::new();
    let not = c.add_block(BlockKind::Not);
    c.connect(not, 0, not, 0);
    let iterations = c.tick();
    assert_eq!(iterations, 2);
    assert_eq!(c.input_state(not), &vec![false]);
    assert_eq!(c.output_state(not), &vec![true]);
    // its own output changed, so it waits for the next pass
    assert!(c.is_dirty(not));
    let again = c.tick();
    assert_eq!(again, 2);
    assert_eq!(c.output_state(not), &vec![true]);
}

#[test]
fn ring_of_three_not_gates_stays_within_bound() {
    let mut c = Circuit::new();
    let a = c.add_block(BlockKind::Not);
    let b = c.add_block(BlockKind::Not);
    let d = c.add_block(BlockKind::Not);
    c.connect(b, 0, a, 0);
    c.connect(d, 0, b, 0);
    c.connect(a, 0, d, 0);
    for _ in 0..5 {
        let iterations = c.tick();
        assert!(iterations <= c.len() + 1);
    }
}

#[test]
fn two_equal_circuits_settle_alike() {
    let mut x = Circuit::starter();
    let mut y = Circuit::starter();
    x.set_toggle(TOGGLE_B, false);
    y.set_toggle(TOGGLE_B, false);
    let ix = x.tick();
    let iy = y.tick();
    assert_eq!(ix, iy);
    for b in 0..x.len() {
        assert_eq!(x.output_state(b), y.output_state(b));
        assert_eq!(x.input_state(b), y.input_state(b));
        assert_eq!(x.is_dirty(b), y.is_dirty(b));
    }
}

#[test]
fn pass_without_dirty_blocks_changes_nothing() {
    let mut c = settled_starter();
    assert!(!c.has_dirty());
    let before: Vec<Vec<bool>> = (0..c.len()).map(|b| c.output_state(b).clone()).collect();
    let iterations = c.tick();
    assert_eq!(iterations, 0);
    let after: Vec<Vec<bool>> = (0..c.len()).map(|b| c.output_state(b).clone()).collect();
    assert_eq!(before, after);
}

#[test]
fn index_lists_exactly_the_wired_inputs() {
    let mut c = Circuit::new();
    let t = c.add_block(BlockKind::Toggle(true));
    let u = c.add_block(BlockKind::Toggle(false));
    let g = c.add_block(BlockKind::Or);
    let h = c.add_block(BlockKind::Xor);
    c.connect(g, 0, t, 0);
    c.connect(g, 1, t, 0);
    c.connect(h, 0, t, 0);
    c.connect(h, 1, u, 0);
    c.rebuild_index();
    let mut on_t = c.consumers(t, 0).clone();
    on_t.sort_by_key(|x| (x.block, x.input));
    assert_eq!(on_t, vec![InputId::new(g, 0), InputId::new(g, 1), InputId::new(h, 0)]);
    assert_eq!(c.consumers(u, 0), &vec![InputId::new(h, 1)]);
    // rewire: last writer wins
    c.connect(g, 1, u, 0);
    c.disconnect(h, 0);
    c.rebuild_index();
    assert_eq!(c.consumers(t, 0), &vec![InputId::new(g, 0)]);
    let mut on_u = c.consumers(u, 0).clone();
    on_u.sort_by_key(|x| (x.block, x.input));
    assert_eq!(on_u, vec![InputId::new(g, 1), InputId::new(h, 1)]);
    assert!(c.consumers(g, 0).is_empty());
    assert_eq!(c.inputs(g)[1], Input::from_output(u, 0));
}

#[test]
fn connect_marks_target_dirty_and_keeps_index_until_rebuild() {
    let mut c = settled_starter();
    c.connect(LED, 0, TOGGLE_B, 0);
    assert!(c.is_dirty(LED));
    assert!(c.consumers(TOGGLE_B, 0).len() == 1);
    c.rebuild_index();
    assert_eq!(c.consumers(AND, 0).len(), 0);
    assert_eq!(c.consumers(TOGGLE_B, 0).len(), 2);
    c.tick();
    assert_eq!(c.input_state(LED), &vec![true]);
}

#[test]
fn new_block_starts_dirty_and_unwired() {
    let mut c = Circuit::new();
    let h = c.add_block(BlockKind::And);
    assert_eq!(h, 0);
    assert_eq!(c.len(), 1);
    assert!(c.is_dirty(h));
    assert_eq!(c.inputs(h), &vec![Input::Unconnected, Input::Unconnected]);
    assert_eq!(c.input_state(h), &vec![false, false]);
    assert_eq!(c.output_state(h), &vec![false]);
    assert_eq!(c.kind(h), BlockKind::And);
    c.mark_dirty(h);
    assert_eq!(c.tick(), 1);
    assert_eq!(c.output_state(h), &vec![false]);
    assert!(!c.is_dirty(h));
}

#[test]
fn output_and_input_ids_hold_their_fields() {
    let o = OutputId::new(4, 1);
    assert_eq!(o.block, 4);
    assert_eq!(o.output, 1);
    assert_eq!(Input::from_output(4, 1), Input::Connected(o));
    let i = InputId::new(2, 0);
    assert_eq!((i.block, i.input), (2, 0));
}

#[test]
fn removing_a_block_cuts_its_wires_both_ways() {
    let mut c = settled_starter();
    c.remove_block(AND);
    assert!(c.is_removed(AND));
    assert!(!c.is_removed(LED));
    assert_eq!(c.inputs(AND), &vec![Input::Unconnected, Input::Unconnected]);
    assert_eq!(c.inputs(LED), &vec![Input::Unconnected]);
    assert!(c.is_dirty(LED));
    c.tick();
    assert!(c.consumers(TOGGLE_A, 0).is_empty());
    assert!(c.consumers(TOGGLE_B, 0).is_empty());
    assert!(c.consumers(AND, 0).is_empty());
    assert_eq!(c.input_state(LED), &vec![false]);
    // handles of the other blocks stay valid, and new blocks get fresh ones
    let g = c.add_block(BlockKind::Or);
    assert_eq!(g, 4);
    c.connect(g, 0, TOGGLE_A, 0);
    c.connect(LED, 0, g, 0);
    c.tick();
    assert_eq!(c.output_state(g), &vec![true]);
    assert_eq!(c.input_state(LED), &vec![true]);
}

#[test]
fn removing_a_block_wired_to_itself() {
    let mut c = Circuit::new();
    let not = c.add_block(BlockKind::Not);
    let led = c.add_block(BlockKind::Led);
    c.connect(not, 0, not, 0);
    c.connect(led, 0, not, 0);
    c.tick();
    c.remove_block(not);
    c.rebuild_index();
    assert!(c.consumers(not, 0).is_empty());
    assert_eq!(c.inputs(led), &vec![Input::Unconnected]);
}

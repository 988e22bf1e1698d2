use bsim::catalog::BlockKind;
use bsim::display::{Color, MeshKind};
use bsim::tick::{TickDriver, DEFAULT_PERIOD_MS};

#[test]
fn transfer_functions_over_all_inputs() {
    for a in [false, true] {
        for b in [false, true] {
            assert_eq!(BlockKind::And.compute(&vec![a, b]), vec![a && b]);
            assert_eq!(BlockKind::Or.compute(&vec![a, b]), vec![a || b]);
            assert_eq!(BlockKind::Xor.compute(&vec![a, b]), vec![a != b]);
        }
        assert_eq!(BlockKind::Not.compute(&vec![a]), vec![!a]);
        assert_eq!(BlockKind::Led.compute(&vec![a]), Vec::<bool>::new());
        assert_eq!(BlockKind::Toggle(a).compute(&vec![]), vec![a]);
    }
    assert_eq!(BlockKind::And.compute(&vec![true, false]), vec![false]);
}

#[test]
fn compute_twice_gives_the_same() {
    let ins = vec![true, false];
    assert_eq!(BlockKind::Xor.compute(&ins), BlockKind::Xor.compute(&ins));
}

#[test]
fn port_counts() {
    assert_eq!((BlockKind::And.inputs(), BlockKind::And.outputs()), (2, 1));
    assert_eq!((BlockKind::Toggle(true).inputs(), BlockKind::Toggle(true).outputs()), (0, 1));
    assert_eq!((BlockKind::Led.inputs(), BlockKind::Led.outputs()), (1, 0));
    assert_eq!((BlockKind::Not.inputs(), BlockKind::Not.outputs()), (1, 1));
}

#[test]
fn colours_and_meshes() {
    assert_eq!(BlockKind::And.material(&vec![true, true]), Color::Cyan);
    assert_eq!(BlockKind::Toggle(true).material(&vec![]), Color::Red);
    assert_eq!(BlockKind::Toggle(false).material(&vec![]), Color::Gray);
    assert_eq!(BlockKind::Led.material(&vec![true]), Color::Red);
    assert_eq!(BlockKind::Led.material(&vec![false]), Color::Gray);
    assert_eq!(BlockKind::Led.mesh(), MeshKind::Led);
    assert_eq!(BlockKind::Toggle(false).mesh(), MeshKind::Toggle);
    assert_eq!(BlockKind::Xor.mesh(), MeshKind::Xor);
}

#[test]
fn tick_driver_counts_only_while_running() {
    let mut t = TickDriver::new();
    assert!(t.paused());
    assert_eq!(t.period_ms(), DEFAULT_PERIOD_MS);
    assert_eq!(t.advance(10_000), 0);
    t.resume();
    assert!(!t.set_period_ms(500));
    assert_eq!(t.advance(5_000), 2);
    assert_eq!(t.advance(1_000), 1);
    assert_eq!(t.advance(1_999), 0);
    assert_eq!(t.advance(1), 1);
    t.pause();
    assert!(!t.set_period_ms(0));
    assert!(t.set_period_ms(1));
    t.resume();
    assert_eq!(t.advance(u64::MAX), u64::MAX);
}

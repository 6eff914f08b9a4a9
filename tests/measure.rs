use qautomata::complex::one;
use qautomata::universe::Universe;

#[test]
fn test_measure() {
    let mut u = Universe::new();
    u.measure();
    assert_eq!(u.state.len(), 1);
    assert_eq!(u.state[0].amplitude, one());
}

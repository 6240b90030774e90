use soa_lab::hetero::iters_for;

#[test]
fn motion_iterations_clamp() {
    assert_eq!(iters_for(1), 200_000);
    assert_eq!(iters_for(100_000), 20_000);
    assert_eq!(iters_for(1_000_000_000), 20);
    assert_eq!(iters_for(100_000_000), 20);
}

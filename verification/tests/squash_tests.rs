use lib::squash::{build_stretch_table, squash, stretch};

#[test]
fn squash_exact_values() {
    assert_eq!(squash(0), 2047);
    assert_eq!(squash(100), 2439);
    assert_eq!(squash(-1), 2043);
    assert_eq!(squash(1), 2051);
    assert_eq!(squash(-2047), 1);
    assert_eq!(squash(2047), 4094);
}

#[test]
fn squash_saturates_outside_domain() {
    assert_eq!(squash(-2048), 0);
    assert_eq!(squash(2048), 4095);
    assert_eq!(squash(i32::MIN), 0);
    assert_eq!(squash(i32::MAX), 4095);
}

#[test]
fn squash_is_nondecreasing() {
    let mut prev = squash(-2100);
    for d in -2099..2100 {
        let v = squash(d);
        assert!(v >= prev);
        assert!((0..4096).contains(&v));
        prev = v;
    }
}

#[test]
fn stretch_exact_values() {
    let table = build_stretch_table();
    assert_eq!(stretch(&table, 0), -2047);
    assert_eq!(stretch(&table, 1), -2047);
    assert_eq!(stretch(&table, 2047), 0);
    assert_eq!(stretch(&table, 2048), 1);
    assert_eq!(stretch(&table, 4094), 1984);
    assert_eq!(stretch(&table, 4095), 2047);
}

#[test]
fn stretch_is_least_inverse_of_squash() {
    let table = build_stretch_table();
    for p in 0..4095 {
        let x = stretch(&table, p);
        assert!((-2047..=2047).contains(&x));
        assert!(squash(x) >= p);
        assert!(x == -2047 || squash(x - 1) < p);
    }
}

#[test]
fn stretch_squash_galois_connection() {
    let table = build_stretch_table();
    for p in (0..4095).step_by(7) {
        for x in (-2047..=2047).step_by(5) {
            assert_eq!(stretch(&table, p) <= x, p <= squash(x));
        }
    }
}

#[test]
fn squash_is_nearly_symmetric() {
    assert_eq!(squash(0) + squash(0), 4094);
    assert_eq!(squash(64) + squash(-64), 4095);
    assert_eq!(squash(3000) + squash(-3000), 4095);
    for d in -2100..=2100 {
        let s = squash(d) + squash(-d);
        assert!((4094..=4096).contains(&s));
    }
}

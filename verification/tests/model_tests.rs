use lib::apm::Apm;
use lib::predictor::Predictor;
use lib::squash::build_stretch_table;
use lib::state_map::StateMap;
use lib::state_table::next_state;

#[test]
fn next_state_follows_table() {
    assert_eq!(next_state(0, 0), 1);
    assert_eq!(next_state(0, 1), 2);
    assert_eq!(next_state(41, 1), 43);
    assert_eq!(next_state(252, 0), 140);
    assert_eq!(next_state(255, 1), 0);
}

#[test]
fn state_map_exact_update() {
    let mut sm = StateMap::new(4);
    assert_eq!(sm.p(1, 2), 2048);
    assert_eq!(sm.p(0, 0), 2867);
}

#[test]
fn state_map_moves_toward_bit_and_stays_in_range() {
    let mut sm = StateMap::new(2);
    let mut prev = sm.p(1, 0);
    for _ in 0..1000 {
        let p = sm.p(1, 0);
        assert!(p >= prev);
        assert!(p < 4096);
        prev = p;
    }
    assert!(prev > 4000);
    for _ in 0..1000 {
        let p = sm.p(0, 0);
        assert!(p <= prev);
        prev = p;
    }
    assert!(prev < 100);
}

#[test]
fn apm_exact_refinement() {
    let table = build_stretch_table();
    let mut apm = Apm::new(1);
    assert_eq!(apm.p(&table, 0, 7, 2048, 0), 2050);
}

#[test]
fn apm_output_is_twelve_bits() {
    let table = build_stretch_table();
    let mut apm = Apm::new(3);
    let mut pr = 100;
    for i in 0..3000 {
        let bit = ((i * 7) % 3 == 0) as i32;
        pr = apm.p(&table, bit, 5, pr, (i % 3) as usize);
        assert!((0..4096).contains(&pr));
    }
}

#[test]
fn predictor_starts_at_one_half() {
    let p = Predictor::new();
    assert_eq!(p.p(), 2048);
}

#[test]
fn predictor_is_deterministic_and_twelve_bits() {
    let mut a = Predictor::new();
    let mut b = Predictor::new();
    for i in 0..2000u32 {
        let bit = ((i.wrapping_mul(2654435761) >> 7) & 1) as i32;
        a.update(bit);
        b.update(bit);
        assert_eq!(a.p(), b.p());
        assert!((0..4096).contains(&a.p()));
    }
}

#[test]
fn predictor_learns_a_constant_stream() {
    let mut p = Predictor::new();
    for _ in 0..4000 {
        p.update(1);
    }
    assert!(p.p() > 3000);
}

#[test]
fn apm_training_moves_toward_the_bit() {
    let table = build_stretch_table();
    let mut apm = Apm::new(1);
    let mut prev = apm.p(&table, 1, 7, 2048, 0);
    for _ in 0..500 {
        let p = apm.p(&table, 1, 7, 2048, 0);
        assert!(p >= prev);
        prev = p;
    }
    assert!(prev > 3000);
    for _ in 0..500 {
        let p = apm.p(&table, 0, 7, 2048, 0);
        assert!(p <= prev);
        prev = p;
    }
    assert!(prev < 1000);
}

#[test]
fn next_state_keeps_states_in_range() {
    for s in 0..=252u8 {
        for bit in 0..2 {
            let n = next_state(s, bit);
            assert!((1..=252).contains(&n));
        }
    }
}

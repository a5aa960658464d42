//! Pseudo-random generator tests.

use shiftcrack::rng::Rng;

#[test]
fn unique_output_from_different_seeds() {
    let mut a = Rng::with_seed(0x918273498, 0x878787584);
    let mut b = Rng::with_seed(9555, 0x1337_c0de);

    for _ in 0..0x80000 {
        assert_ne!(a.next(), b.next());
    }
}

#[test]
fn pick_from_slice() {
    let choices = [0, 1, 2, 3, 4, 5];
    let mut rng = Rng::default();

    // should be able to pick all options within 100 tries
    let mut chosen = vec![false; choices.len()];
    for _ in 0..100 {
        let x = *rng.pick(&choices) as usize;
        chosen[x] = true;
    }
    assert!(chosen.iter().all(|&x| x));

    for _ in 0..10000 {
        let x = *rng.pick(&choices) as usize;
        assert!(x <= 5);
    }
}

#[test]
fn seeded_runs_are_deterministic() {
    let mut a = Rng::with_seed(42, 77);
    let mut b = Rng::with_seed(42, 77);
    for _ in 0..1000 {
        assert_eq!(a.next(), b.next());
    }
}

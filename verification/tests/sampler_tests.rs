use hay::sample::{sample_weighted, Rand};

fn table(counts: &[usize]) -> Vec<usize> {
    counts.to_vec()
}

#[test]
fn zero_table_yields_no_candidates() {
    let freq = table(&[0, 0, 0]);
    let mut rand = Rand::ambient();
    assert_eq!(sample_weighted(&freq, &mut rand), None);
    let empty = table(&[]);
    assert_eq!(sample_weighted(&empty, &mut rand), None);
}

#[test]
fn single_candidate_is_always_chosen() {
    let freq = table(&[0, 5, 0]);
    let mut rand = Rand::ambient();
    for _ in 0..20 {
        assert_eq!(sample_weighted(&freq, &mut rand), Some(1));
    }
}

#[test]
fn walk_maps_each_draw_to_its_slot() {
    // Counts {slot 0: 3, slot 1: 1}: draws 1..=3 land on slot 0, draw 4 on
    // slot 1. A fixed value v yields the draw 1 + v % 4.
    let freq = table(&[3, 1]);
    for v in 0..3usize {
        let mut rand = Rand::fixed(vec![v]);
        assert_eq!(sample_weighted(&freq, &mut rand), Some(0));
    }
    let mut rand = Rand::fixed(vec![3]);
    assert_eq!(sample_weighted(&freq, &mut rand), Some(1));
}

#[test]
fn sampling_ratio_follows_the_counts() {
    // Counts 3:1 over many ambient trials: the empirical share of slot 0
    // converges to 3/4. The tolerance is far wider than the expected noise.
    let freq = table(&[3, 1]);
    let mut rand = Rand::ambient();
    let trials = 40000;
    let mut first: usize = 0;
    for _ in 0..trials {
        match sample_weighted(&freq, &mut rand) {
            Some(0) => first += 1,
            Some(1) => {}
            other => panic!("unexpected sample {:?}", other),
        }
    }
    assert!(first > 28500, "slot 0 chosen only {} times", first);
    assert!(first < 31500, "slot 0 chosen {} times", first);
}

#[test]
fn fixed_rand_replays_its_values() {
    let mut rand = Rand::fixed(vec![5, 1]);
    assert_eq!(rand.next_below(10), 5);
    assert_eq!(rand.next_below(10), 1);
    assert_eq!(rand.next_below(10), 5);
    assert_eq!(rand.next_below(4), 1);
}

#[test]
fn ambient_draw_stays_below_the_bound() {
    let mut rand = Rand::ambient();
    assert_eq!(rand.next_below(1), 0);
    for _ in 0..100 {
        assert!(rand.next_below(7) < 7);
    }
}

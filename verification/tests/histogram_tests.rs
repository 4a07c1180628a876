use ising::demon_histogram::PerBondDemonHistogram;

#[test]
fn new_histogram_is_empty() {
    let h = PerBondDemonHistogram::new(3, 4);
    assert!(h.is_empty());
    assert_eq!(h.n_bonds(), 3);
    assert_eq!(h.max_levels(), 4);
}

#[test]
fn record_counts_levels_of_four_units() {
    let mut h = PerBondDemonHistogram::new(2, 3);
    for _ in 0..10 {
        h.record(0, 0);
    }
    // 5 / 4 rounds down to level 1.
    h.record(0, 5);
    assert!(!h.is_empty());
    assert_eq!(h.level_pairs(1), vec![(10, 1)]);
    // -3 / 4 rounds towards zero, to level 0.
    h.record(0, -3);
    assert_eq!(h.level_pairs(1), vec![(11, 1)]);
    // -4 / 4 is level -1, which is out of range: ignored.
    h.record(0, -4);
    assert_eq!(h.level_pairs(1), vec![(11, 1)]);
    // Level 3 is beyond the last level, bond 2 beyond the last bond: ignored.
    h.record(0, 12);
    h.record(2, 0);
    h.record(7, 4);
    assert_eq!(h.level_pairs(1), vec![(11, 1)]);
    assert_eq!(h.level_pairs(2), vec![]);
}

#[test]
fn level_pairs_need_ten_and_one() {
    let mut h = PerBondDemonHistogram::new(3, 2);
    // Bond 0: nine at level 0, one at level 1: not enough at level 0.
    for _ in 0..9 {
        h.record(0, 0);
    }
    h.record(0, 4);
    // Bond 1: ten at level 0, none at level 1.
    for _ in 0..10 {
        h.record(1, 1);
    }
    // Bond 2: twelve at level 0, three at level 1.
    for _ in 0..12 {
        h.record(2, 3);
    }
    for _ in 0..3 {
        h.record(2, 7);
    }
    assert_eq!(h.level_pairs(1), vec![(12, 3)]);
}

#[test]
fn reset_then_is_empty() {
    let mut h = PerBondDemonHistogram::new(2, 2);
    h.record(1, 4);
    assert!(!h.is_empty());
    h.reset();
    assert!(h.is_empty());
    assert_eq!(h.n_bonds(), 2);
    assert_eq!(h.max_levels(), 2);
}

#[test]
fn record_all_skips_the_last_column() {
    // l = 2: horizontal bonds 0 and 2 (sites 1 and 3 are the last column),
    // vertical bonds 4 ..= 7.
    let mut h = PerBondDemonHistogram::new(8, 3);
    let h_zero = [0, 0, 0, 0];
    let v_four = [4, 4, 4, 4];
    for _ in 0..10 {
        h.record_all(&h_zero, &v_four, 2);
    }
    h.record_all(&[4, 4, 4, 4], &[8, 8, 8, 8], 2);
    assert_eq!(h.level_pairs(1), vec![(10, 1), (10, 1)]);
    assert_eq!(h.level_pairs(2), vec![(10, 1); 4]);
}

#[test]
fn record_all_accepts_short_horizontal_demons() {
    // The last site's horizontal demon is never read.
    let mut h = PerBondDemonHistogram::new(8, 1);
    h.record_all(&[0, 0, 0], &[0, 0, 0, 0], 2);
    assert!(!h.is_empty());
}

#[test]
fn record_creutz_counts_four_units_per_demon_unit() {
    let mut h = PerBondDemonHistogram::new(3, 4);
    for _ in 0..10 {
        h.record_creutz(&[0, 1, 2]);
    }
    h.record_creutz(&[1, 2, 3]);
    assert_eq!(h.level_pairs(1), vec![(10, 1)]);
    assert_eq!(h.level_pairs(2), vec![(10, 1)]);
    assert_eq!(h.level_pairs(3), vec![(10, 1)]);
}

#[test]
fn record_creutz_ignores_extra_demons() {
    let mut h = PerBondDemonHistogram::new(1, 2);
    h.record_creutz(&[0, 0, 0]);
    for _ in 0..9 {
        h.record_creutz(&[0]);
    }
    h.record_creutz(&[1, 1]);
    assert_eq!(h.level_pairs(1), vec![(10, 1)]);
}

#[test]
fn record_all_on_an_empty_lattice_records_nothing() {
    let mut h = PerBondDemonHistogram::new(4, 2);
    h.record_all(&[], &[], 0);
    assert!(h.is_empty());
}

#[test]
fn recording_order_does_not_matter() {
    let mut a = PerBondDemonHistogram::new(2, 2);
    let mut b = PerBondDemonHistogram::new(2, 2);
    for _ in 0..10 {
        a.record(0, 0);
        b.record(0, 0);
    }
    a.record(0, 4);
    a.record(1, 4);
    b.record(1, 4);
    b.record(0, 4);
    assert_eq!(a.level_pairs(1), b.level_pairs(1));
    assert_eq!(a.level_pairs(1), vec![(10, 1)]);
}

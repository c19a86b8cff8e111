use docgraph::ranking::{rank_descending, top_above};

fn key(score: f64) -> u64 {
    let bits = score.to_bits() as i64;
    let ordered = bits ^ ((((bits >> 63) as u64) >> 1) as i64);
    (ordered as u64) ^ (1 << 63)
}

#[test]
fn highest_key_first() {
    assert_eq!(rank_descending(&vec![3, 9, 1, 7]), vec![1, 3, 0, 2]);
    assert_eq!(rank_descending(&vec![]), Vec::<usize>::new());
    assert_eq!(rank_descending(&vec![5]), vec![0]);
    assert_eq!(rank_descending(&vec![u64::MAX, 0, u64::MAX]), vec![0, 2, 1]);
}

#[test]
fn equal_keys_keep_their_order() {
    assert_eq!(rank_descending(&vec![2, 2, 2]), vec![0, 1, 2]);
    assert_eq!(rank_descending(&vec![1, 4, 1, 4, 1]), vec![1, 3, 0, 2, 4]);
}

#[test]
fn ranking_agrees_with_a_stable_sort_of_scores() {
    let scores = [0.5, 3.25, -1.0, 3.25, 0.0, -0.0, 100.0, 0.81, 0.8, 0.79];
    let keys: Vec<u64> = scores.iter().map(|s| key(*s)).collect();
    let mut expected: Vec<usize> = (0..scores.len()).collect();
    expected.sort_by(|a, b| scores[*b].total_cmp(&scores[*a]));
    assert_eq!(rank_descending(&keys), expected);
}

#[test]
fn the_best_above_the_threshold() {
    let scores = [0.95, 0.4, 0.81, 0.8, 0.99, 0.85, 0.9, 0.97, 0.82];
    let keys: Vec<u64> = scores.iter().map(|s| key(*s)).collect();
    let order = rank_descending(&keys);
    // five are taken, then those at or below the threshold are left out
    assert_eq!(top_above(&keys, &order, 5, key(0.8)), vec![4, 7, 0, 6, 5]);
    assert_eq!(top_above(&keys, &order, 5, key(0.96)), vec![4, 7]);
    assert_eq!(top_above(&keys, &order, 2, key(0.0)), vec![4, 7]);
    assert_eq!(top_above(&keys, &order, 100, key(0.8)), vec![4, 7, 0, 6, 5, 8, 2]);
    assert_eq!(top_above(&keys, &order, 0, key(0.0)), Vec::<usize>::new());
    assert_eq!(top_above(&keys, &order, 5, key(1.0)), Vec::<usize>::new());
}

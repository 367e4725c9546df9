use lol_engine::combinations::combinations;

#[test]
fn pairs_of_four() {
    let r = combinations(&vec![10, 20, 30, 40], 2);
    assert_eq!(r, vec![vec![10, 20], vec![10, 30], vec![10, 40], vec![20, 30], vec![20, 40], vec![30, 40]]);
}

#[test]
fn triples_of_five_in_order() {
    let r = combinations(&vec![1, 2, 3, 4, 5], 3);
    assert_eq!(r.len(), 10);
    assert_eq!(r[0], vec![1, 2, 3]);
    assert_eq!(r[1], vec![1, 2, 4]);
    assert_eq!(r[3], vec![1, 3, 4]);
    assert_eq!(r[9], vec![3, 4, 5]);
    let mut sorted = r.clone();
    sorted.sort();
    assert_eq!(sorted, r);
}

#[test]
fn zero_picks_one_empty_combination() {
    assert_eq!(combinations(&vec![7, 8], 0), vec![Vec::<u32>::new()]);
    assert_eq!(combinations(&vec![], 0), vec![Vec::<u32>::new()]);
}

#[test]
fn too_many_picks_none() {
    assert_eq!(combinations(&vec![7, 8], 3), Vec::<Vec<u32>>::new());
    assert_eq!(combinations(&vec![], 1), Vec::<Vec<u32>>::new());
}

#[test]
fn all_picks_one_combination() {
    assert_eq!(combinations(&vec![3, 1, 2], 3), vec![vec![3, 1, 2]]);
}

#[test]
fn repeated_items_are_distinct_positions() {
    assert_eq!(combinations(&vec![5, 5, 6], 2), vec![vec![5, 5], vec![5, 6], vec![5, 6]]);
}

fn binom(n: usize, k: usize) -> usize {
    if k > n { return 0; }
    let mut r = 1usize;
    for i in 0..k { r = r * (n - i) / (i + 1); }
    r
}

#[test]
fn counts_are_binomial() {
    let items: Vec<u32> = (0..9).collect();
    for k in 0..=10 {
        assert_eq!(combinations(&items, k).len(), binom(9, k));
    }
}

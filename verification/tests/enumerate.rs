use lol_engine::enumerate::{place_less, split_build, Ctx};
use lol_engine::pool::{resolve_caps, PoolEntry, PoolError, DEFAULT_CAP};

fn entry(id: u32, price: i64, groups: Vec<u32>) -> PoolEntry {
    PoolEntry { id, price, groups }
}

/// Boots 1 and 2 (group 0), items 10 and 11 (group 1), 12 (none) and 13
/// (group 2, the only one of its group). Every group's cap is one.
fn pool(budget: Option<i64>) -> Ctx {
    let entries = vec![
        entry(1, 1000, vec![0]),
        entry(2, 900, vec![0]),
        entry(10, 3000, vec![1]),
        entry(11, 3100, vec![1]),
        entry(12, 2800, vec![]),
        entry(13, 2500, vec![2]),
    ];
    Ctx::new(
        entries,
        vec![1, 1, 1],
        budget,
        vec![12],
        vec![10, 11, 13],
        vec![1, 2],
        vec![vec![1]],
        vec![vec![1, 2]],
        vec![13],
        vec![(10, 3), (11, 1), (1, 0)],
    )
    .unwrap()
}

#[test]
fn only_violable_groups_are_numbered() {
    let ctx = pool(None);
    assert_eq!(ctx.caps, vec![1, 1]);
    assert_eq!(ctx.items[&1].groups, vec![0]);
    assert_eq!(ctx.items[&2].groups, vec![0]);
    assert_eq!(ctx.items[&10].groups, vec![1]);
    assert_eq!(ctx.items[&11].groups, vec![1]);
    assert!(ctx.items[&12].groups.is_empty());
    assert!(ctx.items[&13].groups.is_empty());
    assert_eq!(ctx.items[&11].price, 3100);
    assert!(ctx.grouped_boots.contains(&1) && ctx.grouped_boots.contains(&2));
    assert!(ctx.energized.contains(&13));
    assert_eq!(ctx.order[&10], 3);
}

#[test]
fn dense_numbers_follow_first_appearance() {
    let entries = vec![entry(5, 1, vec![7, 3]), entry(6, 1, vec![3, 7]), entry(7, 1, vec![7])];
    let ctx = Ctx::new(entries, vec![0, 0, 0, 5, 0, 0, 0, 1], None, vec![], vec![], vec![], vec![], vec![], vec![], vec![])
        .unwrap();
    // group 3 is held twice with a cap of five: never violable; group 7 is
    // held three times with a cap of one: violable
    assert_eq!(ctx.caps, vec![1]);
    assert_eq!(ctx.items[&5].groups, vec![0]);
    assert_eq!(ctx.items[&6].groups, vec![0]);
    assert_eq!(ctx.items[&7].groups, vec![0]);
}

#[test]
fn dense_numbers_violable_only() {
    let entries = vec![entry(5, 1, vec![7, 3]), entry(6, 1, vec![3, 7]), entry(7, 1, vec![7])];
    let ctx = Ctx::new(entries, vec![0, 0, 0, 1, 0, 0, 0, 1], None, vec![], vec![], vec![], vec![], vec![], vec![], vec![])
        .unwrap();
    assert_eq!(ctx.caps, vec![1, 1]);
    assert_eq!(ctx.items[&5].groups, vec![0, 1]);
    assert_eq!(ctx.items[&6].groups, vec![1, 0]);
    assert_eq!(ctx.items[&7].groups, vec![0]);
}

#[test]
fn later_entry_overrides() {
    let entries = vec![entry(5, 1, vec![]), entry(5, 2, vec![])];
    let ctx = Ctx::new(entries, vec![], None, vec![], vec![], vec![], vec![], vec![], vec![], vec![]).unwrap();
    assert_eq!(ctx.items[&5].price, 2);
}

#[test]
fn too_many_groups() {
    let mut entries = Vec::new();
    for g in 0..65u32 {
        entries.push(entry(2 * g, 1, vec![g]));
        entries.push(entry(2 * g + 1, 1, vec![g]));
    }
    let r = Ctx::new(entries, vec![1; 65], None, vec![], vec![], vec![], vec![], vec![], vec![], vec![]);
    assert!(matches!(r, Err(PoolError::TooManyGroups)));
    let mut entries = Vec::new();
    for g in 0..64u32 {
        entries.push(entry(2 * g, 1, vec![g]));
        entries.push(entry(2 * g + 1, 1, vec![g]));
    }
    let r = Ctx::new(entries, vec![1; 64], None, vec![], vec![], vec![], vec![], vec![], vec![], vec![]);
    assert_eq!(r.unwrap().caps.len(), 64);
}

#[test]
fn legal_builds() {
    let ctx = pool(None);
    assert!(ctx.legal(&vec![1, 10, 12]));
    assert!(!ctx.legal(&vec![1, 10, 11]));
    assert!(!ctx.legal(&vec![1, 2]));
    assert!(ctx.legal(&vec![12, 13]));
    assert!(ctx.legal(&vec![]));
}

#[test]
fn negative_cap_only_bites_when_held() {
    let entries = vec![entry(1, 1, vec![0]), entry(2, 1, vec![])];
    let ctx = Ctx::new(entries, vec![-1], None, vec![], vec![], vec![], vec![], vec![], vec![], vec![]).unwrap();
    assert!(!ctx.legal(&vec![1]));
    assert!(ctx.legal(&vec![2]));
}

#[test]
fn places() {
    let ctx = pool(None);
    assert_eq!(ctx.place(&vec![1, 10, 12]), (vec![3, 12], 0));
    assert_eq!(ctx.place(&vec![2, 11]), (vec![1], 2));
    assert_eq!(ctx.place(&vec![]), (vec![], -1));
}

#[test]
fn place_order() {
    assert!(place_less(&(vec![1, 2], 5), &(vec![1, 3], 0)));
    assert!(place_less(&(vec![1, 2], 5), &(vec![1, 2], 6)));
    assert!(place_less(&(vec![1], 9), &(vec![1, 0], 0)));
    assert!(!place_less(&(vec![1, 2], 5), &(vec![1, 2], 5)));
    assert!(!place_less(&(vec![2], 0), &(vec![1, 9], 9)));
    assert!(place_less(&(vec![], 3), &(vec![0], -1)));
}

#[test]
fn least_place() {
    let ctx = pool(None);
    let builds = vec![vec![1, 10, 12], vec![2, 11, 12]];
    assert_eq!(ctx.min_place(&builds), (vec![1, 12], 2));
    assert_eq!(ctx.placed_within(&builds, &(vec![2, 0], 0)), vec![vec![2, 11, 12]]);
    assert_eq!(ctx.placed_within(&builds, &(vec![3, 12], 0)), builds);
    assert_eq!(ctx.placed_within(&builds, &(vec![], 0)), Vec::<Vec<u32>>::new());
}

#[test]
fn block_of_whole_tail() {
    let ctx = pool(None);
    assert_eq!(ctx.block_rests(2, &vec![]), vec![vec![12, 10, 11], vec![12, 10, 13], vec![12, 11, 13]]);
}

#[test]
fn block_after_prefix() {
    let ctx = pool(None);
    assert_eq!(ctx.block_rests(2, &vec![0]), vec![vec![12, 10, 11], vec![12, 10, 13]]);
    assert_eq!(ctx.block_rests(3, &vec![1]), Vec::<Vec<u32>>::new());
    assert_eq!(ctx.block_rests(1, &vec![2]), vec![vec![12, 13]]);
}

#[test]
fn busy_partition() {
    let ctx = pool(None);
    assert!(ctx.is_busy(&vec![10, 13]));
    assert!(!ctx.is_busy(&vec![10, 11]));
    assert_eq!(ctx.classes_for(&vec![13], &None), &vec![vec![1]]);
    assert_eq!(ctx.classes_for(&vec![12], &None), &vec![vec![1, 2]]);
    let named = Some(vec![vec![2]]);
    assert_eq!(ctx.classes_for(&vec![13], &named), &vec![vec![2]]);
}

#[test]
fn class_builds_filter_legality_and_budget() {
    let ctx = pool(None);
    assert_eq!(ctx.class_builds(&vec![10, 12], &vec![1, 2]), vec![vec![1, 10, 12], vec![2, 10, 12]]);
    assert_eq!(ctx.class_builds(&vec![10, 11], &vec![1, 2]), Vec::<Vec<u32>>::new());
    let tight = pool(Some(6750));
    assert_eq!(tight.class_builds(&vec![10, 12], &vec![1, 2]), vec![vec![2, 10, 12]]);
    let exact = pool(Some(6800));
    assert_eq!(exact.class_builds(&vec![10, 12], &vec![1, 2]), vec![vec![1, 10, 12], vec![2, 10, 12]]);
}

#[test]
fn named_build_task() {
    let (rest, classes) = split_build(&vec![2, 10, 12]);
    assert_eq!(rest, vec![10, 12]);
    assert_eq!(classes, vec![vec![2]]);
}

#[test]
fn non_violable_group_never_matters() {
    // group 0 (cap 1) is held twice by the pool, group 1 (cap 5) twice too
    let groups = vec![vec![0u32, 1], vec![0], vec![1]];
    let caps = vec![1i64, 5];
    let entries = vec![entry(1, 1, groups[0].clone()), entry(2, 1, groups[1].clone()), entry(3, 1, groups[2].clone())];
    let ctx = Ctx::new(entries, caps.clone(), None, vec![], vec![], vec![], vec![], vec![], vec![], vec![]).unwrap();
    assert_eq!(ctx.caps, vec![1]);
    for mask in 0u32..8 {
        let picked: Vec<usize> = (0..3).filter(|i| mask & (1 << i) != 0).collect();
        let ids: Vec<u32> = picked.iter().map(|&i| i as u32 + 1).collect();
        let mut counts = vec![0i64; 2];
        for &i in &picked {
            for &g in &groups[i] {
                counts[g as usize] += 1;
            }
        }
        let within_all = counts.iter().zip(&caps).all(|(&c, &cap)| c == 0 || c <= cap);
        assert_eq!(ctx.legal(&ids), within_all, "build {:?}", ids);
    }
    assert!(!ctx.legal(&vec![1, 2]));
    assert!(ctx.legal(&vec![1, 3]));
}

#[test]
fn unnamed_groups_get_the_default_cap() {
    assert_eq!(resolve_caps(&vec![Some(1), None, Some(-2)]), vec![1, DEFAULT_CAP, -2]);
    assert_eq!(DEFAULT_CAP, 99);
    assert!(resolve_caps(&vec![]).is_empty());
}

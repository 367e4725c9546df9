use lol_engine::fx::{Fx, ItemFx, N_LISTS, N_SINGLETONS};
use lol_engine::prep::{
    fight_flags, passive_flags, settle, takes_simple_deal, PrepError, DEAL_FLAGS, F_ENERGIZED,
    F_EXECUTE, F_HYPERSHOT, F_KRAKEN, F_MANA_PROC, F_SPELLBLADE, MAX_BURNS,
};

/// An item carrying `lists[k]` of each list kind and the passives `singles`.
fn item(lists: Vec<(usize, Vec<u32>)>, singles: Vec<(usize, u32)>) -> ItemFx {
    let mut l = vec![Vec::new(); N_LISTS];
    for (k, v) in lists {
        l[k] = v;
    }
    let mut s = vec![None; N_SINGLETONS];
    for (k, v) in singles {
        s[k] = Some(v);
    }
    ItemFx { lists: l, singles: s }
}

fn merged(items: Vec<ItemFx>) -> Fx {
    Fx::merge(&items)
}

#[test]
fn no_passive_no_flag() {
    let fx = merged(vec![item(vec![(0, vec![1])], vec![])]);
    assert_eq!(passive_flags(&fx), 0);
}

#[test]
fn each_passive_sets_its_own_bit() {
    // hypershot (22), spellblade (0), kraken (3), ability mana proc (12)
    let fx = merged(vec![item(vec![], vec![(22, 1), (0, 2)]), item(vec![], vec![(3, 3), (12, 4)])]);
    assert_eq!(passive_flags(&fx), F_HYPERSHOT | F_SPELLBLADE | F_KRAKEN | F_MANA_PROC);
}

#[test]
fn energized_list_sets_its_bit() {
    let fx = merged(vec![item(vec![(6, vec![7])], vec![])]);
    assert_eq!(passive_flags(&fx), F_ENERGIZED);
}

#[test]
fn giant_slayer_and_attack_amp_have_no_bit() {
    let fx = merged(vec![item(vec![], vec![(10, 1), (26, 2)])]);
    assert_eq!(passive_flags(&fx), 0);
}

#[test]
fn every_passive_sets_one_distinct_bit() {
    let mut seen = 0u32;
    for s in 0..N_SINGLETONS {
        let fx = merged(vec![item(vec![], vec![(s, 1)])]);
        let f = passive_flags(&fx);
        if s == 10 || s == 26 {
            assert_eq!(f, 0);
        } else {
            assert_eq!(f.count_ones(), 1, "passive {s}");
            assert_eq!(seen & f, 0, "passive {s}");
            seen |= f;
        }
    }
    seen |= F_ENERGIZED;
    assert_eq!(seen, (1u32 << 26) - 1);
}

#[test]
fn settle_counts_burns_and_amps() {
    let fx = merged(vec![
        item(vec![(4, vec![1]), (2, vec![5])], vec![(9, 1)]),
        item(vec![(4, vec![2])], vec![]),
    ]);
    let s = settle(&fx).unwrap();
    assert_eq!(s.n_burns, 2);
    assert!(s.has_dmg_amps);
    assert!(!s.amp_is_one);
    assert_eq!(s.flags, F_EXECUTE);
}

#[test]
fn settle_amp_is_one_without_any_amp() {
    let fx = merged(vec![item(vec![(0, vec![1])], vec![])]);
    let s = settle(&fx).unwrap();
    assert!(s.amp_is_one);
    assert!(!s.has_dmg_amps);
    let flat = merged(vec![item(vec![(3, vec![1])], vec![])]);
    assert!(!settle(&flat).unwrap().amp_is_one);
    let slayer = merged(vec![item(vec![], vec![(10, 1)])]);
    assert!(!settle(&slayer).unwrap().amp_is_one);
}

#[test]
fn eight_burns_are_fine_nine_are_refused() {
    let eight: Vec<ItemFx> = (0..8).map(|i| item(vec![(4, vec![i])], vec![])).collect();
    assert_eq!(settle(&merged(eight)).unwrap().n_burns, MAX_BURNS);
    let nine: Vec<ItemFx> = (0..9).map(|i| item(vec![(4, vec![i])], vec![])).collect();
    assert_eq!(settle(&merged(nine)).err(), Some(PrepError::TooManyBurns(9)));
}

#[test]
fn counterfactual_leg_clears_only_the_execute() {
    let f = F_EXECUTE | F_HYPERSHOT | F_KRAKEN;
    assert_eq!(fight_flags(f, false), f);
    assert_eq!(fight_flags(f, true), F_HYPERSHOT | F_KRAKEN);
    assert_eq!(fight_flags(F_KRAKEN, true), F_KRAKEN);
}

#[test]
fn simple_deal_needs_no_amp_and_no_deal_bit() {
    assert!(takes_simple_deal(true, 0));
    assert!(takes_simple_deal(true, F_KRAKEN | F_ENERGIZED));
    assert!(!takes_simple_deal(false, 0));
    assert!(!takes_simple_deal(true, F_HYPERSHOT));
    assert!(!takes_simple_deal(true, F_EXECUTE));
    assert_eq!(DEAL_FLAGS, 0xF97);
    assert!(takes_simple_deal(true, fight_flags(F_EXECUTE, true)));
}

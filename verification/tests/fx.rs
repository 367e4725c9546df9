use lol_engine::fx::{Fx, ItemFx, Sources, KIT_SOURCES, N_LISTS, N_SINGLETONS, SRC_AUTO, SRC_STORMSURGE};

#[test]
fn kit_labels_take_the_first_ids() {
    let t = Sources::new();
    assert_eq!(t.source_count(), 18);
    for (i, name) in KIT_SOURCES.iter().enumerate() {
        assert_eq!(t.source_name(i as u16), *name);
    }
    assert_eq!(t.source_name(SRC_AUTO), "auto");
    assert_eq!(t.source_name(SRC_STORMSURGE), "stormsurge");
}

#[test]
fn intern_known_label() {
    let mut t = Sources::new();
    assert_eq!(t.intern("auto"), SRC_AUTO);
    assert_eq!(t.intern("malignance"), 16);
    assert_eq!(t.source_count(), 18);
}

#[test]
fn intern_new_label_appends_once() {
    let mut t = Sources::new();
    let id = t.intern("Bork onhit");
    assert_eq!(id, 18);
    assert_eq!(t.source_count(), 19);
    assert_eq!(t.intern("Bork onhit"), 18);
    assert_eq!(t.source_count(), 19);
    assert_eq!(t.source_name(id), "Bork onhit");
    let id2 = t.intern("burn");
    assert_eq!(id2, 19);
    // earlier ids keep their labels
    assert_eq!(t.source_name(SRC_AUTO), "auto");
    assert_eq!(t.source_name(18), "Bork onhit");
}

fn item(lists: Vec<Vec<u32>>, singles: Vec<(usize, u32)>) -> ItemFx {
    let mut l = vec![Vec::new(); N_LISTS];
    for (k, v) in lists.into_iter().enumerate() {
        l[k] = v;
    }
    let mut s = vec![None; N_SINGLETONS];
    for (i, h) in singles {
        s[i] = Some(h);
    }
    ItemFx { lists: l, singles: s }
}

#[test]
fn merge_concatenates_and_first_wins() {
    let a = item(vec![vec![1, 2], vec![], vec![3]], vec![(0, 10), (5, 11)]);
    let b = item(vec![vec![4], vec![5]], vec![(0, 20), (7, 21)]);
    let c = item(vec![], vec![(5, 30), (26, 31)]);
    let m = Fx::merge(&vec![a, b, c]);
    assert_eq!(m.lists.len(), N_LISTS);
    assert_eq!(m.singles.len(), N_SINGLETONS);
    assert_eq!(m.lists[0], vec![1, 2, 4]);
    assert_eq!(m.lists[1], vec![5]);
    assert_eq!(m.lists[2], vec![3]);
    assert_eq!(m.lists[6], Vec::<u32>::new());
    assert_eq!(m.singles[0], Some(10));
    assert_eq!(m.singles[5], Some(11));
    assert_eq!(m.singles[7], Some(21));
    assert_eq!(m.singles[26], Some(31));
    assert_eq!(m.singles[1], None);
}

#[test]
fn merge_of_nothing_is_empty() {
    let m = Fx::merge(&Vec::new());
    assert!(m.lists.iter().all(|l| l.is_empty()));
    assert!(m.singles.iter().all(|s| s.is_none()));
}

#[test]
fn merge_split_agrees() {
    let items = || vec![
        item(vec![vec![1], vec![], vec![], vec![2]], vec![(3, 1)]),
        item(vec![vec![3]], vec![(3, 2), (4, 3)]),
        item(vec![vec![4], vec![5]], vec![(4, 4), (9, 5)]),
    ];
    let whole = Fx::merge(&items());
    let mut v = items();
    let right = v.split_off(1);
    let l = Fx::merge(&v);
    let r = Fx::merge(&right);
    for k in 0..N_LISTS {
        let mut cat = l.lists[k].clone();
        cat.extend(r.lists[k].iter().copied());
        assert_eq!(whole.lists[k], cat);
    }
    for s in 0..N_SINGLETONS {
        assert_eq!(whole.singles[s], l.singles[s].or(r.singles[s]));
    }
}

//! Building the enumeration context from the pool: which item groups a
//! build can violate, their dense indices and caps, and each item's groups
//! by those indices.

use std::collections::HashMap;
use std::collections::HashSet;
use vstd::prelude::*;

use crate::enumerate::{lemma_occ_append, occ, within_cap, Ctx, Item, MAX_GROUPS};

verus! {

broadcast use vstd::std_specs::hash::group_hash_axioms;

/// One item of the pool as the enumeration receives it: its id, its price
/// and the groups it belongs to, each group named by a small number.
pub struct PoolEntry {
    pub id: u32,
    pub price: i64,
    pub groups: Vec<u32>,
}

/// Why a pool cannot be enumerated.
#[derive(Clone, Copy, Debug, PartialEq, Eq, Structural)]
pub enum PoolError {
    /// More than `MAX_GROUPS` item groups of the pool can be violated.
    TooManyGroups,
}

/// The group names of `es`, entry after entry, one per membership.
pub open spec fn names_of(es: Seq<PoolEntry>) -> Seq<u32>
    decreases es.len(),
{
    if es.len() == 0 {
        Seq::empty()
    } else {
        names_of(es.drop_last()) + es.last().groups@
    }
}

/// How many times `x` occurs in `s`.
pub open spec fn count(s: Seq<u32>, x: u32) -> int
    decreases s.len(),
{
    if s.len() == 0 {
        0
    } else {
        count(s.drop_last(), x) + if s.last() == x {
            1int
        } else {
            0int
        }
    }
}

/// A group matters only when the pool holds more of it than a build may
/// own; the rest can never be violated.
pub open spec fn is_violable(es: Seq<PoolEntry>, caps: Seq<i64>, x: u32) -> bool {
    count(names_of(es), x) > caps[x as int]
}

/// The violable groups of `s`, in order.
pub open spec fn violable_only(s: Seq<u32>, es: Seq<PoolEntry>, caps: Seq<i64>) -> Seq<u32>
    decreases s.len(),
{
    if s.len() == 0 {
        Seq::empty()
    } else {
        let r = violable_only(s.drop_last(), es, caps);
        if is_violable(es, caps, s.last()) {
            r.push(s.last())
        } else {
            r
        }
    }
}

/// `s` with every repeat after the first occurrence dropped.
pub open spec fn dedup(s: Seq<u32>) -> Seq<u32>
    decreases s.len(),
{
    if s.len() == 0 {
        Seq::empty()
    } else {
        let d = dedup(s.drop_last());
        if d.contains(s.last()) {
            d
        } else {
            d.push(s.last())
        }
    }
}

/// Where `x` first occurs in `s`, or -1.
pub open spec fn index_of(s: Seq<u32>, x: u32) -> int
    decreases s.len(),
{
    if s.len() == 0 {
        -1
    } else {
        let p = index_of(s.drop_last(), x);
        if p >= 0 {
            p
        } else if s.last() == x {
            s.len() - 1
        } else {
            -1
        }
    }
}

/// The violable groups, densely numbered in the order they first show up
/// in the pool: a group's dense index is its place here.
pub open spec fn dense_groups(es: Seq<PoolEntry>, caps: Seq<i64>) -> Seq<u32> {
    dedup(violable_only(names_of(es), es, caps))
}

/// Some entry has id `id`.
pub open spec fn has_entry(es: Seq<PoolEntry>, id: u32) -> bool {
    exists|e: int| 0 <= e < es.len() && #[trigger] es[e].id == id
}

/// No later entry has entry `e`'s id.
pub open spec fn is_last(es: Seq<PoolEntry>, e: int) -> bool {
    forall|f: int| e < f < es.len() ==> #[trigger] es[f].id != es[e].id
}

/// The map the pairs make, a later pair overriding an earlier one.
pub open spec fn pairs_map(s: Seq<(u32, i64)>) -> Map<u32, i64>
    decreases s.len(),
{
    if s.len() == 0 {
        Map::empty()
    } else {
        pairs_map(s.drop_last()).insert(s.last().0, s.last().1)
    }
}

proof fn lemma_index_of(s: Seq<u32>, x: u32)
    ensures
        -1 <= index_of(s, x) < s.len(),
        s.contains(x) <==> index_of(s, x) >= 0,
        index_of(s, x) >= 0 ==> s[index_of(s, x)] == x,
    decreases s.len(),
{
    if s.len() > 0 {
        let d = s.drop_last();
        lemma_index_of(d, x);
        if d.contains(x) {
            let j = choose|j: int| 0 <= j < d.len() && d[j] == x;
            assert(s[j] == x);
        }
        if s.contains(x) && !d.contains(x) {
            let j = choose|j: int| 0 <= j < s.len() && s[j] == x;
            if j < d.len() {
                assert(d[j] == x);
            }
        }
        if s.last() == x {
            assert(s[s.len() - 1] == x);
        }
    }
}

proof fn lemma_index_of_push(s: Seq<u32>, y: u32, x: u32)
    requires
        s.contains(x),
    ensures
        index_of(s.push(y), x) == index_of(s, x),
{
    lemma_index_of(s, x);
    assert(s.push(y).drop_last() =~= s);
}

proof fn lemma_contains_push(s: Seq<u32>, y: u32, x: u32)
    ensures
        s.push(y).contains(x) <==> s.contains(x) || y == x,
{
    if s.contains(x) {
        let j = choose|j: int| 0 <= j < s.len() && s[j] == x;
        assert(s.push(y)[j] == x);
    }
    if y == x {
        assert(s.push(y)[s.len() as int] == x);
    }
    if s.push(y).contains(x) && y != x {
        let j = choose|j: int| 0 <= j < s.push(y).len() && s.push(y)[j] == x;
        assert(s[j] == x);
    }
}

proof fn lemma_dedup_contains(s: Seq<u32>, x: u32)
    ensures
        dedup(s).contains(x) <==> s.contains(x),
    decreases s.len(),
{
    if s.len() > 0 {
        let d = s.drop_last();
        let l = s.last();
        assert(d.push(l) =~= s);
        lemma_dedup_contains(d, x);
        lemma_dedup_contains(d, l);
        lemma_contains_push(d, l, x);
        lemma_contains_push(dedup(d), l, x);
    }
}

proof fn lemma_dedup_push(s: Seq<u32>, y: u32)
    ensures
        dedup(s.push(y)) == if dedup(s).contains(y) {
            dedup(s)
        } else {
            dedup(s).push(y)
        },
{
    assert(s.push(y).drop_last() =~= s);
}

proof fn lemma_count_push(s: Seq<u32>, y: u32, x: u32)
    ensures
        count(s.push(y), x) == count(s, x) + if y == x {
            1int
        } else {
            0int
        },
{
    assert(s.push(y).drop_last() =~= s);
}

proof fn lemma_count_nonneg(s: Seq<u32>, x: u32)
    ensures
        count(s, x) >= 0,
    decreases s.len(),
{
    if s.len() > 0 {
        lemma_count_nonneg(s.drop_last(), x);
    }
}

proof fn lemma_names_of_push(es: Seq<PoolEntry>, e: PoolEntry)
    ensures
        names_of(es.push(e)) == names_of(es) + e.groups@,
{
    assert(es.push(e).drop_last() =~= es);
}

/// The cap of a group the caps table does not name.
pub const DEFAULT_CAP: i64 = 99;

/// A group's cap: the one the table gives, else `DEFAULT_CAP`.
pub open spec fn cap_or_default(c: Option<i64>) -> i64 {
    match c {
        Some(v) => v,
        None => DEFAULT_CAP,
    }
}

/// Each group name's cap, `DEFAULT_CAP` where the table gives none.
pub fn resolve_caps(table: &Vec<Option<i64>>) -> (r: Vec<i64>)
    ensures
        r@ == table@.map_values(|c: Option<i64>| cap_or_default(c)),
{
    let mut r: Vec<i64> = Vec::new();
    let mut i: usize = 0;
    while i < table.len()
        invariant
            i <= table@.len(),
            r@ == table@.take(i as int).map_values(|c: Option<i64>| cap_or_default(c)),
        decreases table@.len() - i,
    {
        let c = match table[i] {
            Some(v) => v,
            None => DEFAULT_CAP,
        };
        r.push(c);
        proof {
            assert(table@.take(i as int + 1).map_values(|c: Option<i64>| cap_or_default(c))
                =~= table@.take(i as int).map_values(|c: Option<i64>| cap_or_default(c)).push(c));
        }
        i += 1;
    }
    proof {
        assert(table@.take(i as int) =~= table@);
    }
    r
}

/// Every group name of the pool has a cap.
pub open spec fn names_in_range(es: Seq<PoolEntry>, n: int) -> bool {
    forall|e: int, j: int|
        0 <= e < es.len() && 0 <= j < es[e].groups@.len() ==> #[trigger] es[e].groups@[j] < n
}

/// `count` capped at the largest `u64`.
pub open spec fn sat_count(s: Seq<u32>, x: u32) -> int {
    if count(s, x) < u64::MAX {
        count(s, x)
    } else {
        u64::MAX as int
    }
}

/// Which group names the pool can violate, by name.
fn violable_flags(es: &Vec<PoolEntry>, caps: &Vec<i64>) -> (v: Vec<bool>)
    requires
        names_in_range(es@, caps@.len() as int),
    ensures
        v@.len() == caps@.len(),
        forall|x: u32| (x as int) < caps@.len() ==> #[trigger] v@[x as int] == is_violable(es@, caps@, x),
{
    let n = caps.len();
    let mut counts: Vec<u64> = Vec::new();
    while counts.len() < n
        invariant
            counts@.len() <= n,
            forall|x: int| 0 <= x < counts@.len() ==> #[trigger] counts@[x] == 0,
        decreases n - counts@.len(),
    {
        counts.push(0);
    }
    let ghost mut flat: Seq<u32> = Seq::empty();
    let mut e: usize = 0;
    while e < es.len()
        invariant
            n == caps@.len(),
            counts@.len() == n,
            names_in_range(es@, n as int),
            e <= es@.len(),
            flat == names_of(es@.take(e as int)),
            forall|x: u32| (x as int) < n ==> #[trigger] counts@[x as int] == sat_count(flat, x),
        decreases es@.len() - e,
    {
        let gs = &es[e].groups;
        let ghost flat0 = flat;
        let mut j: usize = 0;
        while j < gs.len()
            invariant
                n == caps@.len(),
                counts@.len() == n,
                names_in_range(es@, n as int),
                e < es@.len(),
                *gs == es@[e as int].groups,
                j <= gs@.len(),
                flat == flat0 + gs@.take(j as int),
                forall|x: u32| (x as int) < n ==> #[trigger] counts@[x as int] == sat_count(flat, x),
            decreases gs@.len() - j,
        {
            let x = gs[j];
            let xi = x as usize;
            assert(xi < n);
            proof {
                assert forall|y: u32| (y as int) < n implies #[trigger] sat_count(flat.push(x), y)
                    == if y == x && counts@[y as int] < u64::MAX {
                    counts@[y as int] + 1
                } else {
                    counts@[y as int] as int
                } by {
                    lemma_count_push(flat, x, y);
                }
            }
            if counts[xi] < u64::MAX {
                counts.set(xi, counts[xi] + 1);
            }
            proof {
                assert(flat0 + gs@.take(j as int + 1) =~= (flat0 + gs@.take(j as int)).push(x));
                flat = flat.push(x);
            }
            j += 1;
        }
        proof {
            assert(gs@.take(j as int) =~= gs@);
            assert(es@.take(e as int + 1) =~= es@.take(e as int).push(es@[e as int]));
            lemma_names_of_push(es@.take(e as int), es@[e as int]);
        }
        e += 1;
    }
    proof {
        assert(es@.take(e as int) =~= es@);
    }
    let mut v: Vec<bool> = Vec::new();
    let mut x: usize = 0;
    while x < n
        invariant
            n == caps@.len(),
            counts@.len() == n,
            x <= n,
            v@.len() == x,
            flat == names_of(es@),
            forall|y: u32| (y as int) < n ==> #[trigger] counts@[y as int] == sat_count(flat, y),
            forall|y: u32| (y as int) < x ==> #[trigger] v@[y as int] == is_violable(es@, caps@, y),
        decreases n - x,
    {
        v.push((counts[x] as i128) > (caps[x] as i128));
        proof {
            if x <= u32::MAX {
                let xn = x as u32;
                assert(counts@[xn as int] == sat_count(flat, xn));
            }
        }
        x += 1;
    }
    v
}

/// What the dense numbering reads of the names seen so far.
spec fn dense_of(s: Seq<u32>, es: Seq<PoolEntry>, caps: Seq<i64>) -> Seq<u32> {
    dedup(violable_only(s, es, caps))
}

/// `s` is the dense number `x` has once `d` is the dense order so far.
spec fn slot_ok(s: Option<usize>, d: Seq<u32>, x: u32) -> bool {
    match s {
        Some(p) => d.contains(x) && p as int == index_of(d, x),
        None => !d.contains(x),
    }
}

/// `gs` numbers the violable names of `names` by their place in `d`.
pub open spec fn dense_numbering(gs: Seq<usize>, names: Seq<u32>, d: Seq<u32>, es: Seq<PoolEntry>, caps: Seq<i64>) -> bool {
    &&& gs.len() == violable_only(names, es, caps).len()
    &&& forall|q: int| 0 <= q < gs.len() ==> d.contains(#[trigger] violable_only(names, es, caps)[q])
    &&& forall|q: int| 0 <= q < gs.len() ==> #[trigger] gs[q] as int == index_of(d, violable_only(names, es, caps)[q])
}

proof fn lemma_violable_push(s: Seq<u32>, y: u32, es: Seq<PoolEntry>, caps: Seq<i64>)
    ensures
        violable_only(s.push(y), es, caps) == if is_violable(es, caps, y) {
            violable_only(s, es, caps).push(y)
        } else {
            violable_only(s, es, caps)
        },
{
    assert(s.push(y).drop_last() =~= s);
}

proof fn lemma_numbered_grow(gs: Seq<usize>, names: Seq<u32>, d: Seq<u32>, y: u32, es: Seq<PoolEntry>, caps: Seq<i64>)
    requires
        dense_numbering(gs, names, d, es, caps),
    ensures
        dense_numbering(gs, names, d.push(y), es, caps),
{
    let v = violable_only(names, es, caps);
    assert forall|q: int| 0 <= q < gs.len() implies d.push(y).contains(#[trigger] v[q]) by {
        lemma_contains_push(d, y, v[q]);
    }
    assert forall|q: int| 0 <= q < gs.len() implies #[trigger] gs[q] as int == index_of(d.push(y), v[q]) by {
        assert(d.contains(v[q]));
        lemma_index_of_push(d, y, v[q]);
    }
}

/// The caps of the violable groups in their dense order, and each entry's
/// violable groups by dense number.
fn dense_assign(es: &Vec<PoolEntry>, caps: &Vec<i64>, viol: &Vec<bool>) -> (r: (Vec<i64>, Vec<Vec<usize>>))
    requires
        names_in_range(es@, caps@.len() as int),
        viol@.len() == caps@.len(),
        forall|x: u32| (x as int) < caps@.len() ==> #[trigger] viol@[x as int] == is_violable(es@, caps@, x),
    ensures
        r.0@ == dense_groups(es@, caps@).map_values(|x: u32| caps@[x as int]),
        r.1@.len() == es@.len(),
        forall|e: int| 0 <= e < es@.len() ==> dense_numbering(#[trigger] r.1@[e]@, es@[e].groups@, dense_groups(es@, caps@), es@, caps@),
{
    let n = caps.len();
    let ghost esv = es@;
    let ghost cv = caps@;
    let mut slots: Vec<Option<usize>> = Vec::new();
    while slots.len() < n
        invariant
            slots@.len() <= n,
            forall|x: int| 0 <= x < slots@.len() ==> #[trigger] slots@[x] == None::<usize>,
        decreases n - slots@.len(),
    {
        slots.push(None);
    }
    let mut cap_list: Vec<i64> = Vec::new();
    let mut all: Vec<Vec<usize>> = Vec::new();
    let ghost mut flat: Seq<u32> = Seq::empty();
    let ghost mut d: Seq<u32> = Seq::empty();
    proof {
        assert(dense_of(flat, esv, cv) =~= Seq::<u32>::empty());
    }
    let mut e: usize = 0;
    while e < es.len()
        invariant
            esv == es@,
            cv == caps@,
            n == caps@.len(),
            slots@.len() == n,
            names_in_range(esv, n as int),
            viol@.len() == n,
            forall|x: u32| (x as int) < n ==> #[trigger] viol@[x as int] == is_violable(esv, cv, x),
            e <= esv.len(),
            flat == names_of(esv.take(e as int)),
            d == dense_of(flat, esv, cv),
            cap_list@ == d.map_values(|x: u32| cv[x as int]),
            forall|x: u32| (x as int) < n ==> slot_ok(#[trigger] slots@[x as int], d, x),
            all@.len() == e,
            forall|f: int| 0 <= f < e ==> dense_numbering(#[trigger] all@[f]@, esv[f].groups@, d, esv, cv),
        decreases esv.len() - e,
    {
        let names = &es[e].groups;
        let ghost flat0 = flat;
        let mut gs: Vec<usize> = Vec::new();
        proof {
            assert(names@.take(0) =~= Seq::<u32>::empty());
        }
        let mut j: usize = 0;
        while j < names.len()
            invariant
                esv == es@,
                cv == caps@,
                n == caps@.len(),
                slots@.len() == n,
                names_in_range(esv, n as int),
                viol@.len() == n,
                forall|x: u32| (x as int) < n ==> #[trigger] viol@[x as int] == is_violable(esv, cv, x),
                e < esv.len(),
                *names == esv[e as int].groups,
                j <= names@.len(),
                flat0 == names_of(esv.take(e as int)),
                flat == flat0 + names@.take(j as int),
                d == dense_of(flat, esv, cv),
                cap_list@ == d.map_values(|x: u32| cv[x as int]),
                forall|x: u32| (x as int) < n ==> slot_ok(#[trigger] slots@[x as int], d, x),
                all@.len() == e,
                forall|f: int| 0 <= f < e ==> dense_numbering(#[trigger] all@[f]@, esv[f].groups@, d, esv, cv),
                dense_numbering(gs@, names@.take(j as int), d, esv, cv),
            decreases names@.len() - j,
        {
            let x = names[j];
            let xi = x as usize;
            assert(x < n);
            let ghost gs0 = gs@;
            let ghost d0 = d;
            let ghost v0 = violable_only(names@.take(j as int), esv, cv);
            proof {
                assert(names@.take(j as int + 1) =~= names@.take(j as int).push(x));
                assert(flat0 + names@.take(j as int + 1) =~= flat.push(x));
                lemma_violable_push(names@.take(j as int), x, esv, cv);
                lemma_violable_push(flat, x, esv, cv);
            }
            if viol[xi] {
                proof {
                    lemma_dedup_push(violable_only(flat, esv, cv), x);
                }
                match slots[xi] {
                    Some(p) => {
                        proof {
                            lemma_index_of(d, x);
                            assert(slot_ok(slots@[xi as int], d, x));
                        }
                        gs.push(p);
                    },
                    None => {
                        let p = cap_list.len();
                        cap_list.push(caps[xi]);
                        slots.set(xi, Some(p));
                        gs.push(p);
                        proof {
                            lemma_index_of(d, x);
                            assert(d.push(x).drop_last() =~= d);
                            assert(index_of(d.push(x), x) == d.len());
                            lemma_numbered_grow(gs0, names@.take(j as int), d, x, esv, cv);
                            assert forall|f2: int| 0 <= f2 < e implies dense_numbering(
                                #[trigger] all@[f2]@,
                                esv[f2].groups@,
                                d.push(x),
                                esv,
                                cv,
                            ) by {
                                lemma_numbered_grow(all@[f2]@, esv[f2].groups@, d, x, esv, cv);
                            }
                            assert forall|y: u32| (y as int) < n implies slot_ok(#[trigger] slots@[y as int], d.push(x), y) by {
                                lemma_contains_push(d, x, y);
                                if d.contains(y) {
                                    lemma_index_of_push(d, x, y);
                                }
                            }
                            assert(cap_list@ =~= d.push(x).map_values(|x: u32| cv[x as int]));
                            d = d.push(x);
                        }
                    },
                }
                proof {
                    lemma_contains_push(d0, x, x);
                    lemma_index_of(d, x);
                    let v1 = violable_only(names@.take(j as int + 1), esv, cv);
                    assert(v1 == v0.push(x));
                    if d0.contains(x) {
                        assert(d == d0);
                    } else {
                        assert(d == d0.push(x));
                        lemma_numbered_grow(gs0, names@.take(j as int), d0, x, esv, cv);
                    }
                    assert(dense_numbering(gs0, names@.take(j as int), d, esv, cv));
                    assert forall|q: int| 0 <= q < gs@.len() implies d.contains(#[trigger] v1[q]) by {
                        if q < gs0.len() {
                            assert(v1[q] == v0[q]);
                        }
                    }
                    assert forall|q: int| 0 <= q < gs@.len() implies #[trigger] gs@[q] as int
                        == index_of(d, v1[q]) by {
                        if q < gs0.len() {
                            assert(v1[q] == v0[q]);
                            assert(gs@[q] == gs0[q]);
                        }
                    }
                }
            }
            proof {
                flat = flat.push(x);
            }
            j += 1;
        }
        proof {
            assert(names@.take(j as int) =~= names@);
            assert(esv.take(e as int + 1) =~= esv.take(e as int).push(esv[e as int]));
            lemma_names_of_push(esv.take(e as int), esv[e as int]);
        }
        let ghost all0 = all@;
        all.push(gs);
        proof {
            assert forall|f2: int| 0 <= f2 < e + 1 implies dense_numbering(#[trigger] all@[f2]@, esv[f2].groups@, d, esv, cv) by {
                if f2 < e {
                    assert(all@[f2] == all0[f2]);
                }
            }
        }
        e += 1;
    }
    proof {
        assert(esv.take(e as int) =~= esv);
    }
    (cap_list, all)
}

impl Ctx {
    /// The enumeration context of a pool. `entries` are the pool's items in
    /// the pool's order, their groups named by number; `name_caps` is each
    /// group name's cap. A group is violable when the pool holds more of it
    /// than its cap; the violable groups are numbered densely in the order
    /// they first show up, and an item keeps only its violable groups, by
    /// number. Fails when more than `MAX_GROUPS` groups are violable.
    pub fn new(
        entries: Vec<PoolEntry>,
        name_caps: Vec<i64>,
        budget: Option<i64>,
        required: Vec<u32>,
        free: Vec<u32>,
        boots: Vec<u32>,
        partitions_busy: Vec<Vec<u32>>,
        partitions_calm: Vec<Vec<u32>>,
        energized: Vec<u32>,
        order: Vec<(u32, i64)>,
    ) -> (r: Result<Ctx, PoolError>)
        requires
            names_in_range(entries@, name_caps@.len() as int),
            forall|j: int| 0 <= j < boots@.len() ==> has_entry(entries@, #[trigger] boots@[j]),
        ensures
            match r {
                Err(err) => err == PoolError::TooManyGroups && dense_groups(entries@, name_caps@).len()
                    > MAX_GROUPS,
                Ok(ctx) => {
                    let d = dense_groups(entries@, name_caps@);
                    &&& d.len() <= MAX_GROUPS
                    &&& ctx.wf()
                    &&& ctx.caps@ == d.map_values(|x: u32| name_caps@[x as int])
                    &&& forall|id: u32| #[trigger] ctx.items@.contains_key(id) <==> has_entry(entries@, id)
                    &&& forall|e: int| 0 <= e < entries@.len() && is_last(entries@, e) ==> {
                        let it = #[trigger] ctx.items@[entries@[e].id];
                        &&& it.price == entries@[e].price
                        &&& dense_numbering(it.groups@, entries@[e].groups@, d, entries@, name_caps@)
                    }
                    &&& ctx.budget == budget
                    &&& ctx.required == required
                    &&& ctx.free == free
                    &&& ctx.boots == boots
                    &&& ctx.partitions_busy == partitions_busy
                    &&& ctx.partitions_calm == partitions_calm
                    &&& forall|b: u32| #[trigger] ctx.grouped_boots@.contains(b) <==> boots@.contains(b)
                        && ctx.items@[b].groups@.len() > 0
                    &&& ctx.energized@ == energized@.to_set()
                    &&& ctx.order@ == pairs_map(order@)
                    &&& ctx.holds_pool(entries@, name_caps@)
                },
            },
    {
        let viol = violable_flags(&entries, &name_caps);
        let (cap_list, all) = dense_assign(&entries, &name_caps, &viol);
        let ghost d = dense_groups(entries@, name_caps@);
        if cap_list.len() > MAX_GROUPS {
            return Err(PoolError::TooManyGroups);
        }
        let mut items: HashMap<u32, Item> = HashMap::new();
        let mut e: usize = 0;
        while e < entries.len()
            invariant
                e <= entries@.len(),
                all@.len() == entries@.len(),
                d == dense_groups(entries@, name_caps@),
                cap_list@.len() == d.len(),
                forall|f: int| 0 <= f < entries@.len() ==> dense_numbering(
                    #[trigger] all@[f]@,
                    entries@[f].groups@,
                    d,
                    entries@,
                    name_caps@,
                ),
                forall|id: u32| #[trigger] items@.contains_key(id) <==> exists|f: int|
                    0 <= f < e && entries@[f].id == id,
                forall|f: int| 0 <= f < e && is_last(entries@.take(e as int), f) ==> {
                    let it = #[trigger] items@[entries@[f].id];
                    &&& it.price == entries@[f].price
                    &&& it.groups@ == all@[f]@
                },
            decreases entries@.len() - e,
        {
            let gs = all[e].clone();
            let id = entries[e].id;
            items.insert(id, Item { price: entries[e].price, groups: gs });
            proof {
                assert forall|f: int| 0 <= f < e + 1 && is_last(entries@.take(e as int + 1), f) implies {
                    let it = #[trigger] items@[entries@[f].id];
                    &&& it.price == entries@[f].price
                    &&& it.groups@ == all@[f]@
                } by {
                    if f < e {
                        assert(entries@.take(e as int + 1)[e as int] == entries@[e as int]);
                        assert(entries@[f].id != id);
                        assert(is_last(entries@.take(e as int), f)) by {
                            assert forall|g: int| f < g < e implies #[trigger] entries@.take(
                                e as int,
                            )[g].id != entries@.take(e as int)[f].id by {
                                assert(entries@.take(e as int + 1)[g].id != entries@.take(e as int + 1)[f].id);
                            }
                        }
                    }
                }
                assert forall|id2: u32| #[trigger] items@.contains_key(id2) <==> exists|f: int|
                    0 <= f < e + 1 && entries@[f].id == id2 by {
                    if items@.contains_key(id2) && id2 != id {
                        let f = choose|f: int| 0 <= f < e && entries@[f].id == id2;
                        assert(0 <= f < e + 1 && entries@[f].id == id2);
                    }
                    if id2 == id {
                        assert(entries@[e as int].id == id2);
                    }
                }
            }
            e += 1;
        }
        proof {
            assert(entries@.take(e as int) =~= entries@);
        }
        let ghost itemsv = items@;
        let mut grouped_boots: HashSet<u32> = HashSet::new();
        let mut i: usize = 0;
        while i < boots.len()
            invariant
                i <= boots@.len(),
                items@ == itemsv,
                forall|j: int| 0 <= j < boots@.len() ==> #[trigger] items@.contains_key(boots@[j]),
                forall|b: u32| #[trigger] grouped_boots@.contains(b) <==> (exists|j: int|
                    0 <= j < i && boots@[j] == b) && items@[b].groups@.len() > 0,
            decreases boots@.len() - i,
        {
            let b = boots[i];
            let it = items.get(&b).unwrap();
            if it.groups.len() > 0 {
                grouped_boots.insert(b);
            }
            proof {
                assert forall|x: u32| #[trigger] grouped_boots@.contains(x) <==> (exists|j: int|
                    0 <= j < i + 1 && boots@[j] == x) && items@[x].groups@.len() > 0 by {
                    if x == b {
                        assert(boots@[i as int] == x);
                    } else if exists|j: int| 0 <= j < i + 1 && boots@[j] == x {
                        let j = choose|j: int| 0 <= j < i + 1 && boots@[j] == x;
                        assert(j < i);
                    }
                }
            }
            i += 1;
        }
        let mut en: HashSet<u32> = HashSet::new();
        let mut k: usize = 0;
        while k < energized.len()
            invariant
                k <= energized@.len(),
                forall|x: u32| #[trigger] en@.contains(x) <==> exists|j: int|
                    0 <= j < k && energized@[j] == x,
            decreases energized@.len() - k,
        {
            en.insert(energized[k]);
            proof {
                assert forall|x: u32| #[trigger] en@.contains(x) <==> exists|j: int|
                    0 <= j < k + 1 && energized@[j] == x by {
                    if x == energized@[k as int] {
                        assert(energized@[k as int] == x);
                    } else if exists|j: int| 0 <= j < k + 1 && energized@[j] == x {
                        let j = choose|j: int| 0 <= j < k + 1 && energized@[j] == x;
                        assert(j < k);
                    }
                }
            }
            k += 1;
        }
        assert(en@ =~= energized@.to_set());
        let mut ord: HashMap<u32, i64> = HashMap::new();
        let mut t: usize = 0;
        while t < order.len()
            invariant
                t <= order@.len(),
                ord@ == pairs_map(order@.take(t as int)),
            decreases order@.len() - t,
        {
            let (key, val) = order[t];
            ord.insert(key, val);
            proof {
                assert(order@.take(t as int + 1).drop_last() =~= order@.take(t as int));
            }
            t += 1;
        }
        proof {
            assert(order@.take(t as int) =~= order@);
        }
        let ctx = Ctx {
            items,
            caps: cap_list,
            budget,
            required,
            free,
            boots,
            grouped_boots,
            partitions_busy,
            partitions_calm,
            energized: en,
            order: ord,
        };
        proof {
            assert forall|f: int| 0 <= f < entries@.len() && is_last(entries@, f) implies {
                let it = #[trigger] ctx.items@[entries@[f].id];
                &&& it.price == entries@[f].price
                &&& dense_numbering(it.groups@, entries@[f].groups@, d, entries@, name_caps@)
            } by {
                assert(dense_numbering(all@[f]@, entries@[f].groups@, d, entries@, name_caps@));
            }
            assert forall|id: u32| #[trigger] ctx.items@.contains_key(id) implies forall|j: int|
                0 <= j < ctx.items@[id].groups@.len() ==> #[trigger] ctx.items@[id].groups@[j]
                    < ctx.caps@.len() by {
                let f0 = choose|f: int| 0 <= f < entries@.len() && entries@[f].id == id;
                let f = last_with_id(entries@, f0);
                assert(dense_numbering(all@[f]@, entries@[f].groups@, d, entries@, name_caps@));
                assert forall|j: int| 0 <= j < ctx.items@[id].groups@.len() implies #[trigger] ctx.items@[id].groups@[j]
                    < ctx.caps@.len() by {
                    let x = violable_only(entries@[f].groups@, entries@, name_caps@)[j];
                    assert(d.contains(x));
                    lemma_index_of(d, x);
                    assert(all@[f]@[j] as int == index_of(d, x));
                }
            }
        }
        Ok(ctx)
    }
}

/// The last entry with entry `f`'s id.
proof fn last_with_id(es: Seq<PoolEntry>, f: int) -> (l: int)
    requires
        0 <= f < es.len(),
    ensures
        f <= l < es.len(),
        es[l].id == es[f].id,
        is_last(es, l),
    decreases es.len() - f,
{
    if is_last(es, f) {
        f
    } else {
        let g = choose|g: int| f < g < es.len() && #[trigger] es[g].id == es[f].id;
        last_with_id(es, g)
    }
}

impl Ctx {
    /// The context holds the pool `es` whose group names have the caps
    /// `caps`: the violable groups in their dense order with their caps, the
    /// pool's ids, and each item's price and violable groups by dense number.
    pub open spec fn holds_pool(&self, es: Seq<PoolEntry>, caps: Seq<i64>) -> bool {
        let d = dense_groups(es, caps);
        &&& d.len() <= MAX_GROUPS
        &&& self.wf()
        &&& self.caps@ == d.map_values(|x: u32| caps[x as int])
        &&& forall|id: u32| #[trigger] self.items@.contains_key(id) <==> has_entry(es, id)
        &&& forall|e: int| 0 <= e < es.len() && is_last(es, e) ==> {
            let it = #[trigger] self.items@[es[e].id];
            &&& it.price == es[e].price
            &&& dense_numbering(it.groups@, es[e].groups@, d, es, caps)
        }
    }
}

/// No two entries of the pool share an id.
pub open spec fn ids_distinct(es: Seq<PoolEntry>) -> bool {
    forall|e: int, f: int| #![trigger es[e].id, es[f].id] 0 <= e < f < es.len() ==> es[e].id != es[f].id
}

/// `sel` picks distinct entries of `es`, by position.
pub open spec fn is_selection(es: Seq<PoolEntry>, sel: Seq<int>) -> bool {
    &&& forall|j: int| 0 <= j < sel.len() ==> 0 <= #[trigger] sel[j] < es.len()
    &&& forall|i: int, j: int| #![trigger sel[i], sel[j]] 0 <= i < j < sel.len() ==> sel[i] != sel[j]
}

/// The ids of the entries `sel` picks, in order.
pub open spec fn picked_ids(es: Seq<PoolEntry>, sel: Seq<int>) -> Seq<u32> {
    sel.map_values(|e: int| es[e].id)
}

/// The group names of the entries `sel` picks, entry after entry.
pub open spec fn picked_names(es: Seq<PoolEntry>, sel: Seq<int>) -> Seq<u32>
    decreases sel.len(),
{
    if sel.len() == 0 {
        Seq::empty()
    } else {
        picked_names(es, sel.drop_last()) + es[sel.last()].groups@
    }
}

/// The entries `sel` picks stay within every group's cap, violable or not.
pub open spec fn within_all_caps(es: Seq<PoolEntry>, caps: Seq<i64>, sel: Seq<int>) -> bool {
    forall|x: u32| (x as int) < caps.len() ==> within_cap(#[trigger] count(picked_names(es, sel), x), caps[x as int])
}

proof fn lemma_count_append(a: Seq<u32>, b: Seq<u32>, x: u32)
    ensures
        count(a + b, x) == count(a, x) + count(b, x),
    decreases b.len(),
{
    if b.len() > 0 {
        assert((a + b).drop_last() =~= a + b.drop_last());
        lemma_count_append(a, b.drop_last(), x);
    } else {
        assert(a + b =~= a);
    }
}

proof fn lemma_count_absent(s: Seq<u32>, x: u32)
    requires
        !s.contains(x),
    ensures
        count(s, x) == 0,
    decreases s.len(),
{
    if s.len() > 0 {
        let d = s.drop_last();
        if d.contains(x) {
            let j = choose|j: int| 0 <= j < d.len() && d[j] == x;
            assert(s[j] == x);
        }
        assert(s[s.len() - 1] != x);
        lemma_count_absent(d, x);
    }
}

proof fn lemma_dedup_nodup(s: Seq<u32>)
    ensures
        forall|i: int, j: int| #![trigger dedup(s)[i], dedup(s)[j]] 0 <= i < j < dedup(s).len() ==> dedup(s)[i] != dedup(s)[j],
    decreases s.len(),
{
    if s.len() > 0 {
        let d = dedup(s.drop_last());
        lemma_dedup_nodup(s.drop_last());
        if !d.contains(s.last()) {
            let r = d.push(s.last());
            assert forall|i: int, j: int| 0 <= i < j < r.len() implies r[i] != r[j] by {
                assert(r[i] == d[i]);
                if j == d.len() {
                    if d[i] == s.last() {
                        assert(d.contains(s.last()));
                    }
                } else {
                    assert(r[j] == d[j]);
                }
            }
        }
    }
}

proof fn lemma_index_of_nodup(s: Seq<u32>, g: int)
    requires
        0 <= g < s.len(),
        forall|i: int, j: int| #![trigger s[i], s[j]] 0 <= i < j < s.len() ==> s[i] != s[j],
    ensures
        index_of(s, s[g]) == g,
    decreases s.len(),
{
    let d = s.drop_last();
    if g < d.len() {
        assert forall|i: int, j: int| 0 <= i < j < d.len() implies d[i] != d[j] by {
            assert(d[i] == s[i] && d[j] == s[j]);
        }
        lemma_index_of_nodup(d, g);
    } else {
        lemma_index_of(d, s[g]);
        if d.contains(s[g]) {
            let i = choose|i: int| 0 <= i < d.len() && d[i] == s[g];
            assert(s[i] == s[g]);
        }
    }
}

proof fn lemma_violable_count(names: Seq<u32>, es: Seq<PoolEntry>, caps: Seq<i64>, x: u32)
    requires
        is_violable(es, caps, x),
    ensures
        count(violable_only(names, es, caps), x) == count(names, x),
    decreases names.len(),
{
    if names.len() > 0 {
        let d = names.drop_last();
        lemma_violable_count(d, es, caps, x);
        if is_violable(es, caps, names.last()) {
            lemma_count_push(violable_only(d, es, caps), names.last(), x);
        }
    }
}

proof fn lemma_violable_only_contains(s: Seq<u32>, es: Seq<PoolEntry>, caps: Seq<i64>, x: u32)
    ensures
        violable_only(s, es, caps).contains(x) <==> s.contains(x) && is_violable(es, caps, x),
    decreases s.len(),
{
    if s.len() > 0 {
        let d = s.drop_last();
        let y = s.last();
        lemma_violable_only_contains(d, es, caps, x);
        assert(d.push(y) =~= s);
        lemma_contains_push(d, y, x);
        if is_violable(es, caps, y) {
            lemma_contains_push(violable_only(d, es, caps), y, x);
        }
    }
}

proof fn lemma_names_in_range_contains(es: Seq<PoolEntry>, n: int, x: u32)
    requires
        names_in_range(es, n),
        names_of(es).contains(x),
    ensures
        x < n,
    decreases es.len(),
{
    if es.len() > 0 {
        let d = es.drop_last();
        let gs = es.last().groups@;
        let j = choose|j: int| 0 <= j < names_of(es).len() && names_of(es)[j] == x;
        if j < names_of(d).len() {
            assert(names_of(d)[j] == x);
            assert forall|e: int, k: int| 0 <= e < d.len() && 0 <= k < d[e].groups@.len() implies #[trigger] d[e].groups@[k] < n by {
                assert(d[e] == es[e]);
            }
            lemma_names_in_range_contains(d, n, x);
        } else {
            let k = j - names_of(d).len();
            assert(gs[k] == x);
            assert(es[es.len() - 1].groups@[k] < n);
        }
    }
}

proof fn lemma_occ_numbered_upto(gs: Seq<usize>, v: Seq<u32>, d: Seq<u32>, g: int, k: int)
    requires
        gs.len() == v.len(),
        forall|q: int| 0 <= q < gs.len() ==> d.contains(#[trigger] v[q]),
        forall|q: int| 0 <= q < gs.len() ==> #[trigger] gs[q] as int == index_of(d, v[q]),
        0 <= g < d.len(),
        index_of(d, d[g]) == g,
        0 <= k <= gs.len(),
    ensures
        occ(gs.take(k), g) == count(v.take(k), d[g]),
    decreases k,
{
    if k > 0 {
        let q = k - 1;
        lemma_occ_numbered_upto(gs, v, d, g, q);
        assert(gs.take(k).drop_last() =~= gs.take(q));
        assert(v.take(k).drop_last() =~= v.take(q));
        assert(gs.take(k).last() == gs[q]);
        assert(v.take(k).last() == v[q]);
        assert(d.contains(v[q]));
        assert(gs[q] as int == index_of(d, v[q]));
        lemma_index_of(d, v[q]);
    }
}

proof fn lemma_occ_numbered(gs: Seq<usize>, names: Seq<u32>, d: Seq<u32>, es: Seq<PoolEntry>, caps: Seq<i64>, g: int)
    requires
        dense_numbering(gs, names, d, es, caps),
        0 <= g < d.len(),
        index_of(d, d[g]) == g,
    ensures
        occ(gs, g) == count(violable_only(names, es, caps), d[g]),
{
    let v = violable_only(names, es, caps);
    lemma_occ_numbered_upto(gs, v, d, g, gs.len() as int);
    assert(gs.take(gs.len() as int) =~= gs);
    assert(v.take(gs.len() as int) =~= v);
}

proof fn lemma_picked_occ(ctx: &Ctx, es: Seq<PoolEntry>, caps: Seq<i64>, sel: Seq<int>, g: int)
    requires
        ctx.holds_pool(es, caps),
        ids_distinct(es),
        forall|j: int| 0 <= j < sel.len() ==> 0 <= #[trigger] sel[j] < es.len(),
        0 <= g < dense_groups(es, caps).len(),
        index_of(dense_groups(es, caps), dense_groups(es, caps)[g]) == g,
        is_violable(es, caps, dense_groups(es, caps)[g]),
    ensures
        occ(ctx.groups_of(picked_ids(es, sel)), g) == count(picked_names(es, sel), dense_groups(es, caps)[g]),
    decreases sel.len(),
{
    let d = dense_groups(es, caps);
    let x = d[g];
    if sel.len() == 0 {
        assert(picked_ids(es, sel) =~= Seq::<u32>::empty());
    } else {
        let s0 = sel.drop_last();
        assert forall|j: int| 0 <= j < s0.len() implies 0 <= #[trigger] s0[j] < es.len() by {
            assert(s0[j] == sel[j]);
        }
        lemma_picked_occ(ctx, es, caps, s0, g);
        let ids = picked_ids(es, sel);
        assert(ids.drop_last() =~= picked_ids(es, s0));
        let e = sel.last();
        assert(0 <= sel[sel.len() - 1] < es.len());
        assert(ids.last() == es[e].id);
        assert(is_last(es, e)) by {
            assert forall|f: int| e < f < es.len() implies #[trigger] es[f].id != es[e].id by {
                assert(es[e].id != es[f].id);
            }
        }
        let it = ctx.items@[es[e].id];
        assert(dense_numbering(it.groups@, es[e].groups@, d, es, caps));
        lemma_occ_numbered(it.groups@, es[e].groups@, d, es, caps, g);
        lemma_violable_count(es[e].groups@, es, caps, x);
        lemma_occ_append(ctx.groups_of(ids.drop_last()), it.groups@, g);
        lemma_count_append(picked_names(es, s0), es[e].groups@, x);
    }
}

proof fn lemma_picked_append(es: Seq<PoolEntry>, a: Seq<int>, b: Seq<int>)
    ensures
        picked_names(es, a + b) == picked_names(es, a) + picked_names(es, b),
    decreases b.len(),
{
    if b.len() == 0 {
        assert(a + b =~= a);
        assert(picked_names(es, a) + picked_names(es, b) =~= picked_names(es, a));
    } else {
        assert((a + b).drop_last() =~= a + b.drop_last());
        assert((a + b).last() == b.last());
        lemma_picked_append(es, a, b.drop_last());
        assert(picked_names(es, a) + picked_names(es, b) =~= picked_names(es, a) + picked_names(
            es,
            b.drop_last(),
        ) + es[b.last()].groups@);
    }
}

proof fn lemma_picked_restrict(es: Seq<PoolEntry>, sel: Seq<int>)
    requires
        es.len() > 0,
        forall|j: int| 0 <= j < sel.len() ==> 0 <= #[trigger] sel[j] < es.len() - 1,
    ensures
        picked_names(es, sel) == picked_names(es.drop_last(), sel),
    decreases sel.len(),
{
    if sel.len() > 0 {
        let s0 = sel.drop_last();
        assert forall|j: int| 0 <= j < s0.len() implies 0 <= #[trigger] s0[j] < es.len() - 1 by {
            assert(s0[j] == sel[j]);
        }
        lemma_picked_restrict(es, s0);
        assert(0 <= sel[sel.len() - 1] < es.len() - 1);
        assert(es.drop_last()[sel.last()] == es[sel.last()]);
    }
}

/// The entries a selection picks hold no group more often than the pool does.
proof fn lemma_picked_within_pool(es: Seq<PoolEntry>, sel: Seq<int>, x: u32)
    requires
        is_selection(es, sel),
    ensures
        count(picked_names(es, sel), x) <= count(names_of(es), x),
    decreases es.len(),
{
    if es.len() == 0 {
        if sel.len() > 0 {
            assert(0 <= sel[0] < es.len());
        }
    } else {
        let n = es.len() - 1;
        let e0 = es.drop_last();
        lemma_count_append(names_of(e0), es[n].groups@, x);
        lemma_count_nonneg(es[n].groups@, x);
        if exists|p: int| 0 <= p < sel.len() && sel[p] == n {
            let p = choose|p: int| 0 <= p < sel.len() && sel[p] == n;
            let a = sel.take(p);
            let b = sel.skip(p + 1);
            let one = seq![n];
            assert(sel =~= a + one + b);
            lemma_picked_append(es, a + one, b);
            lemma_picked_append(es, a, one);
            lemma_picked_append(es, a, b);
            assert(one.drop_last() =~= Seq::<int>::empty());
            assert(one.last() == n);
            assert(picked_names(es, one.drop_last()) =~= Seq::<u32>::empty());
            assert(picked_names(es, one) =~= es[n].groups@);
            let s2 = a + b;
            assert forall|j: int| 0 <= j < s2.len() implies 0 <= #[trigger] s2[j] < n by {
                if j < a.len() {
                    assert(s2[j] == sel[j]);
                    assert(sel[j] != sel[p]);
                    assert(0 <= sel[j] < es.len());
                } else {
                    assert(s2[j] == sel[j + 1]);
                    assert(sel[p] != sel[j + 1]);
                    assert(0 <= sel[j + 1] < es.len());
                }
            }
            assert forall|i: int, j: int| #![trigger s2[i], s2[j]] 0 <= i < j < s2.len() implies s2[i] != s2[j] by {
                let i2 = if i < a.len() { i } else { i + 1 };
                let j2 = if j < a.len() { j } else { j + 1 };
                assert(s2[i] == sel[i2]);
                assert(s2[j] == sel[j2]);
                assert(sel[i2] != sel[j2]);
            }
            assert forall|j: int| 0 <= j < s2.len() implies 0 <= #[trigger] s2[j] < e0.len() by {
                assert(0 <= s2[j] < n);
            }
            lemma_picked_restrict(es, s2);
            lemma_picked_within_pool(e0, s2, x);
            lemma_count_append(picked_names(es, a) + es[n].groups@, picked_names(es, b), x);
            lemma_count_append(picked_names(es, a), es[n].groups@, x);
            lemma_count_append(picked_names(es, a), picked_names(es, b), x);
        } else {
            assert forall|j: int| 0 <= j < sel.len() implies 0 <= #[trigger] sel[j] < es.len() - 1 by {
                assert(0 <= sel[j] < es.len());
                assert(sel[j] != n);
            }
            assert forall|j: int| 0 <= j < sel.len() implies 0 <= #[trigger] sel[j] < e0.len() by {
                assert(0 <= sel[j] < es.len() - 1);
            }
            lemma_picked_restrict(es, sel);
            lemma_picked_within_pool(e0, sel, x);
        }
    }
}

/// A group the pool holds no more of than its cap can never be violated, so
/// only the violable groups need checking: a build of distinct items of the
/// pool is legal by the context's caps exactly when it stays within every
/// group's cap.
pub proof fn lemma_only_violable_groups_matter(ctx: &Ctx, es: Seq<PoolEntry>, caps: Seq<i64>, sel: Seq<int>)
    requires
        ctx.holds_pool(es, caps),
        names_in_range(es, caps.len() as int),
        ids_distinct(es),
        is_selection(es, sel),
    ensures
        ctx.spec_legal(picked_ids(es, sel)) <==> within_all_caps(es, caps, sel),
{
    let d = dense_groups(es, caps);
    let ids = picked_ids(es, sel);
    let pn = picked_names(es, sel);
    let pool = names_of(es);
    let vo = violable_only(pool, es, caps);
    lemma_dedup_nodup(vo);
    assert forall|g: int| 0 <= g < d.len() implies index_of(d, d[g]) == g && is_violable(es, caps, d[g])
        && (d[g] as int) < caps.len() by {
        lemma_index_of_nodup(d, g);
        assert(d.contains(d[g]));
        lemma_dedup_contains(vo, d[g]);
        lemma_violable_only_contains(pool, es, caps, d[g]);
        lemma_names_in_range_contains(es, caps.len() as int, d[g]);
    }
    if ctx.spec_legal(ids) {
        assert forall|x: u32| (x as int) < caps.len() implies within_cap(#[trigger] count(pn, x), caps[x as int]) by {
            lemma_count_nonneg(pn, x);
            lemma_picked_within_pool(es, sel, x);
            if d.contains(x) {
                let g = index_of(d, x);
                lemma_index_of(d, x);
                lemma_picked_occ(ctx, es, caps, sel, g);
                assert(ctx.caps@[g] == caps[x as int]);
                assert(within_cap(occ(ctx.groups_of(ids), g), ctx.caps@[g]));
            } else {
                lemma_dedup_contains(vo, x);
                lemma_violable_only_contains(pool, es, caps, x);
                if is_violable(es, caps, x) {
                    lemma_count_absent(pool, x);
                }
            }
        }
    }
    if within_all_caps(es, caps, sel) {
        assert forall|g: int| 0 <= g < ctx.caps@.len() implies within_cap(
            occ(ctx.groups_of(ids), g),
            ctx.caps@[g],
        ) by {
            let x = d[g];
            lemma_picked_occ(ctx, es, caps, sel, g);
            assert(within_cap(count(pn, x), caps[x as int]));
        }
    }
}

} // verus!

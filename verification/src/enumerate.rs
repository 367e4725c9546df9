//! The enumeration's discrete rules: which item combinations a block of
//! work covers, which builds are legal (item-group caps, budget), which
//! rest-of-build partition a combination takes its boots from, and each
//! build's place (the enumeration order ties are broken by).

use std::collections::HashMap;
use std::collections::HashSet;
use vstd::prelude::*;

use crate::combinations::{combinations, increasing_below, is_combination_listing, lists_choices, picks};

verus! {

broadcast use vstd::std_specs::hash::group_hash_axioms;

/// Most item groups a pool may have that a build can violate.
pub const MAX_GROUPS: usize = 64;

/// What the rules read of one item of the pool: its price and the dense
/// indices of the violable groups it belongs to.
pub struct Item {
    pub price: i64,
    pub groups: Vec<usize>,
}

/// A build's place in the enumeration: its items' places, then its boots'.
pub type Place = (Vec<i64>, i64);

/// The enumeration context's discrete half: the pool and the rules a block
/// of work is cut and filtered by.
pub struct Ctx {
    pub items: HashMap<u32, Item>,
    /// The cap of each violable group, by dense index.
    pub caps: Vec<i64>,
    pub budget: Option<i64>,
    pub required: Vec<u32>,
    pub free: Vec<u32>,
    pub boots: Vec<u32>,
    pub grouped_boots: HashSet<u32>,
    pub partitions_busy: Vec<Vec<u32>>,
    pub partitions_calm: Vec<Vec<u32>>,
    pub energized: HashSet<u32>,
    pub order: HashMap<u32, i64>,
}

impl Ctx {
    /// At most `MAX_GROUPS` groups, and every item's groups index `caps`.
    pub open spec fn wf(&self) -> bool {
        &&& self.caps@.len() <= MAX_GROUPS
        &&& forall|id: u32| #[trigger] self.items@.contains_key(id) ==> forall|j: int|
            0 <= j < self.items@[id].groups@.len() ==> #[trigger] self.items@[id].groups@[j]
                < self.caps@.len()
    }

    /// Every id names an item of the pool.
    pub open spec fn all_known(&self, ids: Seq<u32>) -> bool {
        forall|j: int| 0 <= j < ids.len() ==> self.items@.contains_key(#[trigger] ids[j])
    }

    /// An item's place: its rank in the published order, its id when unranked.
    pub open spec fn order_of(&self, id: u32) -> i64 {
        if self.order@.contains_key(id) {
            self.order@[id]
        } else {
            id as i64
        }
    }

    /// A build's place: the places of its items after the boots, then the
    /// boots' (`ids[0]` is the boots); the empty build sits at `([], -1)`.
    pub open spec fn spec_place(&self, ids: Seq<u32>) -> (Seq<i64>, i64) {
        if ids.len() == 0 {
            (Seq::empty(), -1i64)
        } else {
            (ids.drop_first().map_values(|i: u32| self.order_of(i)), self.order_of(ids[0]))
        }
    }

    /// The groups of the items `ids`, one entry per membership, in order.
    pub open spec fn groups_of(&self, ids: Seq<u32>) -> Seq<usize>
        decreases ids.len(),
    {
        if ids.len() == 0 {
            Seq::empty()
        } else {
            self.groups_of(ids.drop_last()) + self.items@[ids.last()].groups@
        }
    }

    /// The build stays within every group's cap: each group it holds items
    /// of holds no more of them than its cap.
    pub open spec fn spec_legal(&self, ids: Seq<u32>) -> bool {
        forall|g: int| 0 <= g < self.caps@.len() ==> within_cap(occ(self.groups_of(ids), g), self.caps@[g])
    }

    /// A build's place.
    pub fn place(&self, ids: &Vec<u32>) -> (r: Place)
        ensures
            (r.0@, r.1) == self.spec_place(ids@),
    {
        if ids.len() == 0 {
            return (Vec::new(), -1);
        }
        let mut items: Vec<i64> = Vec::new();
        let mut j: usize = 1;
        while j < ids.len()
            invariant
                1 <= j <= ids@.len(),
                items@ =~= ids@.drop_first().map_values(|i: u32| self.order_of(i)).take(j - 1),
            decreases ids@.len() - j,
        {
            items.push(self.order_one(ids[j]));
            j += 1;
        }
        assert(items@ =~= ids@.drop_first().map_values(|i: u32| self.order_of(i)));
        let boots = self.order_one(ids[0]);
        (items, boots)
    }

    /// The least place among `builds`, which must not be empty.
    pub fn min_place(&self, builds: &Vec<Vec<u32>>) -> (r: Place)
        requires
            builds@.len() > 0,
        ensures
            exists|k: int| 0 <= k < builds@.len() && pv(r) == self.spec_place(#[trigger] builds@[k]@),
            forall|k: int| 0 <= k < builds@.len() ==> !place_lt(
                self.spec_place(#[trigger] builds@[k]@),
                pv(r),
            ),
    {
        let mut best = self.place(&builds[0]);
        proof {
            lemma_place_order(pv(best), pv(best), pv(best));
        }
        let mut k: usize = 1;
        while k < builds.len()
            invariant
                1 <= k <= builds@.len(),
                exists|t: int| 0 <= t < k && pv(best) == self.spec_place(#[trigger] builds@[t]@),
                forall|t: int| 0 <= t < k ==> !place_lt(
                    self.spec_place(#[trigger] builds@[t]@),
                    pv(best),
                ),
            decreases builds@.len() - k,
        {
            let p = self.place(&builds[k]);
            if place_less(&p, &best) {
                proof {
                    assert forall|t: int| 0 <= t < k + 1 implies !place_lt(
                        self.spec_place(#[trigger] builds@[t]@),
                        pv(p),
                    ) by {
                        lemma_place_order(self.spec_place(builds@[t]@), pv(p), pv(best));
                        lemma_place_order(pv(p), self.spec_place(builds@[t]@), pv(best));
                        lemma_place_order(self.spec_place(builds@[t]@), pv(best), pv(p));
                    }
                }
                best = p;
            } else {
                proof {
                    lemma_place_order(pv(p), pv(p), pv(p));
                }
            }
            k += 1;
        }
        best
    }

    /// The builds whose place does not sort after `bound`, in order.
    pub fn placed_within(&self, builds: &Vec<Vec<u32>>, bound: &Place) -> (r: Vec<Vec<u32>>)
        ensures
            r.deep_view() == builds.deep_view().filter(
                |ids: Seq<u32>| !place_lt(pv(*bound), self.spec_place(ids)),
            ),
    {
        let ghost f = |ids: Seq<u32>| !place_lt(pv(*bound), self.spec_place(ids));
        let mut r: Vec<Vec<u32>> = Vec::new();
        let mut k: usize = 0;
        while k < builds.len()
            invariant
                k <= builds@.len(),
                f == (|ids: Seq<u32>| !place_lt(pv(*bound), self.spec_place(ids))),
                r.deep_view() == builds.deep_view().take(k as int).filter(f),
            decreases builds@.len() - k,
        {
            proof {
                assert(builds.deep_view().take(k as int + 1).drop_last() =~= builds.deep_view().take(
                    k as int,
                ));
                reveal_with_fuel(Seq::filter, 1);
            }
            let p = self.place(&builds[k]);
            assert(builds.deep_view().take(k as int + 1).last() == builds@[k as int]@);
            if !place_less(bound, &p) {
                let c = builds[k].clone();
                assert(c@ == builds@[k as int]@);
                r.push(c);
            }
            proof {
                assert(r.deep_view() =~= builds.deep_view().take(k as int + 1).filter(f));
            }
            k += 1;
        }
        proof {
            assert(builds.deep_view().take(k as int) =~= builds.deep_view());
        }
        r
    }

    /// The stem of a block: the required items, then the free items the
    /// prefix picks.
    pub open spec fn block_stem(&self, prefix: Seq<usize>) -> Seq<u32> {
        self.required@ + prefix.map_values(|i: usize| self.free@[i as int])
    }

    /// The free items a block's remaining picks come from: all of them for
    /// an empty prefix, otherwise those after the prefix's last pick.
    pub open spec fn block_tail(&self, prefix: Seq<usize>) -> Seq<u32> {
        if prefix.len() == 0 {
            self.free@
        } else {
            self.free@.skip(prefix.last() + 1)
        }
    }

    /// The item combinations (boots aside) of one block of work: the stem
    /// followed by each `size - prefix.len()`-element combination of the
    /// tail, in combination order.
    pub fn block_rests(&self, size: usize, prefix: &Vec<usize>) -> (out: Vec<Vec<u32>>)
        requires
            prefix@.len() <= size,
            forall|j: int| 0 <= j < prefix@.len() ==> #[trigger] prefix@[j] < self.free@.len(),
        ensures
            exists|combos: Seq<Seq<u32>>|
                #[trigger] is_combination_listing(
                    self.block_tail(prefix@),
                    size - prefix@.len(),
                    combos,
                ) && out@.len() == combos.len() && forall|r: int|
                    0 <= r < combos.len() ==> #[trigger] out@[r]@ == self.block_stem(prefix@)
                        + combos[r],
            forall|r: int| 0 <= r < out@.len() ==> row_after_prefix(
                self,
                prefix@,
                size - prefix@.len(),
                #[trigger] out@[r]@,
            ),
    {
        let mut stem: Vec<u32> = self.required.clone();
        let mut j: usize = 0;
        while j < prefix.len()
            invariant
                j <= prefix@.len(),
                forall|t: int| 0 <= t < prefix@.len() ==> #[trigger] prefix@[t] < self.free@.len(),
                stem@ =~= self.required@ + prefix@.take(j as int).map_values(
                    |i: usize| self.free@[i as int],
                ),
            decreases prefix@.len() - j,
        {
            stem.push(self.free[prefix[j]]);
            j += 1;
        }
        assert(prefix@.take(j as int) =~= prefix@);
        let start: usize = if prefix.len() == 0 {
            0
        } else {
            let flen = self.free.len();
            assert(prefix@[prefix@.len() - 1] < self.free@.len());
            prefix[prefix.len() - 1] + 1
        };
        let mut tail: Vec<u32> = Vec::new();
        let mut t: usize = start;
        while t < self.free.len()
            invariant
                start <= t <= self.free@.len() || (start > self.free@.len() && t == start),
                start <= self.free@.len(),
                tail@ =~= self.free@.subrange(start as int, t as int),
            decreases self.free@.len() - t,
        {
            tail.push(self.free[t]);
            t += 1;
        }
        assert(tail@ =~= self.block_tail(prefix@));
        let combos = combinations(&tail, size - prefix.len());
        let mut out: Vec<Vec<u32>> = Vec::new();
        let mut r: usize = 0;
        while r < combos.len()
            invariant
                r <= combos@.len(),
                out@.len() == r,
                stem@ == self.block_stem(prefix@),
                forall|q: int| 0 <= q < r ==> #[trigger] out@[q]@ == stem@ + combos.deep_view()[q],
            decreases combos@.len() - r,
        {
            let mut row = stem.clone();
            let mut c: usize = 0;
            while c < combos[r].len()
                invariant
                    r < combos@.len(),
                    c <= combos@[r as int]@.len(),
                    row@ =~= stem@ + combos@[r as int]@.take(c as int),
                decreases combos@[r as int]@.len() - c,
            {
                row.push(combos[r][c]);
                c += 1;
            }
            assert(combos@[r as int]@.take(c as int) =~= combos@[r as int]@);
            assert(combos.deep_view()[r as int] == combos@[r as int]@);
            out.push(row);
            r += 1;
        }
        assert(is_combination_listing(self.block_tail(prefix@), size - prefix@.len(), combos.deep_view()));
        proof {
            let rows = out@.map_values(|v: Vec<u32>| v@);
            assert forall|r: int| 0 <= r < combos.deep_view().len() implies #[trigger] rows[r]
                == self.block_stem(prefix@) + combos.deep_view()[r] by {
                assert(rows[r] == out@[r]@);
            }
            lemma_block_rows_follow_prefix(self, size as int, prefix@, rows);
            assert forall|r: int| 0 <= r < out@.len() implies row_after_prefix(
                self,
                prefix@,
                size - prefix@.len(),
                #[trigger] out@[r]@,
            ) by {
                assert(rows[r] == out@[r]@);
            }
        }
        out
    }

    /// The rest of the build holds an item whose effect is energized: its
    /// boots come from the busy partition.
    pub fn is_busy(&self, rest: &Vec<u32>) -> (r: bool)
        ensures
            r == exists|j: int| 0 <= j < rest@.len() && self.energized@.contains(#[trigger] rest@[j]),
    {
        let mut j: usize = 0;
        while j < rest.len()
            invariant
                j <= rest@.len(),
                forall|t: int| 0 <= t < j ==> !self.energized@.contains(#[trigger] rest@[t]),
            decreases rest@.len() - j,
        {
            if self.energized.contains(&rest[j]) {
                return true;
            }
            j += 1;
        }
        false
    }

    /// The boots classes a combination is fought with: those its task names,
    /// or else the busy or calm partition.
    pub fn classes_for<'a>(&'a self, rest: &Vec<u32>, named: &'a Option<Vec<Vec<u32>>>) -> (r: &'a Vec<
        Vec<u32>,
    >)
        ensures
            named.is_some() ==> r == named.unwrap(),
            named.is_none() ==> r == if exists|j: int|
                0 <= j < rest@.len() && self.energized@.contains(#[trigger] rest@[j]) {
                self.partitions_busy
            } else {
                self.partitions_calm
            },
    {
        match named {
            Some(c) => c,
            None => if self.is_busy(rest) {
                &self.partitions_busy
            } else {
                &self.partitions_calm
            },
        }
    }

    /// A build's total price.
    pub open spec fn price_sum(&self, ids: Seq<u32>) -> int
        decreases ids.len(),
    {
        if ids.len() == 0 {
            0
        } else {
            self.price_sum(ids.drop_last()) + self.items@[ids.last()].price
        }
    }

    /// The build costs no more than the budget, when there is one.
    pub open spec fn within_budget(&self, ids: Seq<u32>) -> bool {
        match self.budget {
            Some(b) => self.price_sum(ids) <= b,
            None => true,
        }
    }

    /// A boots class's builds that may be fought: each member's boots ahead of
    /// the rest, kept when the boots carry no violable group or the whole
    /// build is legal, and when the build is within the budget.
    pub open spec fn spec_class_builds(&self, rest: Seq<u32>, members: Seq<u32>) -> Seq<Seq<u32>> {
        members.map_values(|b: u32| seq![b] + rest).filter(
            |ids: Seq<u32>|
                (!self.grouped_boots@.contains(ids[0]) || self.spec_legal(ids))
                    && self.within_budget(ids),
        )
    }

    /// A boots class's builds that may be fought.
    pub fn class_builds(&self, rest: &Vec<u32>, members: &Vec<u32>) -> (r: Vec<Vec<u32>>)
        requires
            self.wf(),
            self.all_known(rest@),
            self.all_known(members@),
        ensures
            r.deep_view() == self.spec_class_builds(rest@, members@),
            forall|i: int| 0 <= i < r@.len() ==> {
                let ids = #[trigger] r@[i]@;
                &&& self.within_budget(ids)
                &&& (self.grouped_boots@.contains(ids[0]) ==> self.spec_legal(ids))
                &&& members@.contains(ids[0])
                &&& ids.drop_first() == rest@
            },
    {
        let ghost f = |ids: Seq<u32>|
            (!self.grouped_boots@.contains(ids[0]) || self.spec_legal(ids)) && self.within_budget(
                ids,
            );
        let ghost all = members@.map_values(|b: u32| seq![b] + rest@);
        let mut out: Vec<Vec<u32>> = Vec::new();
        let mut k: usize = 0;
        while k < members.len()
            invariant
                self.wf(),
                self.all_known(rest@),
                self.all_known(members@),
                k <= members@.len(),
                all == members@.map_values(|b: u32| seq![b] + rest@),
                f == (|ids: Seq<u32>|
                    (!self.grouped_boots@.contains(ids[0]) || self.spec_legal(ids))
                        && self.within_budget(ids)),
                out.deep_view() == all.take(k as int).filter(f),
            decreases members@.len() - k,
        {
            let b = members[k];
            let mut ids: Vec<u32> = Vec::new();
            ids.push(b);
            let mut t: usize = 0;
            while t < rest.len()
                invariant
                    t <= rest@.len(),
                    ids@ =~= seq![b] + rest@.take(t as int),
                decreases rest@.len() - t,
            {
                ids.push(rest[t]);
                t += 1;
            }
            assert(rest@.take(t as int) =~= rest@);
            assert(ids@ == all[k as int]);
            assert(self.all_known(ids@)) by {
                assert forall|j: int| 0 <= j < ids@.len() implies self.items@.contains_key(
                    #[trigger] ids@[j],
                ) by {
                    if j == 0 {
                        assert(ids@[0] == members@[k as int]);
                    } else {
                        assert(ids@[j] == rest@[j - 1]);
                    }
                }
            }
            let keep = (!self.grouped_boots.contains(&b) || self.legal(&ids)) && self.fits_budget(
                &ids,
            );
            proof {
                assert(all.take(k as int + 1).drop_last() =~= all.take(k as int));
                assert(all.take(k as int + 1).last() == ids@);
                assert(ids@[0] == b);
                assert(f(ids@) == keep);
                reveal_with_fuel(Seq::filter, 1);
            }
            let ghost before = out.deep_view();
            let ghost before_v = out@;
            let ghost idv = ids@;
            if keep {
                out.push(ids);
                assert forall|q: int| 0 <= q < out@.len() implies #[trigger] out.deep_view()[q]
                    == before.push(idv)[q] by {
                    if q < before_v.len() {
                        assert(out@[q] == before_v[q]);
                    }
                }
                assert(out.deep_view() =~= before.push(idv));
            }
            proof {
                assert(out.deep_view() =~= all.take(k as int + 1).filter(f));
            }
            k += 1;
        }
        proof {
            assert(all.take(k as int) =~= all);
            lemma_class_builds_sound(self, rest@, members@);
            assert forall|i: int| 0 <= i < out@.len() implies {
                let ids = #[trigger] out@[i]@;
                &&& self.within_budget(ids)
                &&& (self.grouped_boots@.contains(ids[0]) ==> self.spec_legal(ids))
                &&& members@.contains(ids[0])
                &&& ids.drop_first() == rest@
            } by {
                assert(out.deep_view()[i] == out@[i]@);
                assert(out.deep_view()[i] == self.spec_class_builds(rest@, members@)[i]);
            }
        }
        out
    }

    /// The build costs no more than the budget, when there is one.
    fn fits_budget(&self, ids: &Vec<u32>) -> (r: bool)
        requires
            self.all_known(ids@),
        ensures
            r == self.within_budget(ids@),
    {
        match self.budget {
            None => true,
            Some(budget) => {
                let mut sum: i128 = 0;
                let mut j: usize = 0;
                while j < ids.len()
                    invariant
                        self.all_known(ids@),
                        j <= ids@.len(),
                        sum == self.price_sum(ids@.take(j as int)),
                        -(j as int) * 0x8000_0000_0000_0000 <= sum <= (j as int) * 0x8000_0000_0000_0000,
                    decreases ids@.len() - j,
                {
                    let id = ids[j];
                    assert(self.items@.contains_key(ids@[j as int]));
                    let price = self.items.get(&id).unwrap().price;
                    proof {
                        assert(ids@.take(j as int + 1).drop_last() =~= ids@.take(j as int));
                        let jj = j as int;
                        assert(jj < 0xFFFF_FFFF_FFFF_FFFF);
                        assert((jj + 1) * 0x8000_0000_0000_0000 < 0x8000_0000_0000_0000_0000_0000_0000_0000) by (nonlinear_arith)
                            requires
                                0 <= jj < 0xFFFF_FFFF_FFFF_FFFF,
                        ;
                        assert(jj * 0x8000_0000_0000_0000 + 0x8000_0000_0000_0000 == (jj + 1) * 0x8000_0000_0000_0000) by (nonlinear_arith);
                    }
                    sum = sum + price as i128;
                    j += 1;
                }
                assert(ids@.take(j as int) =~= ids@);
                sum <= budget as i128
            },
        }
    }

    fn order_one(&self, id: u32) -> (r: i64)
        ensures
            r == self.order_of(id),
    {
        match self.order.get(&id) {
            Some(v) => *v,
            None => id as i64,
        }
    }

    /// The build stays within every group's cap: no group counts more of its
    /// items than the group allows.
    pub fn legal(&self, ids: &Vec<u32>) -> (r: bool)
        requires
            self.wf(),
            self.all_known(ids@),
        ensures
            r == self.spec_legal(ids@),
    {
        let ncaps = self.caps.len();
        let mut counts: Vec<i64> = Vec::new();
        while counts.len() < ncaps
            invariant
                counts@.len() <= ncaps,
                forall|g: int| 0 <= g < counts@.len() ==> #[trigger] counts@[g] == 0,
            decreases ncaps - counts@.len(),
        {
            counts.push(0);
        }
        let ghost mut flat: Seq<usize> = Seq::empty();
        let mut i: usize = 0;
        while i < ids.len()
            invariant
                self.wf(),
                self.all_known(ids@),
                ncaps == self.caps@.len(),
                counts@.len() == ncaps,
                i <= ids@.len(),
                flat == self.groups_of(ids@.take(i as int)),
                forall|g: int| 0 <= g < ncaps ==> #[trigger] counts@[g] == occ(flat, g),
                forall|g: int| 0 <= g < ncaps ==> within_cap(#[trigger] counts@[g] as int, self.caps@[g]),
            decreases ids@.len() - i,
        {
            let id = ids[i];
            assert(self.items@.contains_key(ids@[i as int]));
            let it = self.items.get(&id).unwrap();
            let ghost flat0 = flat;
            let mut j: usize = 0;
            while j < it.groups.len()
                invariant
                    self.wf(),
                    self.items@.contains_key(id),
                    *it == self.items@[id],
                    i < ids@.len(),
                    id == ids@[i as int],
                    ncaps == self.caps@.len(),
                    counts@.len() == ncaps,
                    j <= it.groups@.len(),
                    flat == flat0 + it.groups@.take(j as int),
                    flat0 == self.groups_of(ids@.take(i as int)),
                    forall|g: int| 0 <= g < ncaps ==> #[trigger] counts@[g] == occ(flat, g),
                    forall|g: int| 0 <= g < ncaps ==> within_cap(#[trigger] counts@[g] as int, self.caps@[g]),
                decreases it.groups@.len() - j,
            {
                let g = it.groups[j];
                assert(g < ncaps);
                if counts[g] >= self.caps[g] {
                    proof {
                        let bad = flat.push(g);
                        assert(bad.drop_last() =~= flat);
                        assert(counts@[g as int] == occ(flat, g as int));
                        assert(occ(bad, g as int) == occ(flat, g as int) + 1);
                        assert(bad == flat0 + it.groups@.take(j as int + 1));
                        lemma_groups_of_split(self, ids@, i as int);
                        let rest = it.groups@.skip(j as int + 1) + self.groups_of(
                            ids@.skip(i as int + 1),
                        );
                        assert(it.groups@ =~= it.groups@.take(j as int + 1) + it.groups@.skip(
                            j as int + 1,
                        ));
                        let gs = self.items@[ids@[i as int]].groups@;
                        assert(gs == it.groups@);
                        assert(self.groups_of(ids@) == flat0 + gs + self.groups_of(ids@.skip(i as int + 1)));
                        assert(self.groups_of(ids@) =~= bad + rest);
                        lemma_occ_append(bad, rest, g as int);
                        assert(occ(bad + rest, g as int) == occ(bad, g as int) + occ(rest, g as int));
                        lemma_occ_append(Seq::empty(), flat, g as int);
                        assert(occ(bad, g as int) > self.caps@[g as int]);
                        assert(occ(self.groups_of(ids@), g as int) >= occ(bad, g as int));
                        assert(!within_cap(occ(self.groups_of(ids@), g as int), self.caps@[g as int]));
                    }
                    return false;
                }
                counts.set(g, counts[g] + 1);
                proof {
                    assert(flat0 + it.groups@.take(j as int + 1) =~= flat.push(g));
                    assert(flat.push(g).drop_last() =~= flat);
                    assert forall|h: int| 0 <= h < ncaps implies #[trigger] counts@[h] == occ(
                        flat.push(g),
                        h,
                    ) by {}
                    flat = flat.push(g);
                }
                j += 1;
            }
            proof {
                assert(it.groups@.take(j as int) =~= it.groups@);
                assert(ids@.take(i as int + 1).drop_last() =~= ids@.take(i as int));
            }
            i += 1;
        }
        proof {
            assert(ids@.take(i as int) =~= ids@);
            assert forall|g: int| 0 <= g < self.caps@.len() implies within_cap(
                occ(self.groups_of(ids@), g),
                self.caps@[g],
            ) by {
                assert(counts@[g] == occ(flat, g));
            }
        }
        true
    }
}

/// A named build as a task: the items after its boots are the combination,
/// and its boots (the first id) alone make its one boots class.
pub fn split_build(ids: &Vec<u32>) -> (r: (Vec<u32>, Vec<Vec<u32>>))
    requires
        ids@.len() > 0,
    ensures
        r.0@ == ids@.drop_first(),
        r.1.deep_view() == seq![seq![ids@[0]]],
{
    let mut rest: Vec<u32> = Vec::new();
    let mut j: usize = 1;
    while j < ids.len()
        invariant
            1 <= j <= ids@.len(),
            rest@ =~= ids@.drop_first().take(j - 1),
        decreases ids@.len() - j,
    {
        rest.push(ids[j]);
        j += 1;
    }
    assert(rest@ =~= ids@.drop_first());
    let mut class: Vec<u32> = Vec::new();
    class.push(ids[0]);
    let mut classes: Vec<Vec<u32>> = Vec::new();
    let ghost cv = class@;
    classes.push(class);
    assert(classes@[0]@ == cv);
    assert(cv =~= seq![ids@[0]]);
    assert(classes.deep_view()[0] == classes@[0]@);
    assert(classes.deep_view() =~= seq![seq![ids@[0]]]);
    (rest, classes)
}

/// `a` sorts before `b` the way Rust orders slices: at the first place they
/// differ, or, one being a prefix of the other, by length.
pub open spec fn seq_lt(a: Seq<i64>, b: Seq<i64>) -> bool
    decreases a.len(),
{
    if a.len() == 0 {
        b.len() > 0
    } else if b.len() == 0 {
        false
    } else if a[0] < b[0] {
        true
    } else if a[0] > b[0] {
        false
    } else {
        seq_lt(a.drop_first(), b.drop_first())
    }
}

/// `a` sorts before `b` the way Rust orders `(Vec<i64>, i64)`: by the items'
/// places, then by the boots'.
pub open spec fn place_lt(a: (Seq<i64>, i64), b: (Seq<i64>, i64)) -> bool {
    seq_lt(a.0, b.0) || (a.0 == b.0 && a.1 < b.1)
}

/// A place as plain values.
pub open spec fn pv(p: Place) -> (Seq<i64>, i64) {
    (p.0@, p.1)
}

/// The slice order is irreflexive and total.
pub proof fn lemma_seq_lt_strict_total(a: Seq<i64>, b: Seq<i64>)
    ensures
        !seq_lt(a, a),
        !(seq_lt(a, b) && seq_lt(b, a)),
        a != b ==> seq_lt(a, b) || seq_lt(b, a),
    decreases a.len(),
{
    if a.len() > 0 {
        lemma_seq_lt_strict_total(a.drop_first(), a.drop_first());
    }
    if a.len() > 0 && b.len() > 0 {
        lemma_seq_lt_strict_total(a.drop_first(), b.drop_first());
        if a[0] == b[0] && a.drop_first() == b.drop_first() {
            assert forall|i: int| 0 <= i < a.len() implies a[i] == b[i] by {
                if i > 0 {
                    assert(a[i] == a.drop_first()[i - 1]);
                    assert(b[i] == b.drop_first()[i - 1]);
                }
            }
            assert(a =~= b);
        }
    } else if a.len() == 0 && b.len() == 0 {
        assert(a =~= b);
    }
}

/// The slice order is transitive.
pub proof fn lemma_seq_lt_trans(a: Seq<i64>, b: Seq<i64>, c: Seq<i64>)
    requires
        seq_lt(a, b),
        seq_lt(b, c),
    ensures
        seq_lt(a, c),
    decreases a.len(),
{
    if a.len() > 0 && b.len() > 0 && c.len() > 0 && a[0] == b[0] && b[0] == c[0] {
        lemma_seq_lt_trans(a.drop_first(), b.drop_first(), c.drop_first());
    }
}

/// Places are totally ordered: exactly one of `a < b`, `a == b`, `b < a`.
pub proof fn lemma_place_order(a: (Seq<i64>, i64), b: (Seq<i64>, i64), c: (Seq<i64>, i64))
    ensures
        !place_lt(a, a),
        !(place_lt(a, b) && place_lt(b, a)),
        a != b ==> place_lt(a, b) || place_lt(b, a),
        place_lt(a, b) && place_lt(b, c) ==> place_lt(a, c),
{
    lemma_seq_lt_strict_total(a.0, b.0);
    lemma_seq_lt_strict_total(b.0, c.0);
    lemma_seq_lt_strict_total(a.0, c.0);
    if seq_lt(a.0, b.0) && seq_lt(b.0, c.0) {
        lemma_seq_lt_trans(a.0, b.0, c.0);
    }
}

/// `a` sorts before `b` as slices of `i64`.
fn seq_less(a: &Vec<i64>, b: &Vec<i64>) -> (r: bool)
    ensures
        r == seq_lt(a@, b@),
{
    let mut i: usize = 0;
    assert(a@.skip(0) =~= a@ && b@.skip(0) =~= b@);
    while i < a.len() && i < b.len()
        invariant
            i <= a@.len(),
            i <= b@.len(),
            seq_lt(a@, b@) == seq_lt(a@.skip(i as int), b@.skip(i as int)),
        decreases a@.len() - i,
    {
        proof {
            assert(a@.skip(i as int).drop_first() =~= a@.skip(i as int + 1));
            assert(b@.skip(i as int).drop_first() =~= b@.skip(i as int + 1));
        }
        if a[i] < b[i] {
            return true;
        }
        if a[i] > b[i] {
            return false;
        }
        i += 1;
    }
    a.len() < b.len()
}

/// `a` sorts before `b` as places.
pub fn place_less(a: &Place, b: &Place) -> (r: bool)
    ensures
        r == place_lt(pv(*a), pv(*b)),
{
    if seq_less(&a.0, &b.0) {
        return true;
    }
    if seq_less(&b.0, &a.0) {
        return false;
    }
    proof {
        lemma_seq_lt_strict_total(a.0@, b.0@);
    }
    a.1 < b.1
}

/// A group holding `count` of a build's items is within `cap`: it holds
/// none of them, or no more than the cap.
pub open spec fn within_cap(count: int, cap: i64) -> bool {
    count == 0 || count <= cap
}

/// How many times `g` occurs in `s`.
pub open spec fn occ(s: Seq<usize>, g: int) -> int
    decreases s.len(),
{
    if s.len() == 0 {
        0
    } else {
        occ(s.drop_last(), g) + if s.last() == g {
            1int
        } else {
            0int
        }
    }
}

/// Counting over two parts adds up.
pub proof fn lemma_occ_append(a: Seq<usize>, b: Seq<usize>, g: int)
    ensures
        occ(a + b, g) == occ(a, g) + occ(b, g),
        occ(b, g) >= 0,
    decreases b.len(),
{
    if b.len() > 0 {
        assert((a + b).drop_last() =~= a + b.drop_last());
        lemma_occ_append(a, b.drop_last(), g);
    }
}

/// The groups of a build split at any item.
proof fn lemma_groups_of_split(ctx: &Ctx, ids: Seq<u32>, i: int)
    requires
        0 <= i < ids.len(),
    ensures
        ctx.groups_of(ids) == ctx.groups_of(ids.take(i)) + ctx.items@[ids[i]].groups@
            + ctx.groups_of(ids.skip(i + 1)),
{
    lemma_groups_of_append(ctx, ids.take(i + 1), ids.skip(i + 1));
    assert(ids.take(i + 1) + ids.skip(i + 1) =~= ids);
    assert(ids.take(i + 1).drop_last() =~= ids.take(i));
}

proof fn lemma_groups_of_append(ctx: &Ctx, a: Seq<u32>, b: Seq<u32>)
    ensures
        ctx.groups_of(a + b) == ctx.groups_of(a) + ctx.groups_of(b),
    decreases b.len(),
{
    if b.len() == 0 {
        assert(a + b =~= a);
        assert(ctx.groups_of(a) + ctx.groups_of(b) =~= ctx.groups_of(a));
    } else {
        assert((a + b).drop_last() =~= a + b.drop_last());
        lemma_groups_of_append(ctx, a, b.drop_last());
        assert((a + b).last() == b.last());
        assert(ctx.groups_of(a + b) =~= ctx.groups_of(a) + ctx.groups_of(b));
    }
}

/// `row` is the required items, the prefix's picks of the free items, and
/// then the free items at the strictly increasing positions `c`, `k` of
/// them, each after the prefix's last pick when there is a prefix.
pub open spec fn row_is_picks(ctx: &Ctx, prefix: Seq<usize>, k: int, row: Seq<u32>, c: Seq<int>) -> bool {
    &&& increasing_below(c, ctx.free@.len() as int)
    &&& c.len() == k
    &&& (prefix.len() > 0 ==> forall|j: int| 0 <= j < c.len() ==> #[trigger] c[j] > prefix.last())
    &&& row == ctx.required@ + prefix.map_values(|i: usize| ctx.free@[i as int]) + c.map_values(
        |p: int| ctx.free@[p],
    )
}

/// `row` is a row of a block whose remaining picks all lie after the prefix.
pub open spec fn row_after_prefix(ctx: &Ctx, prefix: Seq<usize>, k: int, row: Seq<u32>) -> bool {
    exists|c: Seq<int>| #[trigger] row_is_picks(ctx, prefix, k, row, c)
}

/// Every row of a block's work is the required items, then the prefix's
/// picks of the free items, then the free items at some strictly increasing
/// positions, each after the prefix's last pick when there is a prefix (and
/// anywhere in the free items when there is none): no free position is
/// picked twice, and no remaining pick goes back before the prefix's end.
pub proof fn lemma_block_rows_follow_prefix(
    ctx: &Ctx,
    size: int,
    prefix: Seq<usize>,
    out: Seq<Seq<u32>>,
)
    requires
        prefix.len() <= size,
        forall|j: int| 0 <= j < prefix.len() ==> #[trigger] prefix[j] < ctx.free@.len(),
        exists|combos: Seq<Seq<u32>>|
            #[trigger] is_combination_listing(ctx.block_tail(prefix), size - prefix.len(), combos)
                && out.len() == combos.len() && forall|r: int|
                0 <= r < combos.len() ==> #[trigger] out[r] == ctx.block_stem(prefix) + combos[r],
    ensures
        forall|r: int| 0 <= r < out.len() ==> row_after_prefix(ctx, prefix, size - prefix.len(), #[trigger] out[r]),
{
    let k = size - prefix.len();
    let combos = choose|combos: Seq<Seq<u32>>|
        #[trigger] is_combination_listing(ctx.block_tail(prefix), k, combos)
            && out.len() == combos.len() && forall|r: int|
            0 <= r < combos.len() ==> #[trigger] out[r] == ctx.block_stem(prefix) + combos[r];
    let tail = ctx.block_tail(prefix);
    let ix = choose|ix: Seq<Seq<int>>| #[trigger] lists_choices(ix, tail.len() as int, k)
        && ix.len() == combos.len()
        && forall|r: int| 0 <= r < combos.len() ==> #[trigger] combos[r] == picks(tail, ix[r]);
    let off: int = if prefix.len() > 0 { prefix.last() + 1 } else { 0 };
    assert(prefix.len() > 0 ==> prefix[prefix.len() - 1] < ctx.free@.len());
    assert(tail.len() == ctx.free@.len() - off);
    assert forall|r: int| 0 <= r < out.len() implies row_after_prefix(ctx, prefix, size - prefix.len(), #[trigger] out[r]) by {
        let q = ix[r];
        assert(crate::combinations::is_choice(q, tail.len() as int, k));
        let c = q.map_values(|x: int| x + off);
        assert forall|j: int| 0 <= j < c.len() implies 0 <= #[trigger] c[j] < ctx.free@.len() by {
            assert(0 <= q[j] < tail.len());
        }
        assert forall|a: int, b: int| 0 <= a < b < c.len() implies c[a] < c[b] by {
            assert(q[a] < q[b]);
        }
        assert(increasing_below(c, ctx.free@.len() as int));
        if prefix.len() > 0 {
            assert forall|j: int| 0 <= j < c.len() implies c[j] > prefix.last() by {
                assert(0 <= q[j]);
            }
        }
        assert(combos[r] == picks(tail, q));
        assert(picks(tail, q) =~= c.map_values(|p: int| ctx.free@[p])) by {
            assert forall|j: int| 0 <= j < q.len() implies picks(tail, q)[j] == ctx.free@[c[j]] by {
                assert(0 <= q[j] < tail.len());
                if prefix.len() > 0 {
                    assert(tail[q[j]] == ctx.free@[q[j] + off]);
                }
            }
        }
        assert(out[r] == ctx.block_stem(prefix) + combos[r]);
        assert(out[r] =~= ctx.required@ + prefix.map_values(|i: usize| ctx.free@[i as int])
            + c.map_values(|p: int| ctx.free@[p]));
        assert(c.len() == size - prefix.len());
        assert(row_is_picks(ctx, prefix, size - prefix.len(), out[r], c));
    }
}

/// Every build a boots class keeps is that class's member boots ahead of the
/// rest, within the budget (whatever the boots' groups), and within every
/// group's cap when the boots carry a violable group; and every such build
/// of a member is kept.
pub proof fn lemma_class_builds_sound(ctx: &Ctx, rest: Seq<u32>, members: Seq<u32>)
    ensures
        forall|i: int| 0 <= i < ctx.spec_class_builds(rest, members).len() ==> {
            let ids = #[trigger] ctx.spec_class_builds(rest, members)[i];
            &&& ctx.within_budget(ids)
            &&& ids.len() == rest.len() + 1
            &&& ids.drop_first() == rest
            &&& members.contains(ids[0])
            &&& (ctx.grouped_boots@.contains(ids[0]) ==> ctx.spec_legal(ids))
        },
        forall|m: int| 0 <= m < members.len() && ctx.within_budget(seq![members[m]] + rest)
            && (ctx.grouped_boots@.contains(members[m]) ==> ctx.spec_legal(seq![members[m]] + rest))
            ==> ctx.spec_class_builds(rest, members).contains(seq![#[trigger] members[m]] + rest),
{
    let all = members.map_values(|b: u32| seq![b] + rest);
    let f = |ids: Seq<u32>|
        (!ctx.grouped_boots@.contains(ids[0]) || ctx.spec_legal(ids)) && ctx.within_budget(ids);
    let kept = all.filter(f);
    assert(ctx.spec_class_builds(rest, members) == kept);
    assert forall|i: int| 0 <= i < kept.len() implies {
        let ids = #[trigger] kept[i];
        &&& ctx.within_budget(ids)
        &&& ids.len() == rest.len() + 1
        &&& ids.drop_first() == rest
        &&& members.contains(ids[0])
        &&& (ctx.grouped_boots@.contains(ids[0]) ==> ctx.spec_legal(ids))
    } by {
        all.lemma_filter_pred(f, i);
        lemma_filter_from(all, f, i);
        let ids = kept[i];
        let m = choose|m: int| 0 <= m < all.len() && all[m] == ids;
        assert(all[m] == seq![members[m]] + rest);
        assert(ids[0] == members[m]);
        assert(ids.drop_first() =~= rest);
    }
    assert forall|m: int| 0 <= m < members.len() && ctx.within_budget(seq![members[m]] + rest)
        && (ctx.grouped_boots@.contains(members[m]) ==> ctx.spec_legal(seq![members[m]] + rest))
        implies kept.contains(seq![#[trigger] members[m]] + rest) by {
        let ids = seq![members[m]] + rest;
        assert(all[m] == ids);
        assert(ids[0] == members[m]);
        assert(f(all[m]));
        all.lemma_filter_contains(f, m);
    }
}

/// An element of a filtered sequence comes from the sequence.
proof fn lemma_filter_from<A>(s: Seq<A>, f: spec_fn(A) -> bool, i: int)
    requires
        0 <= i < s.filter(f).len(),
    ensures
        s.contains(s.filter(f)[i]),
    decreases s.len(),
{
    reveal_with_fuel(Seq::filter, 1);
    if s.len() > 0 {
        let d = s.drop_last();
        d.lemma_filter_len(f);
        if i < d.filter(f).len() {
            lemma_filter_from(d, f, i);
            let j = choose|j: int| 0 <= j < d.len() && d[j] == d.filter(f)[i];
            assert(s.filter(f)[i] == d.filter(f)[i]);
            assert(s[j] == d[j]);
        } else {
            assert(s.filter(f)[i] == s.last());
            assert(s[s.len() - 1] == s.last());
        }
    }
}

} // verus!

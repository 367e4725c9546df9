//! Item effects: the damage-source labels, interned, and the merge of a
//! build's items into one set of effects. List-valued effects concatenate
//! in item order; of each unique passive the first item carrying it wins.
//! Effects are handled by number; what a number stands for (an on-hit, a
//! burn, a passive's parameters) is the caller's.

use vstd::prelude::*;

verus! {


/// A damage source's id: its place in the label table.
pub type SourceId = u16;

/// The kit's own labels, in the order of their ids.
pub const KIT_SOURCES: [&'static str; 18] = [
    "auto",
    "Q",
    "Q empowered",
    "E",
    "W",
    "R",
    "E onhit",
    "E active",
    "wave",
    "execute",
    "muramana",
    "eclipse",
    "botrk",
    "kraken",
    "hullbreaker",
    "spellblade",
    "malignance",
    "stormsurge",
];

pub const SRC_AUTO: SourceId = 0;
pub const SRC_Q: SourceId = 1;
pub const SRC_Q_EMPOWERED: SourceId = 2;
pub const SRC_E: SourceId = 3;
pub const SRC_W: SourceId = 4;
pub const SRC_R: SourceId = 5;
pub const SRC_E_ONHIT: SourceId = 6;
pub const SRC_E_ACTIVE: SourceId = 7;
pub const SRC_WAVE: SourceId = 8;
pub const SRC_EXECUTE: SourceId = 9;
pub const SRC_MURAMANA: SourceId = 10;
pub const SRC_ECLIPSE: SourceId = 11;
pub const SRC_BOTRK: SourceId = 12;
pub const SRC_KRAKEN: SourceId = 13;
pub const SRC_HULLBREAKER: SourceId = 14;
pub const SRC_SPELLBLADE: SourceId = 15;
pub const SRC_MALIGNANCE: SourceId = 16;
pub const SRC_STORMSURGE: SourceId = 17;

/// The label table: a label's id is its index.
pub struct Sources {
    names: Vec<String>,
}

impl View for Sources {
    type V = Seq<Seq<char>>;

    closed spec fn view(&self) -> Seq<Seq<char>> {
        self.names@.map_values(|s: String| s@)
    }
}

/// Where `x` first occurs in `s`, or -1.
pub open spec fn position(s: Seq<Seq<char>>, x: Seq<char>) -> int
    decreases s.len(),
{
    if s.len() == 0 {
        -1
    } else {
        let p = position(s.drop_last(), x);
        if p >= 0 {
            p
        } else if s.last() == x {
            s.len() - 1
        } else {
            -1
        }
    }
}

/// The table after interning `x`: unchanged when `x` is in it, otherwise
/// with `x` appended.
pub open spec fn interned_table(s: Seq<Seq<char>>, x: Seq<char>) -> Seq<Seq<char>> {
    if position(s, x) >= 0 {
        s
    } else {
        s.push(x)
    }
}

/// The id interning `x` hands out: where `x` first sits in the table, or
/// the index it is appended at, as a `SourceId`.
pub open spec fn interned_id(s: Seq<Seq<char>>, x: Seq<char>) -> SourceId {
    if position(s, x) >= 0 {
        position(s, x) as SourceId
    } else {
        s.len() as SourceId
    }
}

/// `position` finds the first occurrence, or says there is none.
pub proof fn lemma_position(s: Seq<Seq<char>>, x: Seq<char>)
    ensures
        -1 <= position(s, x) < s.len(),
        position(s, x) >= 0 ==> s[position(s, x)] == x && forall|j: int|
            0 <= j < position(s, x) ==> s[j] != x,
        position(s, x) < 0 ==> forall|j: int| 0 <= j < s.len() ==> s[j] != x,
    decreases s.len(),
{
    if s.len() > 0 {
        let d = s.drop_last();
        lemma_position(d, x);
        assert forall|j: int| 0 <= j < d.len() implies d[j] == s[j] by {}
    }
}

impl Sources {
    /// The table holding the kit's labels and nothing else.
    pub fn new() -> (r: Sources)
        ensures
            r@.len() == KIT_SOURCES@.len(),
            forall|i: int| 0 <= i < r@.len() ==> #[trigger] r@[i] == KIT_SOURCES@[i]@,
    {
        let mut names: Vec<String> = Vec::new();
        let mut i: usize = 0;
        while i < 18
            invariant
                i <= 18,
                KIT_SOURCES@.len() == 18,
                names@.len() == i,
                forall|j: int| 0 <= j < i ==> #[trigger] names@[j]@ == KIT_SOURCES@[j]@,
            decreases 18 - i,
        {
            names.push(String::from_str(KIT_SOURCES[i]));
            i += 1;
        }
        Sources { names }
    }

    /// The id of `name`, appending it to the table first when it is new.
    pub fn intern(&mut self, name: &str) -> (id: SourceId)
        ensures
            final(self)@ == interned_table(old(self)@, name@),
            id == interned_id(old(self)@, name@),
    {
        let ghost s = self@;
        let owned = String::from_str(name);
        let mut i: usize = 0;
        while i < self.names.len()
            invariant
                s == self@,
                owned@ == name@,
                i <= s.len(),
                position(s.take(i as int), name@) < 0,
            decreases s.len() - i,
        {
            proof {
                assert(s.take(i as int + 1).drop_last() =~= s.take(i as int));
                assert(self.names@[i as int]@ == s[i as int]);
            }
            if self.names[i] == owned {
                proof {
                    assert(position(s.take(i as int + 1), name@) == i);
                    lemma_prefix_position(s, name@, i as int + 1);
                }
                return i as SourceId;
            }
            i += 1;
        }
        proof {
            assert(s.take(i as int) =~= s);
        }
        self.names.push(owned);
        proof {
            assert(self@ =~= s.push(name@));
        }
        (self.names.len() - 1) as SourceId
    }

    /// The label with id `id`.
    pub fn source_name(&self, id: SourceId) -> (r: String)
        requires
            (id as int) < self@.len(),
        ensures
            r@ == self@[id as int],
    {
        self.names[id as usize].clone()
    }

    /// How many labels the table holds.
    pub fn source_count(&self) -> (r: usize)
        ensures
            r == self@.len(),
    {
        self.names.len()
    }
}

/// A first occurrence found in a prefix is the first occurrence in the whole.
proof fn lemma_prefix_position(s: Seq<Seq<char>>, x: Seq<char>, m: int)
    requires
        0 <= m <= s.len(),
        position(s.take(m), x) >= 0,
    ensures
        position(s, x) == position(s.take(m), x),
    decreases s.len() - m,
{
    if m < s.len() {
        assert(s.take(m + 1).drop_last() =~= s.take(m));
        lemma_prefix_position(s, x, m + 1);
    } else {
        assert(s.take(m) =~= s);
    }
}

/// Interning never moves a label: every id handed out before still names
/// the same label after.
pub proof fn lemma_intern_keeps_ids(s: Seq<Seq<char>>, x: Seq<char>)
    ensures
        interned_table(s, x).len() >= s.len(),
        forall|j: int| 0 <= j < s.len() ==> #[trigger] interned_table(s, x)[j] == s[j],
{
}

/// While the table has room for every id, the id interning hands out names
/// the label that was interned.
pub proof fn lemma_intern_round_trip(s: Seq<Seq<char>>, x: Seq<char>)
    requires
        s.len() < 0x1_0000,
    ensures
        (interned_id(s, x) as int) < interned_table(s, x).len(),
        interned_table(s, x)[interned_id(s, x) as int] == x,
{
    lemma_position(s, x);
}

/// Interning a label a second time changes nothing and hands out the same id.
pub proof fn lemma_intern_idempotent(s: Seq<Seq<char>>, x: Seq<char>)
    ensures
        interned_table(interned_table(s, x), x) == interned_table(s, x),
        interned_id(interned_table(s, x), x) == interned_id(s, x),
{
    lemma_position(s, x);
    if position(s, x) < 0 {
        let t = s.push(x);
        assert(t.drop_last() =~= s);
        assert(position(t, x) == s.len());
    }
}



/// The list-valued effects, in this order: on-hits, current-health on-hits,
/// stacking damage amps, flat damage amps, burns, engage actives, energized
/// procs.
pub const N_LISTS: usize = 7;

/// The unique passives: spellblade, attack-speed stacking, phantom hits,
/// kraken, alternating pen, magic crit, ult burn, navori cdr, flurry,
/// execute, giant slayer, stormsurge, ability mana proc, ability proc once,
/// armor shred, mr shred, ability amp stacking, mana active, on-ult cast,
/// ult attack steroid, hit-pair proc, nth-hit proc, hypershot, opener
/// lethality, first-attack bonus, first-attack crit floor, attack amp.
pub const N_SINGLETONS: usize = 27;

/// One item's effects, by number: for each list-valued kind the effects it
/// carries, in order, and for each unique passive the one it carries, if
/// any.
pub struct ItemFx {
    pub lists: Vec<Vec<u32>>,
    pub singles: Vec<Option<u32>>,
}

/// A build's merged effects, by number, laid out as an item's are.
pub struct Fx {
    pub lists: Vec<Vec<u32>>,
    pub singles: Vec<Option<u32>>,
}

impl ItemFx {
    /// Every kind and every passive has its slot.
    pub open spec fn wf(&self) -> bool {
        self.lists@.len() == N_LISTS && self.singles@.len() == N_SINGLETONS
    }
}

impl Fx {
    /// Every kind and every passive has its slot.
    pub open spec fn wf(&self) -> bool {
        self.lists@.len() == N_LISTS && self.singles@.len() == N_SINGLETONS
    }
}

/// Every item has every slot.
pub open spec fn all_wf(items: Seq<ItemFx>) -> bool {
    forall|i: int| 0 <= i < items.len() ==> (#[trigger] items[i]).wf()
}

/// The effects of kind `k` over `items`: each item's, in item order.
pub open spec fn merged_list(items: Seq<ItemFx>, k: int) -> Seq<u32>
    decreases items.len(),
{
    if items.len() == 0 {
        Seq::empty()
    } else {
        merged_list(items.drop_last(), k) + items.last().lists@[k]@
    }
}

/// The unique passive `s` over `items`: the first item's that carries one.
pub open spec fn first_single(items: Seq<ItemFx>, s: int) -> Option<u32>
    decreases items.len(),
{
    if items.len() == 0 {
        None
    } else {
        match first_single(items.drop_last(), s) {
            Some(h) => Some(h),
            None => items.last().singles@[s],
        }
    }
}

impl Fx {
    /// A build's merged effects, its items in build order.
    pub fn merge(items: &Vec<ItemFx>) -> (m: Fx)
        requires
            all_wf(items@),
        ensures
            m.lists@.len() == N_LISTS,
            m.singles@.len() == N_SINGLETONS,
            forall|k: int| 0 <= k < N_LISTS ==> #[trigger] m.lists@[k]@ == merged_list(items@, k),
            forall|s: int| 0 <= s < N_SINGLETONS ==> #[trigger] m.singles@[s] == first_single(items@, s),
    {
        let mut lists: Vec<Vec<u32>> = Vec::new();
        let mut k: usize = 0;
        while k < N_LISTS
            invariant
                k <= N_LISTS,
                all_wf(items@),
                lists@.len() == k,
                forall|q: int| 0 <= q < k ==> #[trigger] lists@[q]@ == merged_list(items@, q),
            decreases N_LISTS - k,
        {
            let mut acc: Vec<u32> = Vec::new();
            let mut i: usize = 0;
            while i < items.len()
                invariant
                    k < N_LISTS,
                    i <= items@.len(),
                    all_wf(items@),
                    acc@ == merged_list(items@.take(i as int), k as int),
                decreases items@.len() - i,
            {
                assert(items@[i as int].wf());
                let part = &items[i].lists[k];
                let ghost acc0 = acc@;
                let mut j: usize = 0;
                while j < part.len()
                    invariant
                        j <= part@.len(),
                        acc@ == acc0 + part@.take(j as int),
                    decreases part@.len() - j,
                {
                    acc.push(part[j]);
                    proof {
                        assert(acc0 + part@.take(j as int + 1) =~= (acc0 + part@.take(j as int)).push(part@[j as int]));
                    }
                    j += 1;
                }
                proof {
                    assert(part@.take(j as int) =~= part@);
                    assert(items@.take(i as int + 1).drop_last() =~= items@.take(i as int));
                }
                i += 1;
            }
            proof {
                assert(items@.take(i as int) =~= items@);
            }
            lists.push(acc);
            k += 1;
        }
        let mut singles: Vec<Option<u32>> = Vec::new();
        let mut s: usize = 0;
        while s < N_SINGLETONS
            invariant
                s <= N_SINGLETONS,
                all_wf(items@),
                singles@.len() == s,
                forall|q: int| 0 <= q < s ==> #[trigger] singles@[q] == first_single(items@, q),
            decreases N_SINGLETONS - s,
        {
            let mut v: Option<u32> = None;
            let mut i: usize = 0;
            while i < items.len()
                invariant
                    s < N_SINGLETONS,
                    i <= items@.len(),
                    all_wf(items@),
                    v == first_single(items@.take(i as int), s as int),
                decreases items@.len() - i,
            {
                assert(items@[i as int].wf());
                proof {
                    assert(items@.take(i as int + 1).drop_last() =~= items@.take(i as int));
                }
                if v.is_none() {
                    v = items[i].singles[s];
                }
                i += 1;
            }
            proof {
                assert(items@.take(i as int) =~= items@);
            }
            singles.push(v);
            s += 1;
        }
        Fx { lists, singles }
    }
}

/// Merging a build in two halves and then the two results merges the whole
/// build: lists concatenate, and a passive comes from the first half when
/// it has one.
pub proof fn lemma_merge_split(a: Seq<ItemFx>, b: Seq<ItemFx>, k: int, s: int)
    ensures
        merged_list(a + b, k) == merged_list(a, k) + merged_list(b, k),
        first_single(a + b, s) == match first_single(a, s) {
            Some(h) => Some(h),
            None => first_single(b, s),
        },
    decreases b.len(),
{
    if b.len() == 0 {
        assert(a + b =~= a);
        assert(merged_list(a, k) + merged_list(b, k) =~= merged_list(a, k));
    } else {
        assert((a + b).drop_last() =~= a + b.drop_last());
        lemma_merge_split(a, b.drop_last(), k, s);
        assert(merged_list(a + b, k) =~= merged_list(a, k) + merged_list(b, k));
    }
}

/// The merge of a single item is that item's effects: each list is the
/// item's list, each passive the item's. With `lemma_merge_split`, every
/// merged list is the items' lists one after another, and every passive the
/// first item's that carries it.
pub proof fn lemma_merge_single(it: ItemFx, k: int, s: int)
    ensures
        merged_list(seq![it], k) == it.lists@[k]@,
        first_single(seq![it], s) == it.singles@[s],
{
    let one = seq![it];
    assert(one.drop_last() =~= Seq::<ItemFx>::empty());
    assert(one.last() == it);
    assert(merged_list(one.drop_last(), k) =~= Seq::<u32>::empty());
    assert(first_single(one.drop_last(), s) is None);
    assert(merged_list(one, k) =~= it.lists@[k]@);
}

/// Merging a build and then appending one more item's effects is merging the
/// longer build: the new item's list comes after the build's, and its
/// passive counts only where the build carried none.
pub proof fn lemma_merge_push(items: Seq<ItemFx>, it: ItemFx, k: int, s: int)
    ensures
        merged_list(items.push(it), k) == merged_list(items, k) + it.lists@[k]@,
        first_single(items.push(it), s) == match first_single(items, s) {
            Some(h) => Some(h),
            None => it.singles@[s],
        },
{
    lemma_merge_split(items, seq![it], k, s);
    lemma_merge_single(it, k, s);
    assert(items + seq![it] =~= items.push(it));
}

/// The first item carrying a unique passive is the one whose passive the
/// merge keeps.
pub proof fn lemma_first_wins(items: Seq<ItemFx>, s: int, i: int)
    requires
        0 <= i < items.len(),
        items[i].singles@[s] is Some,
        forall|j: int| 0 <= j < i ==> (#[trigger] items[j]).singles@[s] is None,
    ensures
        first_single(items, s) == items[i].singles@[s],
    decreases items.len(),
{
    if i < items.len() - 1 {
        lemma_first_wins(items.drop_last(), s, i);
    } else {
        lemma_none_before(items.drop_last(), s);
    }
}

/// A kind each item carries at most one of (every kind but the on-hits, in
/// the item data) merges to at most one effect per item: a build of `n`
/// items stacks at most `n` burns.
pub proof fn lemma_at_most_one_per_item(items: Seq<ItemFx>, k: int)
    requires
        forall|i: int| 0 <= i < items.len() ==> (#[trigger] items[i]).lists@[k]@.len() <= 1,
    ensures
        merged_list(items, k).len() <= items.len(),
    decreases items.len(),
{
    if items.len() > 0 {
        let d = items.drop_last();
        assert forall|i: int| 0 <= i < d.len() implies (#[trigger] d[i]).lists@[k]@.len() <= 1 by {
            assert(d[i] == items[i]);
        }
        lemma_at_most_one_per_item(d, k);
        assert(items[items.len() - 1].lists@[k]@.len() <= 1);
    }
}

proof fn lemma_none_before(items: Seq<ItemFx>, s: int)
    requires
        forall|j: int| 0 <= j < items.len() ==> (#[trigger] items[j]).singles@[s] is None,
    ensures
        first_single(items, s) is None,
    decreases items.len(),
{
    if items.len() > 0 {
        lemma_none_before(items.drop_last(), s);
    }
}

} // verus!

//! Every k-element combination of a list, in the order Python's
//! `itertools.combinations` yields them: by position, lexicographically.

use vstd::prelude::*;

verus! {

/// `c` holds strictly increasing positions below `n`.
pub open spec fn increasing_below(c: Seq<int>, n: int) -> bool {
    &&& forall|j: int| 0 <= j < c.len() ==> 0 <= #[trigger] c[j] < n
    &&& forall|a: int, b: int| 0 <= a < b < c.len() ==> c[a] < c[b]
}

/// `c` is a choice of `k` of the positions `0..n`, written in increasing order.
pub open spec fn is_choice(c: Seq<int>, n: int, k: int) -> bool {
    c.len() == k && increasing_below(c, n)
}

/// Lexicographic order on two position lists of one length.
pub open spec fn lex_lt(a: Seq<int>, b: Seq<int>) -> bool {
    &&& a.len() == b.len()
    &&& exists|p: int| first_rise(a, b, p)
}

/// `p` is where `a` and `b` first differ, with `a` below `b` there.
pub open spec fn first_rise(a: Seq<int>, b: Seq<int>, p: int) -> bool {
    &&& 0 <= p < a.len()
    &&& p < b.len()
    &&& a[p] < b[p]
    &&& forall|j: int| 0 <= j < p ==> a[j] == b[j]
}

/// `ix` lists every choice of `k` of the positions `0..n`, each once, in
/// increasing lexicographic order.
pub open spec fn lists_choices(ix: Seq<Seq<int>>, n: int, k: int) -> bool {
    &&& forall|r: int| 0 <= r < ix.len() ==> is_choice(#[trigger] ix[r], n, k)
    &&& forall|r: int, s: int| 0 <= r < s < ix.len() ==> lex_lt(ix[r], ix[s])
    &&& forall|c: Seq<int>| is_choice(c, n, k) ==> exists|r: int| 0 <= r < ix.len() && ix[r] == c
}

/// The items at the positions `c`.
pub open spec fn picks(items: Seq<u32>, c: Seq<int>) -> Seq<u32> {
    c.map_values(|i: int| items[i])
}

/// `out` holds every `k`-element combination of `items` by position, each
/// once, ordered lexicographically by the positions chosen.
pub open spec fn is_combination_listing(items: Seq<u32>, k: int, out: Seq<Seq<u32>>) -> bool {
    exists|ix: Seq<Seq<int>>| #[trigger] lists_choices(ix, items.len() as int, k)
        && ix.len() == out.len()
        && forall|r: int| 0 <= r < out.len() ==> #[trigger] out[r] == picks(items, ix[r])
}

/// Positions as mathematical integers.
pub open spec fn as_ints(v: Seq<usize>) -> Seq<int> {
    v.map_values(|x: usize| x as int)
}

proof fn lemma_gap(c: Seq<int>, n: int, a: int, b: int)
    requires
        increasing_below(c, n),
        0 <= a <= b < c.len(),
    ensures
        c[b] - c[a] >= b - a,
    decreases b - a,
{
    if a < b {
        lemma_gap(c, n, a, b - 1);
        assert(c[b - 1] < c[b]);
    }
}

/// Position `j` of a choice of `k` from `n` lies in `j ..= j + n - k`.
proof fn lemma_choice_bounds(c: Seq<int>, n: int, k: int)
    requires
        is_choice(c, n, k),
    ensures
        forall|j: int| 0 <= j < k ==> j <= #[trigger] c[j] <= j + n - k,
        k > 0 ==> k <= n,
{
    assert forall|j: int| 0 <= j < k implies j <= #[trigger] c[j] <= j + n - k by {
        lemma_gap(c, n, 0, j);
        lemma_gap(c, n, j, k - 1);
    }
    if k > 0 {
        assert(k - 1 <= c[k - 1] <= n - 1);
    }
}

proof fn lemma_find_rise(a: Seq<int>, b: Seq<int>, i: int)
    requires
        a.len() == b.len(),
        0 <= i <= a.len(),
        forall|j: int| 0 <= j < i ==> a[j] == b[j],
        exists|j: int| i <= j < a.len() && a[j] != b[j],
    ensures
        lex_lt(a, b) || lex_lt(b, a),
    decreases a.len() - i,
{
    if a[i] != b[i] {
        if a[i] < b[i] {
            assert(first_rise(a, b, i));
        } else {
            assert(first_rise(b, a, i));
        }
    } else {
        lemma_find_rise(a, b, i + 1);
    }
}

/// Two different lists of one length are ordered one way or the other.
proof fn lemma_lex_total(a: Seq<int>, b: Seq<int>)
    requires
        a.len() == b.len(),
        a != b,
    ensures
        lex_lt(a, b) || lex_lt(b, a),
{
    if forall|j: int| 0 <= j < a.len() ==> a[j] == b[j] {
        assert(a =~= b);
    }
    lemma_find_rise(a, b, 0);
}

/// The order is transitive.
proof fn lemma_lex_trans(a: Seq<int>, b: Seq<int>, c: Seq<int>)
    requires
        lex_lt(a, b),
        lex_lt(b, c),
    ensures
        lex_lt(a, c),
{
    let p = choose|p: int| first_rise(a, b, p);
    let q = choose|q: int| first_rise(b, c, q);
    if p <= q {
        assert(first_rise(a, c, p));
    } else {
        assert(first_rise(a, c, q));
    }
}

/// The order is strict: never both ways, never a list below itself.
proof fn lemma_lex_asym(a: Seq<int>, b: Seq<int>)
    requires
        lex_lt(a, b),
    ensures
        !lex_lt(b, a),
        a != b,
{
    let p = choose|p: int| first_rise(a, b, p);
    if lex_lt(b, a) {
        let q = choose|q: int| first_rise(b, a, q);
        if p < q {
            assert(a[p] == b[p]);
        } else if q < p {
            assert(b[q] == a[q]);
        }
    }
}

/// `0, 1, .., k - 1`: the first choice, below or equal to every other.
proof fn lemma_first_choice(c0: Seq<int>, n: int, k: int)
    requires
        0 <= k <= n,
        c0.len() == k,
        forall|j: int| 0 <= j < k ==> #[trigger] c0[j] == j,
    ensures
        is_choice(c0, n, k),
        forall|d: Seq<int>| is_choice(d, n, k) ==> !lex_lt(d, c0),
{
    assert forall|d: Seq<int>| is_choice(d, n, k) implies !lex_lt(d, c0) by {
        lemma_choice_bounds(d, n, k);
        if lex_lt(d, c0) {
            let p = choose|p: int| first_rise(d, c0, p);
            assert(d[p] >= p);
        }
    }
}

/// A choice whose every position sits at its top value is the last one.
proof fn lemma_last_choice(c: Seq<int>, n: int, k: int)
    requires
        is_choice(c, n, k),
        forall|j: int| 0 <= j < k ==> #[trigger] c[j] == j + n - k,
    ensures
        forall|d: Seq<int>| is_choice(d, n, k) ==> !lex_lt(c, d),
{
    assert forall|d: Seq<int>| is_choice(d, n, k) implies !lex_lt(c, d) by {
        lemma_choice_bounds(d, n, k);
        if lex_lt(c, d) {
            let p = choose|p: int| first_rise(c, d, p);
            assert(d[p] <= p + n - k);
        }
    }
}

/// One step of the odometer: bump the last position below its top value and
/// lay the rest out right after it. The result is the next choice.
proof fn lemma_next_choice(c: Seq<int>, s: Seq<int>, i: int, n: int, k: int)
    requires
        is_choice(c, n, k),
        0 <= i < k,
        c[i] < i + n - k,
        forall|j: int| i < j < k ==> #[trigger] c[j] == j + n - k,
        s.len() == k,
        forall|j: int| 0 <= j < i ==> #[trigger] s[j] == c[j],
        s[i] == c[i] + 1,
        forall|j: int| i < j < k ==> #[trigger] s[j] == s[i] + (j - i),
    ensures
        is_choice(s, n, k),
        lex_lt(c, s),
        forall|d: Seq<int>| is_choice(d, n, k) && lex_lt(c, d) ==> d == s || lex_lt(s, d),
{
    lemma_choice_bounds(c, n, k);
    assert forall|a: int, b: int| 0 <= a < b < s.len() implies s[a] < s[b] by {
        if b < i {
            assert(c[a] < c[b]);
        } else if a < i {
            assert(c[a] < c[i]);
        }
    }
    assert(first_rise(c, s, i));
    assert forall|d: Seq<int>| is_choice(d, n, k) && lex_lt(c, d) implies d == s || lex_lt(s, d) by {
        lemma_choice_bounds(d, n, k);
        let p = choose|p: int| first_rise(c, d, p);
        if p < i {
            assert(first_rise(s, d, p));
        } else if p == i {
            if d[i] > s[i] {
                assert(first_rise(s, d, i));
            } else {
                assert forall|j: int| i < j < k implies d[j] >= #[trigger] s[j] by {
                    lemma_gap(d, n, i, j);
                }
                if d != s {
                    lemma_lex_total(d, s);
                    if lex_lt(d, s) {
                        let q = choose|q: int| first_rise(d, s, q);
                        if q < i {
                            assert(d[q] == c[q]);
                        }
                    }
                }
            }
        } else {
            assert(d[p] <= p + n - k);
        }
    }
}

/// `ix` holds, in increasing order, exactly the choices below `cur`.
pub open spec fn listed_below(ix: Seq<Seq<int>>, cur: Seq<int>, n: int, k: int) -> bool {
    &&& forall|r: int| 0 <= r < ix.len() ==> is_choice(#[trigger] ix[r], n, k)
    &&& forall|r: int, s: int| 0 <= r < s < ix.len() ==> lex_lt(ix[r], ix[s])
    &&& forall|r: int| 0 <= r < ix.len() ==> lex_lt(#[trigger] ix[r], cur)
    &&& forall|c: Seq<int>| is_choice(c, n, k) && lex_lt(c, cur) ==> exists|r: int|
        0 <= r < ix.len() && ix[r] == c
}

/// Listing `cur` and stepping to the next choice `s` keeps the listing
/// exactly the choices below the current one.
proof fn lemma_list_and_step(ix: Seq<Seq<int>>, cur: Seq<int>, s: Seq<int>, n: int, k: int)
    requires
        listed_below(ix, cur, n, k),
        is_choice(cur, n, k),
        lex_lt(cur, s),
        forall|d: Seq<int>| is_choice(d, n, k) && lex_lt(cur, d) ==> d == s || lex_lt(s, d),
    ensures
        listed_below(ix.push(cur), s, n, k),
{
    let ix2 = ix.push(cur);
    assert forall|r: int, t: int| 0 <= r < t < ix2.len() implies lex_lt(ix2[r], ix2[t]) by {
        if t == ix.len() {
            assert(ix2[r] == ix[r]);
        } else {
            assert(ix2[r] == ix[r] && ix2[t] == ix[t]);
        }
    }
    assert forall|r: int| 0 <= r < ix2.len() implies lex_lt(#[trigger] ix2[r], s) by {
        if r < ix.len() {
            assert(ix2[r] == ix[r]);
            lemma_lex_trans(ix[r], cur, s);
        }
    }
    assert forall|c: Seq<int>| is_choice(c, n, k) && lex_lt(c, s) implies exists|r: int|
        0 <= r < ix2.len() && ix2[r] == c by {
        if c == cur {
            assert(ix2[ix.len() as int] == c);
        } else {
            lemma_lex_total(c, cur);
            if lex_lt(cur, c) {
                lemma_lex_asym(c, s);
            } else {
                let r = choose|r: int| 0 <= r < ix.len() && ix[r] == c;
                assert(ix2[r] == c);
            }
        }
    }
}

/// Listing the last choice after everything below it lists them all.
proof fn lemma_list_last(ix: Seq<Seq<int>>, cur: Seq<int>, n: int, k: int)
    requires
        listed_below(ix, cur, n, k),
        is_choice(cur, n, k),
        forall|d: Seq<int>| is_choice(d, n, k) ==> !lex_lt(cur, d),
    ensures
        lists_choices(ix.push(cur), n, k),
{
    let ix2 = ix.push(cur);
    assert forall|r: int| 0 <= r < ix2.len() implies is_choice(#[trigger] ix2[r], n, k) by {
        if r < ix.len() {
            assert(ix2[r] == ix[r]);
        }
    }
    assert forall|r: int, t: int| 0 <= r < t < ix2.len() implies lex_lt(ix2[r], ix2[t]) by {
        if t == ix.len() {
            assert(ix2[r] == ix[r]);
        } else {
            assert(ix2[r] == ix[r] && ix2[t] == ix[t]);
        }
    }
    assert forall|c: Seq<int>| is_choice(c, n, k) implies exists|r: int| 0 <= r < ix2.len()
        && ix2[r] == c by {
        if c == cur {
            assert(ix2[ix.len() as int] == c);
        } else {
            lemma_lex_total(c, cur);
            let r = choose|r: int| 0 <= r < ix.len() && ix[r] == c;
            assert(ix2[r] == c);
        }
    }
}

/// `b` to the power `e`.
pub open spec fn pw(b: int, e: nat) -> int
    decreases e,
{
    if e == 0 {
        1
    } else {
        b * pw(b, (e - 1) as nat)
    }
}

/// The positions read as the digits of a base-`b` numeral, most significant
/// first: it grows with the lexicographic order.
pub open spec fn numeral(c: Seq<int>, b: int) -> int
    decreases c.len(),
{
    if c.len() == 0 {
        0
    } else {
        numeral(c.drop_last(), b) * b + c.last()
    }
}

proof fn lemma_numeral_bounds(c: Seq<int>, b: int)
    requires
        b >= 1,
        forall|j: int| 0 <= j < c.len() ==> 0 <= #[trigger] c[j] < b,
    ensures
        0 <= numeral(c, b) < pw(b, c.len()),
    decreases c.len(),
{
    if c.len() > 0 {
        let d = c.drop_last();
        assert forall|j: int| 0 <= j < d.len() implies 0 <= #[trigger] d[j] < b by {
            assert(d[j] == c[j]);
        }
        lemma_numeral_bounds(d, b);
        let x = numeral(d, b);
        let p = pw(b, d.len());
        assert(pw(b, c.len()) == b * p);
        assert(c.last() == c[c.len() - 1]);
        assert(x * b + c.last() < b * p) by (nonlinear_arith)
            requires
                0 <= x < p,
                0 <= c.last() < b,
        ;
        assert(0 <= x * b) by (nonlinear_arith)
            requires
                0 <= x,
                b >= 1,
        ;
    }
}

proof fn lemma_numeral_grows(c: Seq<int>, d: Seq<int>, b: int, p: int)
    requires
        b >= 1,
        c.len() == d.len(),
        first_rise(c, d, p),
        forall|j: int| 0 <= j < c.len() ==> 0 <= #[trigger] c[j] < b,
        forall|j: int| 0 <= j < d.len() ==> 0 <= #[trigger] d[j] < b,
    ensures
        numeral(c, b) < numeral(d, b),
    decreases c.len(),
{
    let cl = c.drop_last();
    let dl = d.drop_last();
    let last = c.len() - 1;
    if p == last {
        assert(cl =~= dl);
        assert(c.last() == c[last] && d.last() == d[last]);
    } else {
        assert(first_rise(cl, dl, p));
        assert forall|j: int| 0 <= j < cl.len() implies 0 <= #[trigger] cl[j] < b by {
            assert(cl[j] == c[j]);
        }
        assert forall|j: int| 0 <= j < dl.len() implies 0 <= #[trigger] dl[j] < b by {
            assert(dl[j] == d[j]);
        }
        lemma_numeral_grows(cl, dl, b, p);
        lemma_numeral_bounds(cl, b);
        let x = numeral(cl, b);
        let y = numeral(dl, b);
        assert(c.last() == c[last] && d.last() == d[last]);
        assert(x * b + c.last() < y * b + d.last()) by (nonlinear_arith)
            requires
                x < y,
                0 <= c.last() < b,
                0 <= d.last(),
        ;
    }
}

/// Two listings of the choices agree on their first `r` entries.
proof fn lemma_listings_agree(ix1: Seq<Seq<int>>, ix2: Seq<Seq<int>>, n: int, k: int, r: int)
    requires
        lists_choices(ix1, n, k),
        lists_choices(ix2, n, k),
        0 <= r <= ix1.len(),
        r <= ix2.len(),
    ensures
        forall|t: int| 0 <= t < r ==> ix1[t] == ix2[t],
    decreases r,
{
    if r > 0 {
        let q = r - 1;
        lemma_listings_agree(ix1, ix2, n, k, q);
        let a = ix1[q];
        let b = ix2[q];
        assert(is_choice(a, n, k) && is_choice(b, n, k));
        let t = choose|t: int| 0 <= t < ix2.len() && ix2[t] == a;
        let u = choose|u: int| 0 <= u < ix1.len() && ix1[u] == b;
        if t < q {
            assert(ix1[t] == ix2[t]);
            lemma_lex_asym(ix1[t], ix1[q]);
        }
        if u < q {
            assert(ix1[u] == ix2[u]);
            lemma_lex_asym(ix2[u], ix2[q]);
        }
        if t > q {
            assert(lex_lt(b, a));
            if u > q {
                assert(lex_lt(a, b));
                lemma_lex_asym(a, b);
            }
        }
    }
}

/// The choices can be listed in increasing order only one way.
proof fn lemma_listing_of_choices_unique(ix1: Seq<Seq<int>>, ix2: Seq<Seq<int>>, n: int, k: int)
    requires
        lists_choices(ix1, n, k),
        lists_choices(ix2, n, k),
    ensures
        ix1 == ix2,
{
    if ix1.len() > ix2.len() {
        lemma_listings_agree(ix1, ix2, n, k, ix2.len() as int);
        let m = ix2.len() as int;
        assert(is_choice(ix1[m], n, k));
        let t = choose|t: int| 0 <= t < ix2.len() && ix2[t] == ix1[m];
        assert(ix1[t] == ix2[t]);
        lemma_lex_asym(ix1[t], ix1[m]);
    } else if ix2.len() > ix1.len() {
        lemma_listings_agree(ix2, ix1, n, k, ix1.len() as int);
        let m = ix1.len() as int;
        assert(is_choice(ix2[m], n, k));
        let t = choose|t: int| 0 <= t < ix1.len() && ix1[t] == ix2[m];
        assert(ix2[t] == ix1[t]);
        lemma_lex_asym(ix2[t], ix2[m]);
    } else {
        lemma_listings_agree(ix1, ix2, n, k, ix1.len() as int);
        assert(ix1 =~= ix2);
    }
}

/// There is only one listing of the `k`-element combinations of a list:
/// whatever meets `is_combination_listing` is the same sequence of rows.
pub proof fn lemma_combination_listing_unique(
    items: Seq<u32>,
    k: int,
    out1: Seq<Seq<u32>>,
    out2: Seq<Seq<u32>>,
)
    requires
        is_combination_listing(items, k, out1),
        is_combination_listing(items, k, out2),
    ensures
        out1 == out2,
{
    let n = items.len() as int;
    let ix1 = choose|ix: Seq<Seq<int>>| #[trigger] lists_choices(ix, n, k) && ix.len() == out1.len()
        && forall|r: int| 0 <= r < out1.len() ==> #[trigger] out1[r] == picks(items, ix[r]);
    let ix2 = choose|ix: Seq<Seq<int>>| #[trigger] lists_choices(ix, n, k) && ix.len() == out2.len()
        && forall|r: int| 0 <= r < out2.len() ==> #[trigger] out2[r] == picks(items, ix[r]);
    lemma_listing_of_choices_unique(ix1, ix2, n, k);
    assert forall|r: int| 0 <= r < out1.len() implies out1[r] == out2[r] by {
        assert(out1[r] == picks(items, ix1[r]));
        assert(out2[r] == picks(items, ix2[r]));
    }
    assert(out1 =~= out2);
}

/// The items at positions `idx`.
fn pick(items: &Vec<u32>, idx: &Vec<usize>) -> (r: Vec<u32>)
    requires
        forall|j: int| 0 <= j < idx@.len() ==> #[trigger] idx@[j] < items@.len(),
    ensures
        r@ == picks(items@, as_ints(idx@)),
{
    let mut r: Vec<u32> = Vec::new();
    let mut j: usize = 0;
    while j < idx.len()
        invariant
            j <= idx@.len(),
            forall|t: int| 0 <= t < idx@.len() ==> #[trigger] idx@[t] < items@.len(),
            r@ =~= picks(items@, as_ints(idx@)).take(j as int),
        decreases idx@.len() - j,
    {
        r.push(items[idx[j]]);
        j += 1;
    }
    assert(picks(items@, as_ints(idx@)).take(j as int) =~= picks(items@, as_ints(idx@)));
    r
}

/// Every `k`-element combination of `items`, in the order Python's
/// `itertools.combinations(items, k)` yields them: positions chosen in
/// increasing order, combinations in lexicographic order of their positions.
pub fn combinations(items: &Vec<u32>, k: usize) -> (out: Vec<Vec<u32>>)
    ensures
        is_combination_listing(items@, k as int, out.deep_view()),
{
    let n = items.len();
    let mut out: Vec<Vec<u32>> = Vec::new();
    let ghost ni = n as int;
    let ghost ki = k as int;
    if k > n {
        assert(lists_choices(Seq::empty(), ni, ki)) by {
            assert forall|c: Seq<int>| is_choice(c, ni, ki) implies exists|r: int|
                0 <= r < 0 && Seq::<Seq<int>>::empty()[r] == c by {
                lemma_choice_bounds(c, ni, ki);
            }
        }
        assert(out.deep_view() =~= Seq::empty());
        return out;
    }
    let mut idx: Vec<usize> = Vec::new();
    while idx.len() < k
        invariant
            idx@.len() <= k,
            forall|j: int| 0 <= j < idx@.len() ==> #[trigger] idx@[j] == j,
        decreases k - idx@.len(),
    {
        idx.push(idx.len());
    }
    let ghost mut ix: Seq<Seq<int>> = Seq::empty();
    proof {
        lemma_first_choice(as_ints(idx@), ni, ki);
    }
    loop
        invariant
            n == items@.len(),
            ni == n,
            ki == k,
            k <= n,
            idx@.len() == k,
            is_choice(as_ints(idx@), ni, ki),
            ix.len() == out.deep_view().len(),
            listed_below(ix, as_ints(idx@), ni, ki),
            forall|r: int| 0 <= r < ix.len() ==> #[trigger] out.deep_view()[r] == picks(items@, ix[r]),
        decreases pw(ni + 1, k as nat) - numeral(as_ints(idx@), ni + 1),
    {
        let ghost cur = as_ints(idx@);
        proof {
            lemma_choice_bounds(cur, ni, ki);
            assert forall|j: int| 0 <= j < idx@.len() implies #[trigger] idx@[j] < items@.len() by {
                assert(cur[j] == idx@[j] as int);
            }
        }
        let row = pick(items, &idx);
        let ghost out0 = out.deep_view();
        out.push(row);
        let ghost ix1 = ix.push(cur);
        assert forall|r: int| 0 <= r < ix1.len() implies #[trigger] out.deep_view()[r] == picks(
            items@,
            ix1[r],
        ) by {
            if r < ix.len() {
                assert(out.deep_view()[r] == out0[r]);
            }
        }
        let mut i: usize = k;
        loop
            invariant_except_break
                i <= k,
                forall|j: int| i <= j < k ==> #[trigger] idx@[j] == j + n - k,
            invariant
                n == items@.len(),
                ni == n,
                ki == k,
                k <= n,
                idx@.len() == k,
                cur == as_ints(idx@),
                is_choice(cur, ni, ki),
                listed_below(ix, cur, ni, ki),
                ix1 == ix.push(cur),
                ix1.len() == out.deep_view().len(),
                forall|r: int| 0 <= r < ix1.len() ==> #[trigger] out.deep_view()[r] == picks(
                    items@,
                    ix1[r],
                ),
            ensures
                i < k,
                idx@[i as int] != i + n - k,
                forall|j: int| i < j < k ==> #[trigger] idx@[j] == j + n - k,
            decreases i,
        {
            if i == 0 {
                proof {
                    lemma_last_choice(cur, ni, ki);
                    lemma_list_last(ix, cur, ni, ki);
                }
                return out;
            }
            i -= 1;
            if idx[i] != i + (n - k) {
                break;
            }
            if i == 0 {
                proof {
                    lemma_last_choice(cur, ni, ki);
                    lemma_list_last(ix, cur, ni, ki);
                }
                return out;
            }
        }
        proof {
            assert(cur[i as int] == idx@[i as int] as int);
        }
        let bumped = idx[i] + 1;
        idx.set(i, bumped);
        let mut j: usize = i + 1;
        while j < k
            invariant
                i < j <= k,
                k <= n,
                idx@.len() == k,
                cur.len() == k,
                idx@[i as int] == cur[i as int] + 1,
                cur[i as int] < i + n - k,
                forall|t: int| 0 <= t < i ==> #[trigger] idx@[t] == cur[t],
                forall|t: int| i < t < j ==> #[trigger] idx@[t] == idx@[i as int] + (t - i),
            decreases k - j,
        {
            let v = idx[j - 1] + 1;
            idx.set(j, v);
            j += 1;
        }
        proof {
            let s = as_ints(idx@);
            lemma_next_choice(cur, s, i as int, ni, ki);
            lemma_list_and_step(ix, cur, s, ni, ki);
            ix = ix1;
            let p = choose|p: int| first_rise(cur, s, p);
            lemma_numeral_grows(cur, s, ni + 1, p);
            lemma_numeral_bounds(s, ni + 1);
        }
    }
}

} // verus!

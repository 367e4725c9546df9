//! The fight's discrete rules: the kinds of timed event it schedules, the
//! packed integer rank it breaks ties with, and the pick of the rotation a
//! kit fights with.

use vstd::prelude::*;

verus! {

/// The kinds of timed event, in their tie order (ties at one instant are
/// broken by the kind's name: attack < burn < e_charge < e_release < mal < q
/// < r < ss < w_tick; burns among themselves by their index).
#[derive(Clone, Copy, Debug, PartialEq, Eq, Structural, PartialOrd, Ord)]
pub enum Kind {
    Attack,
    Burn(usize),
    ECharge,
    ERelease,
    Mal,
    Q,
    R,
    Ss,
    WTick,
}

/// Rank of `Kind::Attack`; each kind's rank is its declaration ordinal in
/// the high half-word and, for a burn, the burn's index in the low one.
pub const R_ATTACK: u32 = 0;
pub const R_BURN: u32 = 0x1_0000;
pub const R_ECHARGE: u32 = 0x2_0000;
pub const R_ERELEASE: u32 = 0x3_0000;
pub const R_MAL: u32 = 0x4_0000;
pub const R_Q: u32 = 0x5_0000;
pub const R_R: u32 = 0x6_0000;
pub const R_SS: u32 = 0x7_0000;
pub const R_WTICK: u32 = 0x8_0000;

/// The declaration ordinal of a kind's variant.
pub open spec fn ordinal(k: Kind) -> int {
    match k {
        Kind::Attack => 0,
        Kind::Burn(_) => 1,
        Kind::ECharge => 2,
        Kind::ERelease => 3,
        Kind::Mal => 4,
        Kind::Q => 5,
        Kind::R => 6,
        Kind::Ss => 7,
        Kind::WTick => 8,
    }
}

/// A burn's index, 0 for every other kind.
pub open spec fn burn_index(k: Kind) -> int {
    match k {
        Kind::Burn(i) => i as int,
        _ => 0,
    }
}

/// The order `Kind` is declared in (and derives): by variant first, then
/// by the burn's index.
pub open spec fn kind_lt(a: Kind, b: Kind) -> bool {
    ordinal(a) < ordinal(b) || (ordinal(a) == ordinal(b) && burn_index(a) < burn_index(b))
}

/// A kind the packed rank can carry: a burn's index fits the low half-word.
pub open spec fn packable(k: Kind) -> bool {
    burn_index(k) < 0x1_0000
}

/// The packed rank: ordinal in the high half-word, burn index in the low.
pub open spec fn spec_rank(k: Kind) -> int {
    ordinal(k) * 0x1_0000 + burn_index(k)
}

/// The kind a packed rank stands for: the high half-word picks the variant
/// (anything past `Ss` reads as `WTick`), the low half-word a burn's index.
pub open spec fn spec_kind_of(rank: u32) -> Kind {
    let hi = rank as int / 0x1_0000;
    if hi == 0 {
        Kind::Attack
    } else if hi == 1 {
        Kind::Burn((rank as int % 0x1_0000) as usize)
    } else if hi == 2 {
        Kind::ECharge
    } else if hi == 3 {
        Kind::ERelease
    } else if hi == 4 {
        Kind::Mal
    } else if hi == 5 {
        Kind::Q
    } else if hi == 6 {
        Kind::R
    } else if hi == 7 {
        Kind::Ss
    } else {
        Kind::WTick
    }
}

/// The scheduler's tie-break key for `k`.
pub fn rank_of(k: Kind) -> (r: u32)
    requires
        packable(k),
    ensures
        r as int == spec_rank(k),
{
    match k {
        Kind::Attack => R_ATTACK,
        Kind::Burn(i) => {
            let lo = i as u32;
            assert(R_BURN | lo == 0x1_0000 + lo) by (bit_vector)
                requires
                    lo < 0x1_0000u32,
                    R_BURN == 0x1_0000u32,
            ;
            R_BURN | lo
        },
        Kind::ECharge => R_ECHARGE,
        Kind::ERelease => R_ERELEASE,
        Kind::Mal => R_MAL,
        Kind::Q => R_Q,
        Kind::R => R_R,
        Kind::Ss => R_SS,
        Kind::WTick => R_WTICK,
    }
}

/// The kind a packed rank stands for.
pub fn kind_of(rank: u32) -> (k: Kind)
    ensures
        k == spec_kind_of(rank),
{
    let hi = rank >> 16;
    let lo = rank & 0xFFFF;
    assert(hi == rank / 0x1_0000 && lo == rank % 0x1_0000) by (bit_vector)
        requires
            hi == rank >> 16,
            lo == rank & 0xFFFF,
    ;
    match hi {
        0 => Kind::Attack,
        1 => Kind::Burn(lo as usize),
        2 => Kind::ECharge,
        3 => Kind::ERelease,
        4 => Kind::Mal,
        5 => Kind::Q,
        6 => Kind::R,
        7 => Kind::Ss,
        _ => Kind::WTick,
    }
}


/// Packing then unpacking gives the kind back, for every kind the rank can
/// carry.
pub proof fn lemma_rank_round_trip(k: Kind)
    requires
        packable(k),
    ensures
        0 <= spec_rank(k) <= u32::MAX,
        spec_kind_of(spec_rank(k) as u32) == k,
{
    let r = spec_rank(k);
    if let Kind::Burn(i) = k {
        assert(r / 0x1_0000 == 1 && r % 0x1_0000 == i);
    }
}

/// The packed rank orders kinds exactly as their declared order does, and
/// two kinds share a rank only when they are the same kind.
pub proof fn lemma_rank_order(a: Kind, b: Kind)
    requires
        packable(a),
        packable(b),
    ensures
        spec_rank(a) < spec_rank(b) <==> kind_lt(a, b),
        spec_rank(a) == spec_rank(b) <==> a == b,
{
}

/// `a` comes before `b` in the declared order.
fn kind_less(a: Kind, b: Kind) -> (r: bool)
    ensures
        r == kind_lt(a, b),
{
    let (oa, ia) = ordinal_and_index(a);
    let (ob, ib) = ordinal_and_index(b);
    oa < ob || (oa == ob && ia < ib)
}

/// A kind's ordinal and burn index.
fn ordinal_and_index(k: Kind) -> (r: (u32, usize))
    ensures
        r.0 as int == ordinal(k),
        r.1 as int == burn_index(k),
{
    match k {
        Kind::Attack => (0, 0),
        Kind::Burn(i) => (1, i),
        Kind::ECharge => (2, 0),
        Kind::ERelease => (3, 0),
        Kind::Mal => (4, 0),
        Kind::Q => (5, 0),
        Kind::R => (6, 0),
        Kind::Ss => (7, 0),
        Kind::WTick => (8, 0),
    }
}

/// Runs the packed rank against the declared order over every plain kind
/// and the first nine burns: each round-trips through `kind_of`, and every
/// pair compares (`<` and `==`) by rank as it does by kind. True when every
/// check holds, which the rank laws above guarantee.
pub fn check_rank_order() -> (ok: bool)
    ensures
        ok,
{
    let mut all: Vec<Kind> = vec![Kind::Attack, Kind::ECharge, Kind::ERelease, Kind::Mal, Kind::Q,
        Kind::R, Kind::Ss, Kind::WTick];
    let mut i: usize = 0;
    while i < 9
        invariant
            i <= 9,
            all@.len() == 8 + i,
            forall|j: int| 0 <= j < all@.len() ==> packable(#[trigger] all@[j]),
        decreases 9 - i,
    {
        all.push(Kind::Burn(i));
        i += 1;
    }
    let mut ok = true;
    let n = all.len();
    let mut x: usize = 0;
    while x < n
        invariant
            n == all@.len(),
            x <= n,
            ok,
            forall|j: int| 0 <= j < all@.len() ==> packable(#[trigger] all@[j]),
        decreases n - x,
    {
        let a = all[x];
        proof {
            lemma_rank_round_trip(a);
        }
        if kind_of(rank_of(a)) != a {
            ok = false;
        }
        let mut y: usize = 0;
        while y < n
            invariant
                n == all@.len(),
                y <= n,
                ok,
                packable(a),
                forall|j: int| 0 <= j < all@.len() ==> packable(#[trigger] all@[j]),
            decreases n - y,
        {
            let b = all[y];
            proof {
                lemma_rank_order(a, b);
            }
            if (rank_of(a) < rank_of(b)) != kind_less(a, b) {
                ok = false;
            }
            if (rank_of(a) == rank_of(b)) != (a == b) {
                ok = false;
            }
            y += 1;
        }
        x += 1;
    }
    ok
}

/// The hand-written rotations a kit can name.
#[derive(Clone, Copy, Debug, PartialEq, Eq, Structural)]
pub enum DriverId {
    Kayle,
    Vladimir,
}

/// The champions with a hand-written rotation.
pub const DRIVERS: [&'static str; 2] = ["kayle", "vladimir"];

/// What the rotation pick reads of a champion's kit: the champion's name
/// and the rotation its encoding names, if any.
pub struct Kit {
    pub champion: String,
    pub driver: Option<DriverId>,
}

/// The error a kit without a rotation gets.
pub open spec fn no_driver_message(champion: Seq<char>) -> Seq<char> {
    "no engine driver for '"@ + champion
        + "' \u{2014} a kit encoding needs matching rotation logic in engine/src/drivers.rs"@
}

/// The error a kit without a rotation gets.
pub fn no_driver(kit: &Kit) -> (r: String)
    ensures
        r@ == no_driver_message(kit.champion@),
{
    let mut r = String::from_str("no engine driver for '");
    r.append(kit.champion.as_str());
    r.append("' \u{2014} a kit encoding needs matching rotation logic in engine/src/drivers.rs");
    r
}

/// The rotation a kit fights with: the one its encoding names, or the
/// no-driver error.
pub fn driver_for(kit: &Kit) -> (r: Result<DriverId, String>)
    ensures
        match kit.driver {
            Some(d) => r == Ok::<DriverId, String>(d),
            None => r matches Err(msg) && msg@ == no_driver_message(kit.champion@),
        },
{
    match kit.driver {
        Some(d) => Ok(d),
        None => Err(no_driver(kit)),
    }
}

} // verus!

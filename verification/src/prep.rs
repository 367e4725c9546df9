//! The discrete half of a fight's setup: which unique passives a build
//! carries, settled once into one word of flags; whether any damage amp
//! applies; the cap on the burns a build may stack; and the fast damage
//! path a fight takes when nothing it would branch on is set.

use vstd::prelude::*;

use crate::fx::{lemma_at_most_one_per_item, merged_list, Fx, ItemFx, N_SINGLETONS};

verus! {

/// Flag bits, one per unique passive (the energized procs, a list, count as
/// one), in bit order.
pub const F_HYPERSHOT: u32 = 0x1;
pub const F_SHOJIN: u32 = 0x2;
pub const F_MANA_ACTIVE: u32 = 0x4;
pub const F_ALT_PEN: u32 = 0x8;
pub const F_ARMOR_SHRED: u32 = 0x10;
pub const F_OPENER_LETH: u32 = 0x20;
pub const F_ULT_BURN: u32 = 0x40;
pub const F_MR_SHRED: u32 = 0x80;
pub const F_MAGIC_CRIT: u32 = 0x100;
pub const F_PROC_ONCE: u32 = 0x200;
pub const F_STORMSURGE: u32 = 0x400;
pub const F_EXECUTE: u32 = 0x800;
pub const F_NAVORI: u32 = 0x1000;
pub const F_FLURRY: u32 = 0x2000;
pub const F_PHANTOM: u32 = 0x4000;
pub const F_KRAKEN: u32 = 0x8000;
pub const F_AS_STACKING: u32 = 0x1_0000;
pub const F_SUNDERED: u32 = 0x2_0000;
pub const F_ULT_STEROID: u32 = 0x4_0000;
pub const F_ENERGIZED: u32 = 0x8_0000;
pub const F_NTH_HIT: u32 = 0x10_0000;
pub const F_FIRST_ATTACK: u32 = 0x20_0000;
pub const F_SPELLBLADE: u32 = 0x40_0000;
pub const F_ON_ULT_CAST: u32 = 0x80_0000;
pub const F_HIT_PAIR: u32 = 0x100_0000;
pub const F_MANA_PROC: u32 = 0x200_0000;

/// How many flag bits there are.
pub const N_FLAGS: u32 = 26;

/// The bit of flag `F_ENERGIZED`, the one a list sets.
pub const ENERGIZED_BIT: u32 = 19;

/// The bits the damage routine's own body branches on.
pub const DEAL_FLAGS: u32 = F_HYPERSHOT | F_SHOJIN | F_MANA_ACTIVE | F_ARMOR_SHRED | F_MR_SHRED
    | F_MAGIC_CRIT | F_PROC_ONCE | F_STORMSURGE | F_EXECUTE;

/// Most burns one build can stack.
pub const MAX_BURNS: usize = 8;

/// Where the merged effects keep the stacking damage amps, the flat damage
/// amps, the burns and the energized procs, and Giant Slayer.
pub const LIST_DMG_AMPS: usize = 2;
pub const LIST_FLAT_AMPS: usize = 3;
pub const LIST_BURNS: usize = 4;
pub const LIST_ENERGIZED: usize = 6;
pub const PASSIVE_GIANT_SLAYER: usize = 10;

/// Flag bit `k` as a word.
pub open spec fn flag(k: int) -> u32 {
    1u32 << (k as u32)
}

/// The unique passive whose presence sets flag bit `bit` (bit
/// `ENERGIZED_BIT` is set by a list instead).
pub open spec fn passive_of(bit: int) -> int {
    if bit == 0 { 22 }        // hypershot
    else if bit == 1 { 16 }   // ability amp stacking
    else if bit == 2 { 17 }   // mana active
    else if bit == 3 { 4 }    // alternating pen
    else if bit == 4 { 14 }   // armor shred
    else if bit == 5 { 23 }   // opener lethality
    else if bit == 6 { 6 }    // ult burn
    else if bit == 7 { 15 }   // mr shred
    else if bit == 8 { 5 }    // magic crit
    else if bit == 9 { 13 }   // ability proc once
    else if bit == 10 { 11 }  // stormsurge
    else if bit == 11 { 9 }   // execute
    else if bit == 12 { 7 }   // navori cdr
    else if bit == 13 { 8 }   // flurry
    else if bit == 14 { 2 }   // phantom hits
    else if bit == 15 { 3 }   // kraken
    else if bit == 16 { 1 }   // attack-speed stacking
    else if bit == 17 { 25 }  // first-attack crit floor
    else if bit == 18 { 19 }  // ult attack steroid
    else if bit == 20 { 21 }  // nth-hit proc
    else if bit == 21 { 24 }  // first-attack bonus
    else if bit == 22 { 0 }   // spellblade
    else if bit == 23 { 18 }  // on-ult cast
    else if bit == 24 { 20 }  // hit-pair proc
    else { 12 }               // ability mana proc
}

/// The build carries what flag bit `bit` stands for.
pub open spec fn carries(fx: &Fx, bit: int) -> bool {
    if bit == ENERGIZED_BIT {
        fx.lists@[LIST_ENERGIZED as int]@.len() > 0
    } else {
        fx.singles@[passive_of(bit)] is Some
    }
}

/// `flags` has bit `k` set exactly when the build carries what it stands
/// for, and no bit past the last flag.
pub open spec fn flags_of(fx: &Fx, flags: u32) -> bool {
    forall|k: int| 0 <= k < 32 ==> (#[trigger] (flags & flag(k)) != 0) == (k < N_FLAGS && carries(fx, k))
}

proof fn lemma_or_bit(f: u32, i: u32, k: u32)
    requires
        i < 32,
        k < 32,
    ensures
        ((f | (1u32 << i)) & (1u32 << k) != 0) == (i == k || (f & (1u32 << k)) != 0),
{
    assert(((f | (1u32 << i)) & (1u32 << k) != 0) == (i == k || (f & (1u32 << k)) != 0)) by (bit_vector)
        requires
            i < 32,
            k < 32,
    ;
}

proof fn lemma_zero_bits(k: u32)
    requires
        k < 32,
    ensures
        (0u32 & (1u32 << k)) == 0,
{
    assert((0u32 & (1u32 << k)) == 0) by (bit_vector);
}

/// The unique passive flag bit `bit` stands for.
fn passive_index(bit: u32) -> (r: usize)
    requires
        bit < N_FLAGS,
        bit != ENERGIZED_BIT,
    ensures
        r as int == passive_of(bit as int),
        r < N_SINGLETONS,
{
    match bit {
        0 => 22,
        1 => 16,
        2 => 17,
        3 => 4,
        4 => 14,
        5 => 23,
        6 => 6,
        7 => 15,
        8 => 5,
        9 => 13,
        10 => 11,
        11 => 9,
        12 => 7,
        13 => 8,
        14 => 2,
        15 => 3,
        16 => 1,
        17 => 25,
        18 => 19,
        20 => 21,
        21 => 24,
        22 => 0,
        23 => 18,
        24 => 20,
        _ => 12,
    }
}

/// Which unique passives the build carries, as one word of flags: bit `k`
/// is set exactly when the build carries what it stands for.
pub fn passive_flags(fx: &Fx) -> (r: u32)
    requires
        fx.wf(),
    ensures
        flags_of(fx, r),
{
    let mut flags: u32 = 0;
    let mut bit: u32 = 0;
    proof {
        assert forall|k: int| 0 <= k < 32 implies (#[trigger] (flags & flag(k)) != 0) == false by {
            lemma_zero_bits(k as u32);
        }
    }
    while bit < N_FLAGS
        invariant
            fx.wf(),
            bit <= N_FLAGS,
            forall|k: int| 0 <= k < 32 ==> (#[trigger] (flags & flag(k)) != 0) == (k < bit && carries(fx, k)),
        decreases N_FLAGS - bit,
    {
        let on = if bit == ENERGIZED_BIT {
            fx.lists[LIST_ENERGIZED].len() > 0
        } else {
            fx.singles[passive_index(bit)].is_some()
        };
        let f0 = flags;
        if on {
            flags = flags | (1u32 << bit);
        }
        proof {
            assert forall|k: int| 0 <= k < 32 implies (#[trigger] (flags & flag(k)) != 0) == (k < bit + 1
                && carries(fx, k)) by {
                if on {
                    lemma_or_bit(f0, bit, k as u32);
                }
                assert((f0 & flag(k)) != 0 == (k < bit && carries(fx, k)));
            }
        }
        bit += 1;
    }
    flags
}

/// What the discrete half of a fight's setup settles: the passive flags,
/// whether any damage amp applies, and how many burns the build stacks.
pub struct Settled {
    pub flags: u32,
    /// No damage amp of any kind: the amp multiplier is the literal 1.0.
    pub amp_is_one: bool,
    pub has_dmg_amps: bool,
    pub n_burns: usize,
}

/// Why a build cannot be fought.
#[derive(Clone, Copy, Debug, PartialEq, Eq, Structural)]
pub enum PrepError {
    /// The build stacks this many burns, more than `MAX_BURNS`.
    TooManyBurns(usize),
}

/// The discrete half of a fight's setup for the build's merged effects:
/// refused when it stacks more than `MAX_BURNS` burns; otherwise its
/// passive flags, whether it carries no damage amp (no stacking amp, no
/// flat amp, no Giant Slayer), whether it carries a stacking amp, and its
/// burn count.
pub fn settle(fx: &Fx) -> (r: Result<Settled, PrepError>)
    requires
        fx.wf(),
    ensures
        match r {
            Err(e) => e == PrepError::TooManyBurns(fx.lists@[LIST_BURNS as int]@.len() as usize)
                && fx.lists@[LIST_BURNS as int]@.len() > MAX_BURNS,
            Ok(s) => {
                &&& fx.lists@[LIST_BURNS as int]@.len() <= MAX_BURNS
                &&& s.n_burns == fx.lists@[LIST_BURNS as int]@.len()
                &&& flags_of(fx, s.flags)
                &&& s.has_dmg_amps == (fx.lists@[LIST_DMG_AMPS as int]@.len() > 0)
                &&& s.amp_is_one == (fx.lists@[LIST_DMG_AMPS as int]@.len() == 0
                    && fx.lists@[LIST_FLAT_AMPS as int]@.len() == 0
                    && fx.singles@[PASSIVE_GIANT_SLAYER as int] is None)
            },
        },
{
    let n_burns = fx.lists[LIST_BURNS].len();
    if n_burns > MAX_BURNS {
        return Err(PrepError::TooManyBurns(n_burns));
    }
    let flags = passive_flags(fx);
    let has_dmg_amps = fx.lists[LIST_DMG_AMPS].len() > 0;
    let amp_is_one = fx.lists[LIST_DMG_AMPS].len() == 0 && fx.lists[LIST_FLAT_AMPS].len() == 0
        && fx.singles[PASSIVE_GIANT_SLAYER].is_none();
    Ok(Settled { flags, amp_is_one, has_dmg_amps, n_burns })
}

/// A fight's flags: the build's, with the execute cleared on the
/// counterfactual leg that runs as if no item carried one.
pub fn fight_flags(flags: u32, no_execute: bool) -> (r: u32)
    ensures
        forall|k: int| 0 <= k < 32 ==> (#[trigger] (r & flag(k)) != 0) == ((flags & flag(k)) != 0
            && !(no_execute && k == 11)),
{
    let r = if no_execute {
        flags & !F_EXECUTE
    } else {
        flags
    };
    proof {
        assert forall|k: int| 0 <= k < 32 implies (#[trigger] (r & flag(k)) != 0) == ((flags & flag(k))
            != 0 && !(no_execute && k == 11)) by {
            let kk = k as u32;
            if no_execute {
                assert(((flags & !0x800u32) & (1u32 << kk) != 0) == ((flags & (1u32 << kk)) != 0
                    && kk != 11)) by (bit_vector)
                    requires
                        kk < 32,
                ;
            }
        }
    }
    r
}

/// A fight takes the fast damage path when no damage amp applies and none
/// of the bits the damage routine branches on is set.
pub fn takes_simple_deal(amp_is_one: bool, flags: u32) -> (r: bool)
    ensures
        r == (amp_is_one && (flags & F_HYPERSHOT) == 0 && (flags & F_SHOJIN) == 0 && (flags
            & F_MANA_ACTIVE) == 0 && (flags & F_ARMOR_SHRED) == 0 && (flags & F_MR_SHRED) == 0
            && (flags & F_MAGIC_CRIT) == 0 && (flags & F_PROC_ONCE) == 0 && (flags & F_STORMSURGE)
            == 0 && (flags & F_EXECUTE) == 0),
{
    assert(((flags & 0xF97u32) == 0) == ((flags & 0x1u32) == 0 && (flags & 0x2u32) == 0 && (flags
        & 0x4u32) == 0 && (flags & 0x10u32) == 0 && (flags & 0x80u32) == 0 && (flags & 0x100u32)
        == 0 && (flags & 0x200u32) == 0 && (flags & 0x400u32) == 0 && (flags & 0x800u32) == 0))
        by (bit_vector);
    assert(DEAL_FLAGS == 0xF97u32) by (bit_vector);
    amp_is_one && flags & DEAL_FLAGS == 0
}

/// A build of at most `MAX_BURNS` items, each carrying at most one burn as
/// the item data does, merges to at most `MAX_BURNS` burns: the setup never
/// refuses it.
pub proof fn lemma_burn_cap_holds(items: Seq<ItemFx>)
    requires
        items.len() <= MAX_BURNS,
        forall|i: int| 0 <= i < items.len() ==> (#[trigger] items[i]).lists@[LIST_BURNS as int]@.len() <= 1,
    ensures
        merged_list(items, LIST_BURNS as int).len() <= MAX_BURNS,
{
    lemma_at_most_one_per_item(items, LIST_BURNS as int);
}

/// Each flag is set by the passive it is named for, by the singleton layout
/// of the merged effects: spellblade 0, attack-speed stacking 1, phantom
/// hits 2, kraken 3, alternating pen 4, magic crit 5, ult burn 6, navori cdr
/// 7, flurry 8, execute 9, stormsurge 11, ability mana proc 12, ability proc
/// once 13, armor shred 14, mr shred 15, ability amp stacking 16, mana
/// active 17, on-ult cast 18, ult attack steroid 19, hit-pair proc 20,
/// nth-hit proc 21, hypershot 22, opener lethality 23, first-attack bonus
/// 24, first-attack crit floor 25; the energized flag by the energized
/// procs' list; and no bit past the named flags is ever set.
pub proof fn lemma_flags_named(fx: &Fx, flags: u32)
    requires
        fx.wf(),
        flags_of(fx, flags),
    ensures
        ((flags & F_HYPERSHOT) != 0) == (fx.singles@[22] is Some),
        ((flags & F_SHOJIN) != 0) == (fx.singles@[16] is Some),
        ((flags & F_MANA_ACTIVE) != 0) == (fx.singles@[17] is Some),
        ((flags & F_ALT_PEN) != 0) == (fx.singles@[4] is Some),
        ((flags & F_ARMOR_SHRED) != 0) == (fx.singles@[14] is Some),
        ((flags & F_OPENER_LETH) != 0) == (fx.singles@[23] is Some),
        ((flags & F_ULT_BURN) != 0) == (fx.singles@[6] is Some),
        ((flags & F_MR_SHRED) != 0) == (fx.singles@[15] is Some),
        ((flags & F_MAGIC_CRIT) != 0) == (fx.singles@[5] is Some),
        ((flags & F_PROC_ONCE) != 0) == (fx.singles@[13] is Some),
        ((flags & F_STORMSURGE) != 0) == (fx.singles@[11] is Some),
        ((flags & F_EXECUTE) != 0) == (fx.singles@[9] is Some),
        ((flags & F_NAVORI) != 0) == (fx.singles@[7] is Some),
        ((flags & F_FLURRY) != 0) == (fx.singles@[8] is Some),
        ((flags & F_PHANTOM) != 0) == (fx.singles@[2] is Some),
        ((flags & F_KRAKEN) != 0) == (fx.singles@[3] is Some),
        ((flags & F_AS_STACKING) != 0) == (fx.singles@[1] is Some),
        ((flags & F_SUNDERED) != 0) == (fx.singles@[25] is Some),
        ((flags & F_ULT_STEROID) != 0) == (fx.singles@[19] is Some),
        ((flags & F_ENERGIZED) != 0) == (fx.lists@[6]@.len() > 0),
        ((flags & F_NTH_HIT) != 0) == (fx.singles@[21] is Some),
        ((flags & F_FIRST_ATTACK) != 0) == (fx.singles@[24] is Some),
        ((flags & F_SPELLBLADE) != 0) == (fx.singles@[0] is Some),
        ((flags & F_ON_ULT_CAST) != 0) == (fx.singles@[18] is Some),
        ((flags & F_HIT_PAIR) != 0) == (fx.singles@[20] is Some),
        ((flags & F_MANA_PROC) != 0) == (fx.singles@[12] is Some),
        flags < 0x400_0000,
{
    assert(flag(0) == F_HYPERSHOT) by (bit_vector);
    assert(flag(1) == F_SHOJIN) by (bit_vector);
    assert(flag(2) == F_MANA_ACTIVE) by (bit_vector);
    assert(flag(3) == F_ALT_PEN) by (bit_vector);
    assert(flag(4) == F_ARMOR_SHRED) by (bit_vector);
    assert(flag(5) == F_OPENER_LETH) by (bit_vector);
    assert(flag(6) == F_ULT_BURN) by (bit_vector);
    assert(flag(7) == F_MR_SHRED) by (bit_vector);
    assert(flag(8) == F_MAGIC_CRIT) by (bit_vector);
    assert(flag(9) == F_PROC_ONCE) by (bit_vector);
    assert(flag(10) == F_STORMSURGE) by (bit_vector);
    assert(flag(11) == F_EXECUTE) by (bit_vector);
    assert(flag(12) == F_NAVORI) by (bit_vector);
    assert(flag(13) == F_FLURRY) by (bit_vector);
    assert(flag(14) == F_PHANTOM) by (bit_vector);
    assert(flag(15) == F_KRAKEN) by (bit_vector);
    assert(flag(16) == F_AS_STACKING) by (bit_vector);
    assert(flag(17) == F_SUNDERED) by (bit_vector);
    assert(flag(18) == F_ULT_STEROID) by (bit_vector);
    assert(flag(19) == F_ENERGIZED) by (bit_vector);
    assert(flag(20) == F_NTH_HIT) by (bit_vector);
    assert(flag(21) == F_FIRST_ATTACK) by (bit_vector);
    assert(flag(22) == F_SPELLBLADE) by (bit_vector);
    assert(flag(23) == F_ON_ULT_CAST) by (bit_vector);
    assert(flag(24) == F_HIT_PAIR) by (bit_vector);
    assert(flag(25) == F_MANA_PROC) by (bit_vector);
    assert(forall|k: int| 0 <= k < 32 ==> (#[trigger] (flags & flag(k)) != 0) == (k < N_FLAGS && carries(fx, k)));
    assert((flags & flag(0)) != 0 == carries(fx, 0));
    assert((flags & flag(1)) != 0 == carries(fx, 1));
    assert((flags & flag(2)) != 0 == carries(fx, 2));
    assert((flags & flag(3)) != 0 == carries(fx, 3));
    assert((flags & flag(4)) != 0 == carries(fx, 4));
    assert((flags & flag(5)) != 0 == carries(fx, 5));
    assert((flags & flag(6)) != 0 == carries(fx, 6));
    assert((flags & flag(7)) != 0 == carries(fx, 7));
    assert((flags & flag(8)) != 0 == carries(fx, 8));
    assert((flags & flag(9)) != 0 == carries(fx, 9));
    assert((flags & flag(10)) != 0 == carries(fx, 10));
    assert((flags & flag(11)) != 0 == carries(fx, 11));
    assert((flags & flag(12)) != 0 == carries(fx, 12));
    assert((flags & flag(13)) != 0 == carries(fx, 13));
    assert((flags & flag(14)) != 0 == carries(fx, 14));
    assert((flags & flag(15)) != 0 == carries(fx, 15));
    assert((flags & flag(16)) != 0 == carries(fx, 16));
    assert((flags & flag(17)) != 0 == carries(fx, 17));
    assert((flags & flag(18)) != 0 == carries(fx, 18));
    assert((flags & flag(19)) != 0 == carries(fx, 19));
    assert((flags & flag(20)) != 0 == carries(fx, 20));
    assert((flags & flag(21)) != 0 == carries(fx, 21));
    assert((flags & flag(22)) != 0 == carries(fx, 22));
    assert((flags & flag(23)) != 0 == carries(fx, 23));
    assert((flags & flag(24)) != 0 == carries(fx, 24));
    assert((flags & flag(25)) != 0 == carries(fx, 25));
    assert((flags & flag(26)) == 0);
    assert((flags & flag(27)) == 0);
    assert((flags & flag(28)) == 0);
    assert((flags & flag(29)) == 0);
    assert((flags & flag(30)) == 0);
    assert((flags & flag(31)) == 0);
    let f26 = flag(26);
    let f27 = flag(27);
    let f28 = flag(28);
    let f29 = flag(29);
    let f30 = flag(30);
    let f31 = flag(31);
    assert(flags < 0x400_0000) by (bit_vector)
        requires
            f26 == 1u32 << 26u32,
            f27 == 1u32 << 27u32,
            f28 == 1u32 << 28u32,
            f29 == 1u32 << 29u32,
            f30 == 1u32 << 30u32,
            f31 == 1u32 << 31u32,
            flags & f26 == 0,
            flags & f27 == 0,
            flags & f28 == 0,
            flags & f29 == 0,
            flags & f30 == 0,
            flags & f31 == 0,
    ;
}

} // verus!

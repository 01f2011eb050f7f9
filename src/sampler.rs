use vstd::prelude::*;
use rand::Rng;
use crate::buff::{total_weight, Buff};

verus! {

/// Extra slots are rolled on a range of `0..SLOT_ROLL_RANGE`.
pub const SLOT_ROLL_RANGE: u32 = 100;

/// A roll below this value opens the second slot.
pub const SECOND_SLOT_CHANCE: u32 = 50;

/// A roll below this value opens the third slot.
pub const THIRD_SLOT_CHANCE: u32 = 30;

/// Relies on rand's `thread_rng` and `Rng::gen_range`: a number drawn from
/// `0..bound`. `gen_range` panics on an empty range, hence `bound > 0`.
#[verifier::external_body]
pub(crate) fn random_below(bound: u32) -> (r: u32)
    requires
        bound > 0,
    ensures
        r < bound,
{
    rand::thread_rng().gen_range(0..bound)
}

/// Weight of the first `k` buffs of `s`.
pub open spec fn prefix_weight(s: Seq<Buff>, k: int) -> nat {
    total_weight(s.take(k))
}

proof fn lemma_prefix_weight_step(s: Seq<Buff>, k: int)
    requires
        0 <= k < s.len(),
    ensures
        prefix_weight(s, k + 1) == prefix_weight(s, k) + s[k].weight(),
{
    assert(s.take(k + 1).drop_last() =~= s.take(k));
}

proof fn lemma_prefix_weight_bounded(s: Seq<Buff>, k: int)
    requires
        0 <= k <= s.len(),
    ensures
        prefix_weight(s, k) <= total_weight(s),
        k < s.len() ==> prefix_weight(s, k) < prefix_weight(s, k + 1),
    decreases s.len() - k,
{
    if k == s.len() {
        assert(s.take(k) =~= s);
    } else {
        lemma_prefix_weight_step(s, k);
        lemma_prefix_weight_bounded(s, k + 1);
    }
}

proof fn lemma_prefix_weight_monotone(s: Seq<Buff>, a: int, b: int)
    requires
        0 <= a <= b <= s.len(),
    ensures
        prefix_weight(s, a) <= prefix_weight(s, b),
    decreases b - a,
{
    if a < b {
        lemma_prefix_weight_step(s, a);
        lemma_prefix_weight_monotone(s, a + 1, b);
    }
}

/// The position whose weight band, among the running totals of `s`,
/// holds `value`.
pub open spec fn pick(s: Seq<Buff>, value: int) -> int {
    choose|i: int| 0 <= i < s.len() && #[trigger] prefix_weight(s, i) <= value < prefix_weight(s, i + 1)
}

/// Only one position's band holds a given value, so `pick` names it.
pub proof fn lemma_pick_unique(s: Seq<Buff>, value: int, i: int)
    requires
        0 <= i < s.len(),
        prefix_weight(s, i) <= value < prefix_weight(s, i + 1),
    ensures
        pick(s, value) == i,
{
    let j = pick(s, value);
    assert(0 <= j < s.len() && prefix_weight(s, j) <= value < prefix_weight(s, j + 1));
    if j < i {
        lemma_prefix_weight_monotone(s, j + 1, i);
    } else if i < j {
        lemma_prefix_weight_monotone(s, i + 1, j);
    }
}

/// A non-empty sequence of buffs has a positive total weight.
pub(crate) proof fn lemma_total_weight_positive(s: Seq<Buff>)
    requires
        s.len() > 0,
    ensures
        total_weight(s) > 0,
{
    lemma_prefix_weight_bounded(s, 0);
    assert(s.take(0) =~= Seq::<Buff>::empty());
}

/// Sum of the weights of `buffs`.
pub fn weight_sum(buffs: &[Buff]) -> (r: u32)
    requires
        total_weight(buffs@) <= u32::MAX,
    ensures
        r == total_weight(buffs@),
{
    let mut sum: u32 = 0;
    let mut i: usize = 0;
    proof {
        assert(buffs@.take(0) =~= Seq::<Buff>::empty());
    }
    while i < buffs.len()
        invariant
            i <= buffs@.len(),
            sum == prefix_weight(buffs@, i as int),
            total_weight(buffs@) <= u32::MAX,
        decreases buffs@.len() - i,
    {
        proof {
            lemma_prefix_weight_step(buffs@, i as int);
            lemma_prefix_weight_bounded(buffs@, i as int + 1);
        }
        sum = sum + buffs[i].percent();
        i = i + 1;
    }
    proof {
        assert(buffs@.take(i as int) =~= buffs@);
    }
    sum
}

/// The position picked by a draw of `value` from `0..total_weight(buffs)`:
/// the first buff whose cumulative weight exceeds `value`.
pub fn pick_index(buffs: &[Buff], value: u32) -> (i: usize)
    requires
        value < total_weight(buffs@),
    ensures
        i < buffs@.len(),
        prefix_weight(buffs@, i as int) <= value < prefix_weight(buffs@, i as int + 1),
        i == pick(buffs@, value as int),
{
    proof {
        assert(buffs@.take(0) =~= Seq::<Buff>::empty());
        if buffs@.len() == 0 {
            assert(buffs@ =~= Seq::<Buff>::empty());
        }
        lemma_prefix_weight_step(buffs@, 0);
    }
    let n: usize = buffs.len();
    let mut i: usize = 0;
    let mut next: u64 = buffs[0].percent() as u64;
    while next <= value as u64
        invariant
            n == buffs@.len(),
            i < buffs@.len(),
            prefix_weight(buffs@, i as int) <= value,
            next == prefix_weight(buffs@, i as int + 1),
            value < total_weight(buffs@),
        decreases buffs@.len() - i,
    {
        proof {
            if i + 1 == buffs@.len() {
                assert(buffs@.take(i + 1) =~= buffs@);
            }
            assert(i + 1 < buffs@.len());
            lemma_prefix_weight_step(buffs@, i as int + 1);
        }
        i = i + 1;
        next = next + buffs[i].percent() as u64;
    }
    proof {
        lemma_pick_unique(buffs@, value as int, i as int);
    }
    i
}

/// Draws a position of `buffs` with probability proportional to the
/// weight of the buff there.
pub fn choose_index(buffs: &[Buff]) -> (i: usize)
    requires
        buffs@.len() > 0,
        total_weight(buffs@) <= u32::MAX,
    ensures
        i < buffs@.len(),
{
    let total = weight_sum(buffs);
    proof {
        lemma_total_weight_positive(buffs@);
    }
    let value = random_below(total);
    pick_index(buffs, value)
}

/// Draws one of `buffs` with probability proportional to its weight.
pub fn choose_buff(buffs: &[Buff]) -> (r: Buff)
    requires
        buffs@.len() > 0,
        total_weight(buffs@) <= u32::MAX,
    ensures
        buffs@.contains(r),
        buffs@.len() == 1 ==> r == buffs@[0],
{
    let i = choose_index(buffs);
    buffs[i]
}

/// Which of the two extra slots take part in a reroll.
#[derive(Clone, Copy, Debug, PartialEq, Eq, Structural)]
pub enum AdditionalSlots {
    Neither,
    SecondOnly,
    ThirdOnly,
    SecondAndThird,
}

impl AdditionalSlots {
    /// The second slot is drawn into.
    pub open spec fn opens_second(self) -> bool {
        self is SecondOnly || self is SecondAndThird
    }

    /// The third slot is drawn into.
    pub open spec fn opens_third(self) -> bool {
        self is ThirdOnly || self is SecondAndThird
    }
}

/// The extra slots opened by two rolls from `0..SLOT_ROLL_RANGE`, one for
/// each slot.
pub fn additional_slots_from_rolls(second_roll: u32, third_roll: u32) -> (r: AdditionalSlots)
    ensures
        r.opens_second() == (second_roll < SECOND_SLOT_CHANCE),
        r.opens_third() == (third_roll < THIRD_SLOT_CHANCE),
{
    let second = second_roll < SECOND_SLOT_CHANCE;
    let third = third_roll < THIRD_SLOT_CHANCE;
    if second && third {
        AdditionalSlots::SecondAndThird
    } else if second {
        AdditionalSlots::SecondOnly
    } else if third {
        AdditionalSlots::ThirdOnly
    } else {
        AdditionalSlots::Neither
    }
}

/// Rolls, independently, whether the second and the third slot open.
pub fn additional_slots() -> (r: AdditionalSlots) {
    let second_roll = random_below(SLOT_ROLL_RANGE);
    let third_roll = random_below(SLOT_ROLL_RANGE);
    additional_slots_from_rolls(second_roll, third_roll)
}

} // verus!

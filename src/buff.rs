use vstd::prelude::*;

verus! {

/// One of the fixed catalogue of buffs a slot can show, each with a
/// relative draw weight given in percent.
#[derive(Clone, Copy, Debug, PartialEq, Eq, Hash, Structural)]
pub enum Buff {
    Elemental,
    HitRate,
    MaxAmmo,
    Attack,
    ChargeDamage,
    ChargeSpeed,
    CritRate,
    CritDamage,
    Defense,
}

/// Number of buffs in the catalogue.
pub const BUFF_COUNT: usize = 9;

impl Buff {
    /// The draw weight of the buff, in percent.
    pub open spec fn weight(self) -> nat {
        match self {
            Buff::Elemental => 10,
            Buff::HitRate => 12,
            Buff::MaxAmmo => 12,
            Buff::Attack => 10,
            Buff::ChargeDamage => 12,
            Buff::ChargeSpeed => 12,
            Buff::CritRate => 12,
            Buff::CritDamage => 10,
            Buff::Defense => 10,
        }
    }

    /// The draw weight of the buff, in percent.
    pub fn percent(&self) -> (r: u32)
        ensures
            r == self.weight(),
    {
        match self {
            Buff::Elemental => 10,
            Buff::HitRate => 12,
            Buff::MaxAmmo => 12,
            Buff::Attack => 10,
            Buff::ChargeDamage => 12,
            Buff::ChargeSpeed => 12,
            Buff::CritRate => 12,
            Buff::CritDamage => 10,
            Buff::Defense => 10,
        }
    }
}

/// The whole catalogue, in declaration order.
pub open spec fn catalog() -> Seq<Buff> {
    seq![
        Buff::Elemental,
        Buff::HitRate,
        Buff::MaxAmmo,
        Buff::Attack,
        Buff::ChargeDamage,
        Buff::ChargeSpeed,
        Buff::CritRate,
        Buff::CritDamage,
        Buff::Defense,
    ]
}

/// Sum of the weights of the buffs in `s`.
pub open spec fn total_weight(s: Seq<Buff>) -> nat
    decreases s.len(),
{
    if s.len() == 0 {
        0
    } else {
        total_weight(s.drop_last()) + s.last().weight()
    }
}

/// No buff weighs more than twelve, so neither does a sequence of them on
/// average.
pub proof fn lemma_total_weight_bound(s: Seq<Buff>)
    ensures
        total_weight(s) <= 12 * s.len(),
    decreases s.len(),
{
    if s.len() > 0 {
        lemma_total_weight_bound(s.drop_last());
    }
}

/// Every buff of the catalogue appears in it, and it has no repeats.
pub proof fn lemma_catalog_complete(b: Buff)
    ensures
        catalog().contains(b),
        catalog().no_duplicates(),
        catalog().len() == BUFF_COUNT,
{
    let c = catalog();
    match b {
        Buff::Elemental => assert(c[0] == b),
        Buff::HitRate => assert(c[1] == b),
        Buff::MaxAmmo => assert(c[2] == b),
        Buff::Attack => assert(c[3] == b),
        Buff::ChargeDamage => assert(c[4] == b),
        Buff::ChargeSpeed => assert(c[5] == b),
        Buff::CritRate => assert(c[6] == b),
        Buff::CritDamage => assert(c[7] == b),
        Buff::Defense => assert(c[8] == b),
    }
}

/// The whole catalogue of buffs, in declaration order.
pub fn all_buffs() -> (r: Vec<Buff>)
    ensures
        r@ == catalog(),
{
    let r = vec![
        Buff::Elemental,
        Buff::HitRate,
        Buff::MaxAmmo,
        Buff::Attack,
        Buff::ChargeDamage,
        Buff::ChargeSpeed,
        Buff::CritRate,
        Buff::CritDamage,
        Buff::Defense,
    ];
    assert(r@ =~= catalog());
    r
}

} // verus!

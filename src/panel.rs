use vstd::prelude::*;
use crate::buff::{
    all_buffs, catalog, lemma_catalog_complete, lemma_total_weight_bound, total_weight, Buff,
    BUFF_COUNT,
};
use crate::sampler::{additional_slots, pick, pick_index, random_below, weight_sum, AdditionalSlots};

verus! {

/// Number of slots on a panel.
pub const SLOT_COUNT: usize = 3;

/// Locking is refused once this many slots are locked.
pub const MAX_LOCK_COUNT: u32 = 2;

/// The state of one slot of a panel.
#[derive(Clone, Copy, Debug, PartialEq, Eq, Structural)]
pub enum SlotState {
    /// No buff is shown in the slot.
    Empty,
    /// The buff may change on reroll.
    Free(Buff),
    /// The buff will not change on reroll.
    Locked(Buff),
}

impl SlotState {
    /// The buff shown in the slot, if any.
    pub open spec fn buff(self) -> Option<Buff> {
        match self {
            SlotState::Empty => None,
            SlotState::Free(b) => Some(b),
            SlotState::Locked(b) => Some(b),
        }
    }

    fn is_locked(&self) -> (r: bool)
        ensures
            r == (*self is Locked),
    {
        match self {
            SlotState::Locked(_) => true,
            _ => false,
        }
    }
}

/// A panel of three slots together with the resources spent on it.
pub struct Simulation {
    /// Custom modules spent on rerolls and locks.
    pub custom_modules: u32,
    /// Number of rerolls made.
    pub attempts: u32,
    /// The slots, in order.
    pub buffs: [SlotState; 3],
}


proof fn lemma_push_contains(s: Seq<Buff>, b: Buff)
    ensures
        forall|x: Buff| #[trigger] s.push(b).contains(x) <==> (s.contains(x) || x == b),
{
    assert forall|x: Buff| #[trigger] s.push(b).contains(x) implies (s.contains(x) || x == b) by {
        let k = choose|k: int| 0 <= k < s.push(b).len() && s.push(b)[k] == x;
        if k < s.len() {
            assert(s[k] == x);
        }
    }
    assert forall|x: Buff| s.contains(x) implies #[trigger] s.push(b).contains(x) by {
        let k = choose|k: int| 0 <= k < s.len() && s[k] == x;
        assert(s.push(b)[k] == x);
    }
    assert(s.push(b)[s.len() as int] == b);
}

proof fn lemma_push_fresh(s: Seq<Buff>, b: Buff)
    requires
        s.no_duplicates(),
        !s.contains(b),
    ensures
        s.push(b).no_duplicates(),
{
    assert forall|i: int, j: int|
        0 <= i < s.push(b).len() && 0 <= j < s.push(b).len() && i != j
    implies s.push(b)[i] != s.push(b)[j] by {
        if i == s.len() {
            assert(s[j] == s.push(b)[j]);
        } else if j == s.len() {
            assert(s[i] == s.push(b)[i]);
        }
    }
}


proof fn lemma_remove_distinct(s: Seq<Buff>, i: int)
    requires
        s.no_duplicates(),
        0 <= i < s.len(),
    ensures
        s.remove(i).no_duplicates(),
        forall|x: Buff| #[trigger] s.remove(i).contains(x) <==> (s.contains(x) && x != s[i]),
{
    s.remove_ensures(i);
    let r = s.remove(i);
    assert forall|a: int, c: int| 0 <= a < r.len() && 0 <= c < r.len() && a != c implies r[a] != r[c] by {
        let a2 = if a < i { a } else { a + 1 };
        let c2 = if c < i { c } else { c + 1 };
        assert(r[a] == s[a2] && r[c] == s[c2]);
    }
    assert forall|x: Buff| #[trigger] r.contains(x) implies (s.contains(x) && x != s[i]) by {
        let k = choose|k: int| 0 <= k < r.len() && r[k] == x;
        let k2 = if k < i { k } else { k + 1 };
        assert(s[k2] == x);
    }
    assert forall|x: Buff| s.contains(x) && x != s[i] implies #[trigger] r.contains(x) by {
        let k = choose|k: int| 0 <= k < s.len() && s[k] == x;
        if k < i {
            assert(r[k] == x);
        } else {
            assert(r[k - 1] == x);
        }
    }
}

/// Of three buffs, one is neither of two given values.
proof fn lemma_spare_buff(e1: Option<Buff>, e2: Option<Buff>) -> (x: Buff)
    ensures
        e1 != Some(x),
        e2 != Some(x),
{
    if e1 != Some(Buff::Elemental) && e2 != Some(Buff::Elemental) {
        Buff::Elemental
    } else if e1 != Some(Buff::HitRate) && e2 != Some(Buff::HitRate) {
        Buff::HitRate
    } else {
        Buff::MaxAmmo
    }
}

impl Simulation {
    /// Number of locked slots.
    pub open spec fn locks(self) -> nat {
        (if self.buffs[0] is Locked { 1nat } else { 0nat }) + (if self.buffs[1] is Locked {
            1nat
        } else {
            0nat
        }) + (if self.buffs[2] is Locked { 1nat } else { 0nat })
    }

    /// Never more than `MAX_LOCK_COUNT` slots are locked.
    pub open spec fn wf(self) -> bool {
        self.locks() <= MAX_LOCK_COUNT
    }

    /// No slot shows a locked buff ahead of the slot that locks it, so
    /// `position` of a locked buff is its locked slot, and two locked slots
    /// never hold the same buff.
    pub open spec fn locks_lead(self) -> bool {
        &&& self.buffs[1] is Locked ==> self.buffs[0].buff() != self.buffs[1].buff()
        &&& self.buffs[2] is Locked ==> self.buffs[0].buff() != self.buffs[2].buff()
        &&& self.buffs[2] is Locked ==> self.buffs[1].buff() != self.buffs[2].buff()
    }

    /// Nothing spent and every slot empty, as `new` makes it.
    pub open spec fn is_fresh(self) -> bool {
        &&& self.custom_modules == 0
        &&& self.attempts == 0
        &&& self.buffs[0] is Empty
        &&& self.buffs[1] is Empty
        &&& self.buffs[2] is Empty
    }

    /// Slot `i` shows `b`, free or locked.
    pub open spec fn holds(self, i: int, b: Buff) -> bool {
        self.buffs[i].buff() == Some(b)
    }

    /// Some slot shows `b`.
    pub open spec fn contains_buff(self, b: Buff) -> bool {
        self.holds(0, b) || self.holds(1, b) || self.holds(2, b)
    }

    /// The first slot that shows `b`.
    pub open spec fn position(self, b: Buff) -> Option<usize> {
        if self.holds(0, b) {
            Some(0usize)
        } else if self.holds(1, b) {
            Some(1usize)
        } else if self.holds(2, b) {
            Some(2usize)
        } else {
            None
        }
    }

    /// Some slot holds `b` locked.
    pub open spec fn is_locked_buff(self, b: Buff) -> bool {
        self.buffs[0] == SlotState::Locked(b) || self.buffs[1] == SlotState::Locked(b)
            || self.buffs[2] == SlotState::Locked(b)
    }

    /// Slot `i` is drawn into by a reroll whose extra slots are `extra`:
    /// the first slot always, the others when `extra` opens them, and in
    /// each case only if the slot is not locked.
    pub open spec fn drawn(self, extra: AdditionalSlots, i: int) -> bool {
        &&& !(self.buffs[i] is Locked)
        &&& (i == 0 || (i == 1 && extra.opens_second()) || (i == 2 && extra.opens_third()))
    }

    /// After a reroll with extra slots `extra`, slot `i` of `next` holds a
    /// fresh free buff that was not locked anywhere, if the slot was drawn
    /// into, and is unchanged otherwise.
    pub open spec fn slot_rerolled(self, next: Simulation, extra: AdditionalSlots, i: int) -> bool {
        if self.drawn(extra, i) {
            next.buffs[i] matches SlotState::Free(b) && !self.is_locked_buff(b)
        } else {
            next.buffs[i] == self.buffs[i]
        }
    }

    /// `next` holds slots that a reroll of `self` with extra slots `extra`
    /// can give: the drawn slots hold pairwise different buffs, none of
    /// them locked, and every other slot is unchanged.
    pub open spec fn rerolled_into(self, next: Simulation, extra: AdditionalSlots) -> bool {
        &&& self.slot_rerolled(next, extra, 0)
        &&& self.slot_rerolled(next, extra, 1)
        &&& self.slot_rerolled(next, extra, 2)
        &&& (self.drawn(extra, 0) && self.drawn(extra, 1) ==> next.buffs[0] != next.buffs[1])
        &&& (self.drawn(extra, 0) && self.drawn(extra, 2) ==> next.buffs[0] != next.buffs[2])
        &&& (self.drawn(extra, 1) && self.drawn(extra, 2) ==> next.buffs[1] != next.buffs[2])
    }

    /// The buffs of `s` that no slot holds locked, in order.
    pub open spec fn unlocked_in(self, s: Seq<Buff>) -> Seq<Buff>
        decreases s.len(),
    {
        if s.len() == 0 {
            Seq::empty()
        } else if self.is_locked_buff(s.last()) {
            self.unlocked_in(s.drop_last())
        } else {
            self.unlocked_in(s.drop_last()).push(s.last())
        }
    }

    /// The candidates in front of the draw for slot `k` of a reroll with
    /// extra slots `extra` and draw values `draws`: the catalogue, in order,
    /// without the locked buffs and without the buffs drawn for the slots
    /// before `k`.
    pub open spec fn candidates_before(self, extra: AdditionalSlots, draws: Seq<u32>, k: int) -> Seq<
        Buff,
    >
        decreases k,
    {
        if k <= 0 {
            self.unlocked_in(catalog())
        } else {
            let c = self.candidates_before(extra, draws, k - 1);
            if self.drawn(extra, k - 1) {
                c.remove(pick(c, draws[k - 1] as int))
            } else {
                c
            }
        }
    }

    /// The buff that the draw value for slot `k` picks from its candidates.
    pub open spec fn draw_for(self, extra: AdditionalSlots, draws: Seq<u32>, k: int) -> Buff {
        let c = self.candidates_before(extra, draws, k);
        c[pick(c, draws[k] as int)]
    }

    /// There is a draw value for each slot, and each slot drawn into has
    /// one below the total weight of its candidates.
    #[verifier::opaque]
    pub open spec fn draws_fit(self, extra: AdditionalSlots, draws: Seq<u32>) -> bool {
        &&& draws.len() == SLOT_COUNT
        &&& self.drawn(extra, 0) ==> draws[0] < total_weight(self.candidates_before(extra, draws, 0))
        &&& self.drawn(extra, 1) ==> draws[1] < total_weight(self.candidates_before(extra, draws, 1))
        &&& self.drawn(extra, 2) ==> draws[2] < total_weight(self.candidates_before(extra, draws, 2))
    }

    /// Slot `k` of `next` after a reroll with extra slots `extra` and draw
    /// values `draws`.
    pub open spec fn slot_drawn_with(
        self,
        next: Simulation,
        extra: AdditionalSlots,
        draws: Seq<u32>,
        k: int,
    ) -> bool {
        if self.drawn(extra, k) {
            next.buffs[k] == SlotState::Free(self.draw_for(extra, draws, k))
        } else {
            next.buffs[k] == self.buffs[k]
        }
    }

    /// `next` holds the slots of a reroll of `self` with extra slots
    /// `extra` and draw values `draws`.
    #[verifier::opaque]
    pub open spec fn rerolled_with(self, next: Simulation, extra: AdditionalSlots, draws: Seq<u32>) -> bool {
        &&& self.slot_drawn_with(next, extra, draws, 0)
        &&& self.slot_drawn_with(next, extra, draws, 1)
        &&& self.slot_drawn_with(next, extra, draws, 2)
    }

    /// A fresh panel: three empty slots and nothing spent.
    pub fn new() -> (r: Self)
        ensures
            r.custom_modules == 0,
            r.attempts == 0,
            r.buffs@ == seq![SlotState::Empty, SlotState::Empty, SlotState::Empty],
            r.is_fresh(),
            r.wf(),
            r.locks_lead(),
    {
        let r = Simulation {
            custom_modules: 0,
            attempts: 0,
            buffs: [SlotState::Empty, SlotState::Empty, SlotState::Empty],
        };
        assert(r.buffs@ =~= seq![SlotState::Empty, SlotState::Empty, SlotState::Empty]);
        r
    }

    /// The slots, in order.
    pub fn buffs(&self) -> (r: &[SlotState; 3])
        ensures
            *r == self.buffs,
    {
        &self.buffs
    }

    /// Number of locked slots.
    pub fn locked_count(&self) -> (r: u32)
        ensures
            r == self.locks(),
    {
        let mut count: u32 = 0;
        if self.buffs[0].is_locked() {
            count = count + 1;
        }
        if self.buffs[1].is_locked() {
            count = count + 1;
        }
        if self.buffs[2].is_locked() {
            count = count + 1;
        }
        count
    }
    /// Whether some slot shows `buff`, free or locked.
    pub fn has_buff(&self, buff: &Buff) -> (r: bool)
        ensures
            r == self.contains_buff(*buff),
    {
        let mut i: usize = 0;
        while i < SLOT_COUNT
            invariant
                i <= SLOT_COUNT,
                forall|j: int| 0 <= j < i ==> !self.holds(j, *buff),
            decreases SLOT_COUNT - i,
        {
            match self.buffs[i] {
                SlotState::Free(b) | SlotState::Locked(b) => {
                    if b == *buff {
                        return true;
                    }
                },
                SlotState::Empty => {},
            }
            i = i + 1;
        }
        false
    }

    /// The first slot that shows `buff`, free or locked.
    pub fn position_of(&self, buff: &Buff) -> (r: Option<usize>)
        ensures
            r == self.position(*buff),
    {
        let mut i: usize = 0;
        while i < SLOT_COUNT
            invariant
                i <= SLOT_COUNT,
                forall|j: int| 0 <= j < i ==> !self.holds(j, *buff),
            decreases SLOT_COUNT - i,
        {
            match self.buffs[i] {
                SlotState::Free(b) | SlotState::Locked(b) => {
                    if b == *buff {
                        return Some(i);
                    }
                },
                SlotState::Empty => {},
            }
            i = i + 1;
        }
        None
    }

    /// Whether some slot holds `buff` locked.
    fn has_locked_buff(&self, buff: Buff) -> (r: bool)
        ensures
            r == self.is_locked_buff(buff),
    {
        self.buffs[0] == SlotState::Locked(buff) || self.buffs[1] == SlotState::Locked(buff)
            || self.buffs[2] == SlotState::Locked(buff)
    }

    /// A lock of slot `pos` takes effect: the slot holds a free buff and
    /// fewer than `MAX_LOCK_COUNT` slots are locked.
    pub open spec fn lock_applies(self, pos: int) -> bool {
        self.buffs[pos] is Free && self.locks() < MAX_LOCK_COUNT
    }

    /// The panel after a lock of slot `pos` that takes effect: the slot's
    /// buff is locked, and the lock costs two custom modules plus one for
    /// each slot that was already locked.
    pub open spec fn lock_effect(self, next: Simulation, pos: int) -> bool {
        &&& next.buffs@ == self.buffs@.update(pos, SlotState::Locked(self.buffs[pos]->Free_0))
        &&& next.custom_modules == self.custom_modules + self.locks() + 2
        &&& next.attempts == self.attempts
        &&& next.locks() == self.locks() + 1
    }

    /// Locks the buff in slot `pos` if it holds a free one and fewer than
    /// `MAX_LOCK_COUNT` slots are locked; does nothing otherwise.
    pub fn lock(&mut self, pos: usize)
        requires
            pos < SLOT_COUNT,
            old(self).lock_applies(pos as int) ==> old(self).custom_modules + old(self).locks() + 2
                <= u32::MAX,
        ensures
            old(self).lock_applies(pos as int) ==> old(self).lock_effect(*final(self), pos as int),
            !old(self).lock_applies(pos as int) ==> *final(self) == *old(self),
            old(self).wf() ==> final(self).wf(),
    {
        let locked_count = self.locked_count();
        if locked_count >= MAX_LOCK_COUNT {
            return;
        }
        if let SlotState::Free(buff) = self.buffs[pos] {
            self.buffs[pos] = SlotState::Locked(buff);
            self.custom_modules = self.custom_modules + locked_count + 2;
        }
    }

    /// Puts `buff` into slot `pos` as a free buff, whatever the slot held.
    /// Nothing is spent.
    pub fn set_buff(&mut self, pos: usize, buff: &Buff)
        requires
            pos < SLOT_COUNT,
        ensures
            final(self).buffs@ == old(self).buffs@.update(pos as int, SlotState::Free(*buff)),
            final(self).custom_modules == old(self).custom_modules,
            final(self).attempts == old(self).attempts,
            old(self).wf() ==> final(self).wf(),
    {
        self.buffs[pos] = SlotState::Free(*buff);
    }

    /// Locks the first slot, as `lock(0)` does.
    pub fn lock_first(&mut self)
        requires
            old(self).lock_applies(0) ==> old(self).custom_modules + old(self).locks() + 2
                <= u32::MAX,
        ensures
            old(self).lock_applies(0) ==> old(self).lock_effect(*final(self), 0),
            !old(self).lock_applies(0) ==> *final(self) == *old(self),
            old(self).wf() ==> final(self).wf(),
    {
        self.lock(0);
    }

    /// Locks the second slot, as `lock(1)` does.
    pub fn lock_second(&mut self)
        requires
            old(self).lock_applies(1) ==> old(self).custom_modules + old(self).locks() + 2
                <= u32::MAX,
        ensures
            old(self).lock_applies(1) ==> old(self).lock_effect(*final(self), 1),
            !old(self).lock_applies(1) ==> *final(self) == *old(self),
            old(self).wf() ==> final(self).wf(),
    {
        self.lock(1);
    }

    /// Locks the third slot, as `lock(2)` does.
    pub fn lock_third(&mut self)
        requires
            old(self).lock_applies(2) ==> old(self).custom_modules + old(self).locks() + 2
                <= u32::MAX,
        ensures
            old(self).lock_applies(2) ==> old(self).lock_effect(*final(self), 2),
            !old(self).lock_applies(2) ==> *final(self) == *old(self),
            old(self).wf() ==> final(self).wf(),
    {
        self.lock(2);
    }

    /// The buff that rules slot `j` out of the candidates of a reroll that
    /// started from `self`, once the slots marked in `done` were drawn: its
    /// buff if it is locked or was drawn, none otherwise.
    spec fn excluded(self, cur: Simulation, done: Seq<bool>, j: int) -> Option<Buff> {
        if self.buffs[j] is Locked || done[j] {
            cur.buffs[j].buff()
        } else {
            None
        }
    }

    /// `cand` holds, once each, exactly the buffs that no slot rules out,
    /// and the locked slots of `self` are unchanged in `cur`.
    spec fn candidates_ok(self, cur: Simulation, done: Seq<bool>, cand: Seq<Buff>) -> bool {
        &&& done.len() == SLOT_COUNT
        &&& cand.no_duplicates()
        &&& cand.len() <= BUFF_COUNT
        &&& forall|j: int| 0 <= j < SLOT_COUNT && self.buffs[j] is Locked ==> cur.buffs[j] == self.buffs[j]
        &&& forall|x: Buff| #[trigger] cand.contains(x) <==> (
            self.excluded(cur, done, 0) != Some(x)
            && self.excluded(cur, done, 1) != Some(x)
            && self.excluded(cur, done, 2) != Some(x))
    }

    /// The catalogue without the buffs locked on the panel, in catalogue
    /// order.
    fn unlocked_buffs(&self) -> (r: Vec<Buff>)
        ensures
            r@.no_duplicates(),
            r@.len() <= BUFF_COUNT,
            forall|x: Buff| #[trigger] r@.contains(x) <==> !self.is_locked_buff(x),
            r@ == self.unlocked_in(catalog()),
    {
        let all = all_buffs();
        let mut r: Vec<Buff> = Vec::new();
        let mut j: usize = 0;
        proof {
            assert(all@.take(0) =~= Seq::<Buff>::empty());
            lemma_catalog_complete(Buff::Attack);
        }
        while j < all.len()
            invariant
                all@ == catalog(),
                catalog().no_duplicates(),
                catalog().len() == BUFF_COUNT,
                j <= all@.len(),
                r@.len() <= j,
                r@.no_duplicates(),
                forall|x: Buff| #[trigger] r@.contains(x) <==> (all@.take(j as int).contains(x) && !self.is_locked_buff(x)),
                r@ == self.unlocked_in(all@.take(j as int)),
            decreases all@.len() - j,
        {
            let b = all[j];
            proof {
                assert(all@.take(j + 1) =~= all@.take(j as int).push(b));
                assert(all@.take(j + 1).drop_last() =~= all@.take(j as int));
                lemma_push_contains(all@.take(j as int), b);
                assert(!all@.take(j as int).contains(b)) by {
                    if all@.take(j as int).contains(b) {
                        let k = choose|k: int| 0 <= k < j && all@.take(j as int)[k] == b;
                        assert(all@[k] == all@[j as int]);
                    }
                }
            }
            if !self.has_locked_buff(b) {
                proof {
                    lemma_push_contains(r@, b);
                    lemma_push_fresh(r@, b);
                }
                r.push(b);
            }
            j = j + 1;
        }
        proof {
            assert(all@.take(j as int) =~= all@);
            assert forall|x: Buff| !self.is_locked_buff(x) implies #[trigger] r@.contains(x) by {
                lemma_catalog_complete(x);
            }
        }
        r
    }
    /// One step of a reroll from `self`: slot `pos`, if `opens` and not
    /// locked, gets the buff that `v` picks from `cb`, which then leaves
    /// the candidates (`ca`); otherwise nothing changes. No other slot
    /// changes.
    #[verifier::opaque]
    spec fn slot_step(
        self,
        opens: bool,
        pos: int,
        v: u32,
        cb: Seq<Buff>,
        ca: Seq<Buff>,
        sb: Simulation,
        sa: Simulation,
    ) -> bool {
        &&& forall|j: int| 0 <= j < SLOT_COUNT && j != pos ==> #[trigger] sa.buffs[j] == sb.buffs[j]
        &&& if opens && !(self.buffs[pos] is Locked) {
            &&& v < total_weight(cb)
            &&& ca == cb.remove(pick(cb, v as int))
            &&& sa.buffs[pos] == SlotState::Free(cb[pick(cb, v as int)])
        } else {
            &&& ca == cb
            &&& sa.buffs[pos] == sb.buffs[pos]
        }
    }

    /// Three steps in slot order, with the first slot always open and the
    /// others opened by `extra`, make the reroll with those draw values.
    proof fn lemma_steps_reroll(
        self,
        extra: AdditionalSlots,
        draws: Seq<u32>,
        c: Seq<Seq<Buff>>,
        st: Seq<Simulation>,
    )
        requires
            draws.len() == 3,
            c.len() == 4,
            st.len() == 4,
            st[0].buffs == self.buffs,
            c[0] == self.unlocked_in(catalog()),
            self.slot_step(true, 0, draws[0], c[0], c[1], st[0], st[1]),
            self.slot_step(extra.opens_second(), 1, draws[1], c[1], c[2], st[1], st[2]),
            self.slot_step(extra.opens_third(), 2, draws[2], c[2], c[3], st[2], st[3]),
        ensures
            self.draws_fit(extra, draws),
            self.rerolled_with(st[3], extra, draws),
    {
        reveal(Simulation::slot_step);
        reveal(Simulation::draws_fit);
        reveal(Simulation::rerolled_with);
        assert(self.candidates_before(extra, draws, 0) == c[0]);
        assert(self.candidates_before(extra, draws, 1) == c[1]);
        assert(self.candidates_before(extra, draws, 2) == c[2]);
        assert(st[3].buffs[0] == st[1].buffs[0]);
        assert(st[3].buffs[1] == st[2].buffs[1]);
    }

    /// A step for slot `k` leaves the candidates of slot `k + 1`.
    proof fn lemma_step_candidates(
        self,
        extra: AdditionalSlots,
        draws: Seq<u32>,
        k: int,
        opens: bool,
        cb: Seq<Buff>,
        ca: Seq<Buff>,
        sb: Simulation,
        sa: Simulation,
    )
        requires
            0 <= k < SLOT_COUNT,
            opens == (k == 0 || (k == 1 && extra.opens_second()) || (k == 2 && extra.opens_third())),
            cb == self.candidates_before(extra, draws, k),
            self.slot_step(opens, k, draws[k], cb, ca, sb, sa),
        ensures
            ca == self.candidates_before(extra, draws, k + 1),
    {
        reveal(Simulation::slot_step);
    }

    /// The candidates of a draw that a reroll from `orig` makes into slot
    /// `pos` are not empty and weigh little.
    proof fn lemma_candidates_fit(self, cur: Simulation, done: Seq<bool>, cand: Seq<Buff>, pos: int)
        requires
            0 <= pos < SLOT_COUNT,
            !(self.buffs[pos] is Locked),
            !done[pos],
            self.candidates_ok(cur, done, cand),
        ensures
            0 < total_weight(cand) <= 12 * BUFF_COUNT,
    {
        let (o1, o2) = if pos == 0 {
            (1int, 2int)
        } else if pos == 1 {
            (0int, 2int)
        } else {
            (0int, 1int)
        };
        let x = lemma_spare_buff(self.excluded(cur, done, o1), self.excluded(cur, done, o2));
        assert(cand.contains(x));
        lemma_total_weight_bound(cand);
        crate::sampler::lemma_total_weight_positive(cand);
    }

    /// Redraws slot `pos` in a reroll that started from `orig`, if `opens`
    /// and the slot is not locked: the draw value is `given`, or else drawn
    /// at random below the candidates' total weight; the buff it picks goes
    /// into the slot as a free buff and leaves `cand`. Returns the value.
    fn redraw_slot(
        &mut self,
        pos: usize,
        opens: bool,
        cand: &mut Vec<Buff>,
        given: Option<u32>,
        Ghost(orig): Ghost<Simulation>,
        Ghost(done): Ghost<Seq<bool>>,
    ) -> (v: u32)
        requires
            pos < SLOT_COUNT,
            !done[pos as int],
            old(self).buffs[pos as int] == orig.buffs[pos as int],
            orig.candidates_ok(*old(self), done, old(cand)@),
            opens && !(orig.buffs[pos as int] is Locked) ==> (given matches Some(x) ==> x < total_weight(
                old(cand)@,
            )),
        ensures
            given matches Some(x) ==> v == x,
            orig.slot_step(opens, pos as int, v, old(cand)@, final(cand)@, *old(self), *final(self)),
            final(self).custom_modules == old(self).custom_modules,
            final(self).attempts == old(self).attempts,
            !(opens && !(orig.buffs[pos as int] is Locked)) ==> *final(self) == *old(self) && final(cand)@
                == old(cand)@,
            opens && !(orig.buffs[pos as int] is Locked) ==> {
                &&& v < total_weight(old(cand)@)
                &&& final(cand)@ == old(cand)@.remove(pick(old(cand)@, v as int))
                &&& final(self).buffs@ == old(self).buffs@.update(
                    pos as int,
                    SlotState::Free(old(cand)@[pick(old(cand)@, v as int)]),
                )
                &&& !orig.is_locked_buff(old(cand)@[pick(old(cand)@, v as int)])
                &&& forall|j: int|
                    0 <= j < SLOT_COUNT && done[j] ==> old(self).buffs[j] != SlotState::Free(
                        old(cand)@[pick(old(cand)@, v as int)],
                    )
                &&& orig.candidates_ok(*final(self), done.update(pos as int, true), final(cand)@)
            },
    {
        if !opens || self.buffs[pos].is_locked() {
            proof {
                reveal(Simulation::slot_step);
            }
            return match given {
                Some(x) => x,
                None => 0,
            };
        }
        let ghost cur = *self;
        proof {
            orig.lemma_candidates_fit(cur, done, cand@, pos as int);
        }
        let value = match given {
            Some(x) => x,
            None => random_below(weight_sum(cand.as_slice())),
        };
        let i = pick_index(cand.as_slice(), value);
        let b = cand.remove(i);
        self.buffs[pos] = SlotState::Free(b);
        proof {
            let done2 = done.update(pos as int, true);
            lemma_remove_distinct(old(cand)@, i as int);
            assert(old(cand)@.contains(b));
            assert forall|j: int| 0 <= j < SLOT_COUNT && j != pos implies
                orig.excluded(*self, done2, j) == orig.excluded(cur, done, j) by {}
            assert(orig.excluded(*self, done2, pos as int) == Some(b));
            assert(orig.excluded(cur, done, pos as int) == None::<Buff>);
            reveal(Simulation::slot_step);
        }
        value
    }

    /// Redraws the slots that are not locked: the first always, the second
    /// and the third when `extra` opens them. The candidates are the
    /// catalogue without the locked buffs, and each buff drawn is taken out
    /// of them, so no two slots are drawn the same buff. The draw values
    /// are `given`, or else random; the extra slots are `extra`, or else
    /// rolled after the first slot's draw.
    #[verifier::rlimit(50)]
    fn redraw(&mut self, extra: Option<AdditionalSlots>, given: Option<[u32; 3]>) -> (used: (
        AdditionalSlots,
        Ghost<Seq<u32>>,
    ))
        requires
            given matches Some(g) ==> (extra matches Some(e) && old(self).draws_fit(e, g@)),
        ensures
            final(self).custom_modules == old(self).custom_modules,
            final(self).attempts == old(self).attempts,
            extra matches Some(e) ==> used.0 == e,
            given matches Some(g) ==> used.1@ == g@,
            old(self).draws_fit(used.0, used.1@),
            old(self).rerolled_with(*final(self), used.0, used.1@),
            old(self).rerolled_into(*final(self), used.0),
    {
        let ghost orig = *self;
        let mut cand = self.unlocked_buffs();
        let ghost c0 = cand@;
        let ghost mut done: Seq<bool> = seq![false, false, false];
        proof {
            assert forall|x: Buff| #[trigger] cand@.contains(x) <==> (
                orig.excluded(*self, done, 0) != Some(x)
                && orig.excluded(*self, done, 1) != Some(x)
                && orig.excluded(*self, done, 2) != Some(x)) by {}
        }
        let g0 = match given {
            Some(g) => Some(g[0]),
            None => None,
        };
        let ghost s0 = *self;
        proof {
            if let Some(g) = given {
                assert(g[0] < total_weight(cand@) || orig.buffs[0] is Locked) by {
                    reveal(Simulation::draws_fit);
                }
            }
        }
        let v0 = self.redraw_slot(0, true, &mut cand, g0, Ghost(orig), Ghost(done));
        proof {
            if !(orig.buffs[0] is Locked) {
                done = done.update(0, true);
            }
        }
        let ghost c1 = cand@;
        let e = match extra {
            Some(e) => e,
            None => additional_slots(),
        };
        let opens_second = match e {
            AdditionalSlots::SecondOnly | AdditionalSlots::SecondAndThird => true,
            _ => false,
        };
        let opens_third = match e {
            AdditionalSlots::ThirdOnly | AdditionalSlots::SecondAndThird => true,
            _ => false,
        };
        let g1 = match given {
            Some(g) => Some(g[1]),
            None => None,
        };
        let ghost s1 = *self;
        proof {
            if let Some(g) = given {
                orig.lemma_step_candidates(e, g@, 0, true, c0, c1, s0, s1);
                assert(opens_second && !(orig.buffs[1] is Locked) ==> g[1] < total_weight(cand@)) by {
                    reveal(Simulation::draws_fit);
                }
            }
        }
        let v1 = self.redraw_slot(1, opens_second, &mut cand, g1, Ghost(orig), Ghost(done));
        proof {
            if opens_second && !(orig.buffs[1] is Locked) {
                done = done.update(1, true);
            }
        }
        let ghost c2 = cand@;
        let g2 = match given {
            Some(g) => Some(g[2]),
            None => None,
        };
        let ghost s2 = *self;
        proof {
            if let Some(g) = given {
                orig.lemma_step_candidates(e, g@, 0, true, c0, c1, s0, s1);
                orig.lemma_step_candidates(e, g@, 1, opens_second, c1, c2, s1, s2);
                assert(opens_third && !(orig.buffs[2] is Locked) ==> g[2] < total_weight(cand@)) by {
                    reveal(Simulation::draws_fit);
                }
            }
        }
        let v2 = self.redraw_slot(2, opens_third, &mut cand, g2, Ghost(orig), Ghost(done));
        let ghost draws = seq![v0, v1, v2];
        proof {
            orig.lemma_steps_reroll(e, draws, seq![c0, c1, c2, cand@], seq![s0, s1, s2, *self]);
            assert(orig.rerolled_into(*self, e));
            if let Some(g) = given {
                assert(draws =~= g@);
            }
        }
        (e, Ghost(draws))
    }

    /// Rerolls the panel. It costs one custom module, plus one for each
    /// locked slot, whose buff is kept. The first slot's buff is drawn, then
    /// the extra slots are rolled, then their buffs are drawn.
    pub fn reroll(&mut self)
        requires
            old(self).custom_modules + old(self).locks() + 1 <= u32::MAX,
            old(self).attempts < u32::MAX,
        ensures
            final(self).attempts == old(self).attempts + 1,
            final(self).custom_modules == old(self).custom_modules + old(self).locks() + 1,
            exists|extra: AdditionalSlots, draws: Seq<u32>|
                old(self).draws_fit(extra, draws) && #[trigger] old(self).rerolled_with(
                    *final(self),
                    extra,
                    draws,
                ),
            exists|extra: AdditionalSlots| #[trigger] old(self).rerolled_into(*final(self), extra),
            !(final(self).buffs[0] is Empty),
            final(self).locks() == old(self).locks(),
            old(self).wf() ==> final(self).wf(),
            old(self).locks_lead() ==> final(self).locks_lead(),
    {
        let lock_count = self.locked_count();
        let cus_mod_usage = lock_count + 1;
        let (extra, Ghost(draws)) = self.redraw(None, None);
        proof {
            lemma_reroll_shows_first_slot(*old(self), *self, extra);
        }
        self.custom_modules = self.custom_modules + cus_mod_usage;
        self.attempts = self.attempts + 1;
        proof {
            reveal(Simulation::rerolled_with);
            assert(old(self).rerolled_with(*self, extra, draws));
            assert(old(self).rerolled_into(*self, extra));
        }
    }

    /// Rerolls the panel as `reroll` does, with the extra slots `extra`
    /// and the draw values `draws` in place of the random ones: each slot
    /// drawn into gets the buff that its value picks, by weight, from the
    /// catalogue without the locked buffs and the buffs drawn before.
    pub fn reroll_with_draws(&mut self, extra: AdditionalSlots, draws: [u32; 3])
        requires
            old(self).custom_modules + old(self).locks() + 1 <= u32::MAX,
            old(self).attempts < u32::MAX,
            old(self).draws_fit(extra, draws@),
        ensures
            final(self).attempts == old(self).attempts + 1,
            final(self).custom_modules == old(self).custom_modules + old(self).locks() + 1,
            old(self).rerolled_with(*final(self), extra, draws@),
            old(self).rerolled_into(*final(self), extra),
            !(final(self).buffs[0] is Empty),
            final(self).locks() == old(self).locks(),
            old(self).wf() ==> final(self).wf(),
            old(self).locks_lead() ==> final(self).locks_lead(),
    {
        let lock_count = self.locked_count();
        let cus_mod_usage = lock_count + 1;
        let _ = self.redraw(Some(extra), Some(draws));
        proof {
            lemma_reroll_shows_first_slot(*old(self), *self, extra);
        }
        self.custom_modules = self.custom_modules + cus_mod_usage;
        self.attempts = self.attempts + 1;
        proof {
            reveal(Simulation::rerolled_with);
            assert(old(self).rerolled_with(*self, extra, draws@));
            assert(old(self).rerolled_into(*self, extra));
        }
    }

    /// Number of slots that show a buff.
    pub open spec fn shown(self) -> nat {
        (if self.buffs[0] is Empty { 0nat } else { 1nat }) + (if self.buffs[1] is Empty {
            0nat
        } else {
            1nat
        }) + (if self.buffs[2] is Empty { 0nat } else { 1nat })
    }

    /// Number of slots that show a buff, free or locked.
    pub fn shown_count(&self) -> (r: usize)
        ensures
            r == self.shown(),
    {
        let mut count: usize = 0;
        let mut i: usize = 0;
        while i < SLOT_COUNT
            invariant
                i <= SLOT_COUNT,
                count == (if i > 0 && !(self.buffs[0] is Empty) { 1nat } else { 0nat }) + (if i
                    > 1 && !(self.buffs[1] is Empty) {
                    1nat
                } else {
                    0nat
                }) + (if i > 2 && !(self.buffs[2] is Empty) { 1nat } else { 0nat }),
            decreases SLOT_COUNT - i,
        {
            match self.buffs[i] {
                SlotState::Empty => {},
                _ => {
                    count = count + 1;
                },
            }
            i = i + 1;
        }
        count
    }
}

/// Queries do not depend on when they are asked: two panels with the same
/// slots, such as one panel before and after a query that changes nothing,
/// give the same answer to `has_buff` and to `position_of`, and the two
/// queries agree with each other.
pub proof fn lemma_queries_idempotent(p: Simulation, q: Simulation, b: Buff)
    requires
        p.buffs == q.buffs,
    ensures
        p.contains_buff(b) == q.contains_buff(b),
        p.position(b) == q.position(b),
        p.contains_buff(b) == p.position(b) is Some,
        p.position(b) matches Some(i) ==> p.holds(i as int, b),
{
}

/// Whatever the draws and the extra-slot roll, a reroll leaves the first
/// slot showing a buff, and it keeps every locked buff ahead of its copies.
pub proof fn lemma_reroll_shows_first_slot(p: Simulation, next: Simulation, extra: AdditionalSlots)
    requires
        p.rerolled_into(next, extra),
    ensures
        !(next.buffs[0] is Empty),
        p.locks_lead() ==> next.locks_lead(),
        next.locks() == p.locks(),
{
}

/// What locking costs on its way from `from` locked slots to `to`: two
/// modules for the first lock, three for the second, one more for each
/// lock already in place.
pub open spec fn lock_fees(from: nat, to: nat) -> nat
    decreases to,
{
    if to <= from {
        0
    } else {
        lock_fees(from, (to - 1) as nat) + (to - 1) as nat + 2
    }
}

/// Lock fees add up over consecutive stretches.
pub proof fn lemma_lock_fees_split(a: nat, b: nat, c: nat)
    requires
        a <= b <= c,
    ensures
        lock_fees(a, c) == lock_fees(a, b) + lock_fees(b, c),
    decreases c,
{
    if c > b {
        lemma_lock_fees_split(a, b, (c - 1) as nat);
    }
}

} // verus!

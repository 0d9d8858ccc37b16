use vstd::prelude::*;
use crate::types::{Moment, InvestmentId};
use crate::crowdfunding::{Error, SimpleCrowdfunding, SimpleCrowdfundingStatus, not_started};
use crate::platform::{Platform, activation, expiration, finishing, index_of, live};
use crate::settlement::{expiry_plan, finish_plan, run};

verus! {

/// A transition that time makes due.
#[derive(Clone, Copy, Debug, PartialEq, Eq, Structural)]
pub enum Action {
    Activate,
    Expire,
    Finish,
}

/// The transition due for `s` at `now`: an active campaign past its end expires or finishes
/// as it missed or reached its soft cap; a campaign not yet started is activated once its
/// start time has come.
pub open spec fn due(s: SimpleCrowdfunding, now: Moment) -> Option<Action> {
    if s.status == SimpleCrowdfundingStatus::Active && s.end_time <= now {
        if s.total_amount < s.soft_cap {
            Some(Action::Expire)
        } else {
            Some(Action::Finish)
        }
    } else if not_started(s.status) && s.start_time <= now {
        Some(Action::Activate)
    } else {
        None
    }
}

/// The transitions due at `now` over `sales`, in their order.
pub open spec fn pending(sales: Seq<SimpleCrowdfunding>, now: Moment) -> Seq<(InvestmentId, Action)>
    decreases sales.len(),
{
    if sales.len() == 0 {
        Seq::empty()
    } else {
        let rest = pending(sales.drop_last(), now);
        match due(sales.last(), now) {
            Some(a) => rest.push((sales.last().external_id, a)),
            None => rest,
        }
    }
}

/// The outcome of `action` on the campaign `id` at `now`.
pub open spec fn outcome(sales: Seq<SimpleCrowdfunding>, id: Seq<u8>, action: Action, now: Moment) -> Result<
    (),
    Error,
> {
    match action {
        Action::Activate => activation(sales, id, now),
        Action::Expire => expiration(sales, id, now),
        Action::Finish => finishing(sales, id),
    }
}

/// No two campaigns share an identifier.
pub open spec fn ids_unique(sales: Seq<SimpleCrowdfunding>) -> bool {
    forall|i: int, j: int|
        0 <= i < sales.len() && 0 <= j < sales.len() && i != j ==> (#[trigger] sales[i]).external_id@
            != (#[trigger] sales[j]).external_id@
}

/// The record of the live campaign `id`.
pub open spec fn record_of(sales: Seq<SimpleCrowdfunding>, id: Seq<u8>) -> SimpleCrowdfunding {
    sales[index_of(sales, id)]
}

/// `new` holds every campaign of `old` but the one at `i` as it was, and no other.
pub open spec fn others_kept(old: Seq<SimpleCrowdfunding>, new: Seq<SimpleCrowdfunding>, id: Seq<u8>) -> bool {
    &&& forall|x: Seq<u8>| x != id && live(old, x) ==> live(new, x) && #[trigger] record_of(new, x) == record_of(old, x)
    &&& forall|x: Seq<u8>| !live(old, x) ==> !#[trigger] live(new, x)
}

proof fn lemma_index_of(sales: Seq<SimpleCrowdfunding>, j: int)
    requires
        ids_unique(sales),
        0 <= j < sales.len(),
    ensures
        live(sales, sales[j].external_id@),
        index_of(sales, sales[j].external_id@) == j,
{
    let x = sales[j].external_id@;
    assert(live(sales, x));
    let k = index_of(sales, x);
    assert(sales[k].external_id@ == x);
}

proof fn lemma_others_after_remove(old: Seq<SimpleCrowdfunding>, i: int, id: Seq<u8>)
    requires
        ids_unique(old),
        0 <= i < old.len(),
        old[i].external_id@ == id,
    ensures
        ids_unique(old.remove(i)),
        others_kept(old, old.remove(i), id),
{
    let new = old.remove(i);
    assert forall|a: int, b: int| 0 <= a < new.len() && 0 <= b < new.len() && a != b implies (
    #[trigger] new[a]).external_id@ != (#[trigger] new[b]).external_id@ by {
        let oa = if a < i { a } else { a + 1 };
        let ob = if b < i { b } else { b + 1 };
        assert(new[a] == old[oa]);
        assert(new[b] == old[ob]);
    }
    assert forall|x: Seq<u8>| x != id && live(old, x) implies live(new, x) && #[trigger] record_of(new, x)
        == record_of(old, x) by {
        let j = index_of(old, x);
        assert(old[j].external_id@ == x);
        assert(j != i);
        let nj = if j < i { j } else { j - 1 };
        assert(new[nj] == old[j]);
        lemma_index_of(new, nj);
    }
    assert forall|x: Seq<u8>| !live(old, x) implies !#[trigger] live(new, x) by {
        if live(new, x) {
            let j = index_of(new, x);
            let oj = if j < i { j } else { j + 1 };
            assert(new[j] == old[oj]);
        }
    }
}

proof fn lemma_others_after_update(old: Seq<SimpleCrowdfunding>, i: int, r: SimpleCrowdfunding, id: Seq<u8>)
    requires
        ids_unique(old),
        0 <= i < old.len(),
        old[i].external_id@ == id,
        r.external_id == old[i].external_id,
    ensures
        ids_unique(old.update(i, r)),
        others_kept(old, old.update(i, r), id),
{
    let new = old.update(i, r);
    assert forall|a: int, b: int| 0 <= a < new.len() && 0 <= b < new.len() && a != b implies (
    #[trigger] new[a]).external_id@ != (#[trigger] new[b]).external_id@ by {
        assert(new[a].external_id == old[a].external_id);
        assert(new[b].external_id == old[b].external_id);
    }
    assert forall|x: Seq<u8>| x != id && live(old, x) implies live(new, x) && #[trigger] record_of(new, x)
        == record_of(old, x) by {
        let j = index_of(old, x);
        assert(old[j].external_id@ == x);
        assert(new[j] == old[j]);
        lemma_index_of(new, j);
    }
    assert forall|x: Seq<u8>| !live(old, x) implies !#[trigger] live(new, x) by {
        if live(new, x) {
            let j = index_of(new, x);
            assert(new[j].external_id == old[j].external_id);
        }
    }
}

/// The transition `a` on the campaign `id` has taken effect in `sales`: an activated campaign
/// is active, an expired or finished one is gone.
pub open spec fn carried_out(sales: Seq<SimpleCrowdfunding>, id: Seq<u8>, a: Action) -> bool {
    match a {
        Action::Activate => live(sales, id) && record_of(sales, id).status
            == SimpleCrowdfundingStatus::Active,
        _ => !live(sales, id),
    }
}

/// Each transition found due names a live campaign for which it is due, and no campaign is
/// named twice.
proof fn lemma_pending(sales: Seq<SimpleCrowdfunding>, now: Moment)
    requires
        ids_unique(sales),
    ensures
        forall|q: int|
            0 <= q < pending(sales, now).len() ==> live(sales, (#[trigger] pending(sales, now)[q]).0@)
                && due(record_of(sales, pending(sales, now)[q].0@), now) == Some(
                pending(sales, now)[q].1,
            ),
        forall|q: int, r: int|
            0 <= q < r < pending(sales, now).len() ==> (#[trigger] pending(sales, now)[q]).0@ != (
            #[trigger] pending(sales, now)[r]).0@,
    decreases sales.len(),
{
    if sales.len() > 0 {
        let init = sales.drop_last();
        let n = init.len() as int;
        assert forall|a: int, b: int| 0 <= a < init.len() && 0 <= b < init.len() && a != b implies (
        #[trigger] init[a]).external_id@ != (#[trigger] init[b]).external_id@ by {
            assert(init[a] == sales[a]);
            assert(init[b] == sales[b]);
        }
        lemma_pending(init, now);
        let p0 = pending(init, now);
        let p = pending(sales, now);
        lemma_index_of(sales, n);
        assert forall|q: int| 0 <= q < p0.len() implies live(sales, (#[trigger] p0[q]).0@) && due(
            record_of(sales, p0[q].0@),
            now,
        ) == Some(p0[q].1) && p0[q].0@ != sales[n].external_id@ by {
            let j = index_of(init, p0[q].0@);
            assert(init[j] == sales[j]);
            lemma_index_of(sales, j);
        }
        assert forall|q: int| 0 <= q < p.len() implies live(sales, (#[trigger] p[q]).0@) && due(
            record_of(sales, p[q].0@),
            now,
        ) == Some(p[q].1) by {
            if q < p0.len() {
                assert(p[q] == p0[q]);
            }
        }
        assert forall|q: int, r: int| 0 <= q < r < p.len() implies (#[trigger] p[q]).0@ != (
        #[trigger] p[r]).0@ by {
            assert(p[q] == p0[q]);
            if r < p0.len() {
                assert(p[r] == p0[r]);
            }
        }
    }
}

/// The transition due for `s` at `now`, if any.
pub fn due_action(s: &SimpleCrowdfunding, now: Moment) -> (r: Option<Action>)
    ensures
        r == due(*s, now),
{
    if s.status == SimpleCrowdfundingStatus::Active && s.end_time <= now {
        if s.total_amount < s.soft_cap {
            Some(Action::Expire)
        } else {
            Some(Action::Finish)
        }
    } else if (s.status == SimpleCrowdfundingStatus::Inactive || s.status
        == SimpleCrowdfundingStatus::Pending) && s.start_time <= now {
        Some(Action::Activate)
    } else {
        None
    }
}

impl Platform {
    /// The transitions due at `now`, campaign by campaign.
    pub fn due_transitions(&self, now: Moment) -> (r: Vec<(InvestmentId, Action)>)
        requires
            self.wf(),
        ensures
            r@ == pending(self.sales(), now),
    {
        let mut r: Vec<(InvestmentId, Action)> = Vec::new();
        let mut i: usize = 0;
        let n = self.count();
        while i < n
            invariant
                self.wf(),
                n == self.sales().len(),
                i <= n,
                r@ == pending(self.sales().take(i as int), now),
            decreases n - i,
        {
            let s = self.campaign_at(i);
            proof {
                assert(self.sales().take(i + 1).drop_last() =~= self.sales().take(i as int));
            }
            match due_action(&s, now) {
                Some(a) => r.push((s.external_id, a)),
                None => {},
            }
            i = i + 1;
        }
        proof {
            assert(self.sales().take(i as int) =~= self.sales());
        }
        r
    }

    /// Carries out `action` on the campaign `id` at `now`.
    pub fn apply_action(&mut self, now: Moment, id: &InvestmentId, action: Action) -> (r: Result<(), Error>)
        requires
            old(self).wf(),
        ensures
            final(self).wf(),
            final(self).same_config(old(self)),
            r == outcome(old(self).sales(), id@, action, now),
            r.is_err() ==> final(self).same_state(old(self)),
            r.is_ok() ==> ({
                let i = index_of(old(self).sales(), id@);
                let s = old(self).sales()[i];
                let cs = old(self).investments()[i];
                match action {
                    Action::Activate => {
                        &&& final(self).sales() == old(self).sales().update(
                            i,
                            SimpleCrowdfunding { status: SimpleCrowdfundingStatus::Active, ..s },
                        )
                        &&& final(self).investments() == old(self).investments()
                        &&& final(self).balances() == old(self).balances()
                    },
                    Action::Expire => {
                        &&& final(self).sales() == old(self).sales().remove(i)
                        &&& final(self).investments() == old(self).investments().remove(i)
                        &&& final(self).balances() == run(old(self).balances(), expiry_plan(s, cs))
                    },
                    Action::Finish => {
                        &&& final(self).sales() == old(self).sales().remove(i)
                        &&& final(self).investments() == old(self).investments().remove(i)
                        &&& final(self).balances() == run(old(self).balances(), finish_plan(s, cs))
                    },
                }
            }),
            ids_unique(final(self).sales()),
            others_kept(old(self).sales(), final(self).sales(), id@),
            r.is_ok() ==> carried_out(final(self).sales(), id@, action),
    {
        proof {
            self.lemma_wf_sales();
        }
        let r = match action {
            Action::Activate => self.activate(now, id),
            Action::Expire => self.expire(now, id),
            Action::Finish => self.finish(id),
        };
        proof {
            let o = old(self).sales();
            if r.is_ok() {
                let i = index_of(o, id@);
                assert(o[i].external_id@ == id@);
                match action {
                    Action::Activate => {
                        lemma_others_after_update(
                            o,
                            i,
                            SimpleCrowdfunding { status: SimpleCrowdfundingStatus::Active, ..o[i] },
                            id@,
                        );
                        lemma_index_of(self.sales(), i);
                    },
                    _ => {
                        lemma_others_after_remove(o, i, id@);
                    },
                }
            }
        }
        r
    }

    /// One maintenance pass at `now`: finds every due transition, then carries each out in
    /// turn, ignoring any that is refused. Returns the transitions found due; each has taken
    /// effect: every campaign due for activation is active, and every campaign due to expire
    /// or finish is settled and gone.
    pub fn tick(&mut self, now: Moment) -> (r: Vec<(InvestmentId, Action)>)
        requires
            old(self).wf(),
        ensures
            final(self).wf(),
            final(self).same_config(old(self)),
            r@ == pending(old(self).sales(), now),
            forall|q: int| 0 <= q < r@.len() ==> carried_out(final(self).sales(), (#[trigger] r@[q]).0@, r@[q].1),
    {
        let found = self.due_transitions(now);
        let ghost start = self.sales();
        proof {
            self.lemma_wf_sales();
            lemma_pending(start, now);
        }
        let mut k: usize = 0;
        while k < found.len()
            invariant
                self.wf(),
                self.same_config(old(self)),
                start == old(self).sales(),
                found@ == pending(start, now),
                k <= found@.len(),
                ids_unique(self.sales()),
                forall|q: int|
                    0 <= q < found@.len() ==> live(start, (#[trigger] found@[q]).0@) && due(
                        record_of(start, found@[q].0@),
                        now,
                    ) == Some(found@[q].1),
                forall|q: int, p: int|
                    0 <= q < p < found@.len() ==> (#[trigger] found@[q]).0@ != (#[trigger] found@[p]).0@,
                forall|q: int|
                    k <= q < found@.len() ==> live(self.sales(), (#[trigger] found@[q]).0@) && record_of(
                        self.sales(),
                        found@[q].0@,
                    ) == record_of(start, found@[q].0@),
                forall|q: int| 0 <= q < k ==> carried_out(self.sales(), (#[trigger] found@[q]).0@, found@[q].1),
            decreases found@.len() - k,
        {
            let (id, action) = found[k];
            let ghost before = self.sales();
            proof {
                assert(found@[k as int].0@ == id@);
            }
            let _ = self.apply_action(now, &id, action);
            proof {
                let after = self.sales();
                assert forall|q: int| k < q < found@.len() implies live(after, (#[trigger] found@[q]).0@)
                    && record_of(after, found@[q].0@) == record_of(start, found@[q].0@) by {
                    assert(found@[q].0@ != id@);
                    assert(live(before, found@[q].0@));
                }
                assert forall|q: int| 0 <= q < k + 1 implies carried_out(
                    after,
                    (#[trigger] found@[q]).0@,
                    found@[q].1,
                ) by {
                    if q < k {
                        let x = found@[q].0@;
                        assert(x != id@);
                        assert(carried_out(before, x, found@[q].1));
                        if live(before, x) {
                            assert(record_of(after, x) == record_of(before, x));
                        }
                    }
                }
            }
            k = k + 1;
        }
        found
    }
}

} // verus!

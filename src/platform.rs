use vstd::prelude::*;
use crate::asset::{Asset, Transfer};
use crate::types::{AccountId, AssetId, Balance, Moment, InvestmentId};
use crate::ledger::{Balances, Denom, Ledger, moved};
use crate::escrow::{escrow_of, investment_account, same_id};
use crate::crowdfunding::{
    Contribution, Error, FundingModel, SimpleCrowdfunding, SimpleCrowdfundingStatus, find_contribution,
    has_owner, not_started, owners_sorted, same_record, total_of, accepted, reaches_hard_cap,
    hard_cap_overflows, correct_hard_cap, upsert_contribution, amounts,
};
use crate::settlement::{
    Step, distribute, distributed, distribution, escrow_emptied, expiry_plan, finish_plan,
    lemma_expiry_returns, lemma_finish_distributes, lemma_plans_from_escrow, lemma_run_append,
    lemma_run_only_debits, lemma_run_step, lemma_settlement_empties_escrow, pay, refund_all, refunds,
    returned, run, sweep_all, sweeps, total_map,
};

verus! {

/// Whether a live campaign has the identifier `id`.
pub open spec fn live(sales: Seq<SimpleCrowdfunding>, id: Seq<u8>) -> bool {
    exists|i: int| 0 <= i < sales.len() && #[trigger] sales[i].external_id@ == id
}

/// The position of the live campaign `id`.
pub open spec fn index_of(sales: Seq<SimpleCrowdfunding>, id: Seq<u8>) -> int {
    choose|i: int| 0 <= i < sales.len() && #[trigger] sales[i].external_id@ == id
}

/// Whether `a` is the escrow account of a live campaign.
pub open spec fn is_escrow(sales: Seq<SimpleCrowdfunding>, a: AccountId) -> bool {
    exists|i: int| 0 <= i < sales.len() && #[trigger] sales[i].account == a
}

/// The terms of a campaign that hold from its creation on.
pub open spec fn terms_ok(s: SimpleCrowdfunding) -> bool {
    &&& s.start_time < s.end_time
    &&& 0 < s.soft_cap <= s.hard_cap
    &&& s.total_amount <= s.hard_cap
    &&& s.shares@.len() > 0
    &&& forall|k: int| 0 <= k < s.shares@.len() ==> (#[trigger] s.shares@[k]).id != s.asset_id
    &&& forall|k: int| 0 <= k < s.shares@.len() ==> (#[trigger] s.shares@[k]).amount > 0
    &&& forall|k: int, l: int|
        0 <= k < l < s.shares@.len() ==> (#[trigger] s.shares@[k]).id != (#[trigger] s.shares@[l]).id
    &&& s.account == escrow_of(s.external_id@)
    &&& s.creator != s.account
    &&& (not_started(s.status) || s.status == SimpleCrowdfundingStatus::Active)
}

/// A campaign with its contributions.
pub open spec fn sale_ok(s: SimpleCrowdfunding, cs: Seq<Contribution>) -> bool {
    &&& terms_ok(s)
    &&& total_of(cs) == s.total_amount
    &&& owners_sorted(cs)
    &&& forall|j: int| 0 <= j < cs.len() ==> (#[trigger] cs[j]).owner != s.account
    &&& forall|j: int| 0 <= j < cs.len() ==> (#[trigger] cs[j]).sale_id == s.external_id
}

/// The escrow account of `s` holds at least what `s` owes: the raised amount, each share,
/// and the deposit `ed` that keeps the account in existence.
pub open spec fn funded(m: Balances, s: SimpleCrowdfunding, ed: nat) -> bool {
    &&& m[(s.account, Denom::Token(s.asset_id))] >= s.total_amount
    &&& forall|k: int|
        0 <= k < s.shares@.len() ==> m[(s.account, Denom::Token((#[trigger] s.shares@[k]).id))]
            >= s.shares@[k].amount
    &&& m[(s.account, Denom::Native)] >= ed
}

/// What creation moves into the new escrow: the deposit, then each share.
pub open spec fn locking(creator: AccountId, escrow: AccountId, shares: Seq<Asset>, ed: Balance) -> Seq<Step> {
    seq![Step::Pay { from: creator, to: escrow, denom: Denom::Native, amount: ed }]
        + shares.map_values(
        |a: Asset| Step::Pay { from: creator, to: escrow, denom: Denom::Token(a.id), amount: a.amount },
    )
}

/// `new` is `old` with a contribution of `amount` by `owner` added: either a new entry, or
/// the amount added to the entry it had.
pub open spec fn contribution_added(
    old: Seq<Contribution>,
    new: Seq<Contribution>,
    sale_id: InvestmentId,
    owner: AccountId,
    amount: Balance,
    time: Moment,
) -> bool {
    &&& owners_sorted(new)
    &&& total_of(new) == total_of(old) + amount
    &&& (!has_owner(old, owner) ==> exists|p: int|
        0 <= p <= old.len() && new == old.insert(p, Contribution { sale_id, owner, amount, time }))
    &&& (has_owner(old, owner) ==> exists|p: int|
        0 <= p < old.len() && old[p].owner == owner && new == old.update(
            p,
            Contribution { amount: (old[p].amount + amount) as Balance, ..old[p] },
        ))
    &&& forall|a: AccountId| #[trigger] has_owner(new, a) == (has_owner(old, a) || a == owner)
}

/// The outcome of activating the campaign `id` at `now`.
pub open spec fn activation(sales: Seq<SimpleCrowdfunding>, id: Seq<u8>, now: Moment) -> Result<(), Error> {
    if !live(sales, id) {
        Err(Error::NotFound)
    } else {
        let s = sales[index_of(sales, id)];
        if s.status == SimpleCrowdfundingStatus::Active {
            Ok(())
        } else if now >= s.start_time {
            Ok(())
        } else {
            Err(Error::ShouldBeStarted)
        }
    }
}

/// The outcome of expiring the campaign `id` at `now`: only an active campaign past its end
/// that missed its soft cap expires.
pub open spec fn expiration(sales: Seq<SimpleCrowdfunding>, id: Seq<u8>, now: Moment) -> Result<(), Error> {
    if !live(sales, id) {
        Err(Error::NotFound)
    } else {
        let s = sales[index_of(sales, id)];
        if s.status != SimpleCrowdfundingStatus::Active {
            Err(Error::ShouldBeActive)
        } else if now >= s.end_time && s.total_amount < s.soft_cap {
            Ok(())
        } else {
            Err(Error::ExpirationWrongState)
        }
    }
}

/// The outcome of finishing the campaign `id`: only an active campaign that reached its soft
/// cap finishes.
pub open spec fn finishing(sales: Seq<SimpleCrowdfunding>, id: Seq<u8>) -> Result<(), Error> {
    if !live(sales, id) {
        Err(Error::NotFound)
    } else {
        let s = sales[index_of(sales, id)];
        if s.status != SimpleCrowdfundingStatus::Active {
            Err(Error::ShouldBeActive)
        } else if s.total_amount >= s.soft_cap {
            Ok(())
        } else {
            Err(Error::SoftCapNotReached)
        }
    }
}

/// Whether a share offers the raised asset itself.
pub open spec fn sells_raised(shares: Seq<Asset>, raise: AssetId) -> bool {
    exists|k: int| 0 <= k < shares.len() && (#[trigger] shares[k]).id == raise
}

/// Whether a share offers nothing.
pub open spec fn has_empty_share(shares: Seq<Asset>) -> bool {
    exists|k: int| 0 <= k < shares.len() && (#[trigger] shares[k]).amount == 0
}

/// What is wrong with one share: it sells the raised asset itself, or it offers nothing.
pub open spec fn share_error(a: Asset, raise: AssetId) -> Option<Error> {
    if a.id == raise {
        Some(Error::WrongAssetId)
    } else if a.amount == 0 {
        Some(Error::AssetAmountMustBePositive)
    } else {
        None
    }
}

/// What is wrong with the first faulty share, taking the shares in list order.
pub open spec fn first_share_error(shares: Seq<Asset>, raise: AssetId) -> Option<Error>
    decreases shares.len(),
{
    if shares.len() == 0 {
        None
    } else {
        match first_share_error(shares.drop_last(), raise) {
            Some(e) => Some(e),
            None => share_error(shares.last(), raise),
        }
    }
}

/// No share is faulty exactly when no share sells the raised asset and none is empty.
pub proof fn lemma_first_share_error(shares: Seq<Asset>, raise: AssetId)
    ensures
        first_share_error(shares, raise).is_none() == (!sells_raised(shares, raise)
            && !has_empty_share(shares)),
    decreases shares.len(),
{
    if shares.len() > 0 {
        let init = shares.drop_last();
        lemma_first_share_error(init, raise);
        if sells_raised(init, raise) {
            let k = choose|k: int| 0 <= k < init.len() && (#[trigger] init[k]).id == raise;
            assert(shares[k] == init[k]);
        }
        if has_empty_share(init) {
            let k = choose|k: int| 0 <= k < init.len() && (#[trigger] init[k]).amount == 0;
            assert(shares[k] == init[k]);
        }
        if sells_raised(shares, raise) {
            let k = choose|k: int| 0 <= k < shares.len() && (#[trigger] shares[k]).id == raise;
            if k < init.len() {
                assert(init[k] == shares[k]);
            }
        }
        if has_empty_share(shares) {
            let k = choose|k: int| 0 <= k < shares.len() && (#[trigger] shares[k]).amount == 0;
            if k < init.len() {
                assert(init[k] == shares[k]);
            }
        }
    }
}

/// Whether two shares offer the same asset.
pub open spec fn has_duplicate(shares: Seq<Asset>) -> bool {
    exists|k: int, l: int| 0 <= k < l < shares.len() && (#[trigger] shares[k]).id == (#[trigger] shares[l]).id
}

/// Whether `a` holds less of some share than it offers.
pub open spec fn short_of_shares(m: Balances, a: AccountId, shares: Seq<Asset>) -> bool {
    exists|k: int|
        0 <= k < shares.len() && m[(a, Denom::Token((#[trigger] shares[k]).id))] < shares[k].amount
}

/// The campaign record that creation enters.
pub open spec fn created(
    r: SimpleCrowdfunding,
    id: InvestmentId,
    creator: AccountId,
    shares: Seq<Asset>,
    raise: AssetId,
    start_time: Moment,
    end_time: Moment,
    soft_cap: Balance,
    hard_cap: Balance,
) -> bool {
    &&& r.external_id == id
    &&& r.creator == creator
    &&& r.account == escrow_of(id@)
    &&& r.start_time == start_time
    &&& r.end_time == end_time
    &&& r.status == SimpleCrowdfundingStatus::Inactive
    &&& r.asset_id == raise
    &&& r.total_amount == 0
    &&& r.soft_cap == soft_cap
    &&& r.hard_cap == hard_cap
    &&& r.shares@ == shares
}

/// All live campaigns, their contributions and the balances, with the limits they were
/// configured with.
pub struct Platform {
    ledger: Ledger,
    sales: Vec<SimpleCrowdfunding>,
    investments: Vec<Vec<Contribution>>,
    max_shares: usize,
    existential_deposit: Balance,
}

impl Platform {
    /// The live campaigns.
    pub closed spec fn sales(&self) -> Seq<SimpleCrowdfunding> {
        self.sales@
    }

    /// The contributions of each live campaign, in the order of `sales()`.
    pub closed spec fn investments(&self) -> Seq<Seq<Contribution>> {
        self.investments@.map_values(|v: Vec<Contribution>| v@)
    }

    /// Every account's balances.
    pub closed spec fn balances(&self) -> Balances {
        self.ledger@
    }

    /// The total amount of `d` in existence.
    pub closed spec fn supply(&self, d: Denom) -> nat {
        self.ledger.supply(d)
    }

    /// The most shares that one campaign may offer.
    pub closed spec fn max_shares(&self) -> nat {
        self.max_shares as nat
    }

    /// The native balance that an account needs in order to exist.
    pub closed spec fn existential_deposit(&self) -> Balance {
        self.existential_deposit
    }

    pub closed spec fn wf(&self) -> bool {
        &&& self.ledger.wf()
        &&& self.sales@.len() == self.investments@.len()
        &&& forall|i: int|
            0 <= i < self.sales@.len() ==> sale_ok(#[trigger] self.sales@[i], self.investments@[i]@)
        &&& forall|i: int|
            0 <= i < self.sales@.len() ==> funded(
                self.ledger@,
                #[trigger] self.sales@[i],
                self.existential_deposit as nat,
            )
        &&& forall|i: int, j: int|
            0 <= i < self.sales@.len() && 0 <= j < self.sales@.len() && i != j ==> (
            #[trigger] self.sales@[i]).external_id@ != (#[trigger] self.sales@[j]).external_id@
                && self.sales@[i].account != self.sales@[j].account
    }

    /// The same limits.
    pub open spec fn same_config(&self, o: &Platform) -> bool {
        &&& self.max_shares() == o.max_shares()
        &&& self.existential_deposit() == o.existential_deposit()
    }

    /// The same live campaigns, contributions and balances.
    pub open spec fn same_state(&self, o: &Platform) -> bool {
        &&& self.sales() == o.sales()
        &&& self.investments() == o.investments()
        &&& self.balances() == o.balances()
    }

    /// Every campaign satisfies its invariants at every state reached.
    pub proof fn lemma_wf_sales(&self)
        requires
            self.wf(),
        ensures
            self.sales().len() == self.investments().len(),
            forall|i: int|
                0 <= i < self.sales().len() ==> sale_ok(
                    #[trigger] self.sales()[i],
                    self.investments()[i],
                ),
            forall|i: int|
                0 <= i < self.sales().len() ==> funded(
                    self.balances(),
                    #[trigger] self.sales()[i],
                    self.existential_deposit() as nat,
                ),
            forall|i: int, j: int|
                0 <= i < self.sales().len() && 0 <= j < self.sales().len() && i != j ==> (
                #[trigger] self.sales()[i]).external_id@ != (#[trigger] self.sales()[j]).external_id@
                    && self.sales()[i].account != self.sales()[j].account,
            forall|k: (AccountId, Denom)| #[trigger] self.balances().dom().contains(k),
    {
        self.ledger.lemma_total();
    }

    /// An empty platform whose campaigns offer at most `max_shares` shares and whose
    /// accounts exist while they hold `existential_deposit` of the native currency.
    pub fn new(max_shares: usize, existential_deposit: Balance) -> (r: Platform)
        ensures
            r.wf(),
            r.sales().len() == 0,
            r.max_shares() == max_shares,
            r.existential_deposit() == existential_deposit,
            forall|k: (AccountId, Denom)| #[trigger] r.balances()[k] == 0,
            forall|d: Denom| #[trigger] r.supply(d) == 0,
    {
        Platform {
            ledger: Ledger::new(),
            sales: Vec::new(),
            investments: Vec::new(),
            max_shares,
            existential_deposit,
        }
    }

    /// The balance of `a` in `d`.
    pub fn balance(&self, a: AccountId, d: Denom) -> (r: Balance)
        requires
            self.wf(),
        ensures
            r == self.balances()[(a, d)],
    {
        self.ledger.balance(a, d)
    }

    /// Creates `amount` of `d` in the account `a`; refused where the supply of `d` would
    /// pass `u64::MAX`.
    pub fn deposit(&mut self, a: AccountId, d: Denom, amount: Balance) -> (ok: bool)
        requires
            old(self).wf(),
        ensures
            final(self).wf(),
            ok == (old(self).supply(d) + amount <= u64::MAX),
            final(self).sales() == old(self).sales(),
            final(self).investments() == old(self).investments(),
            ok ==> final(self).balances() == old(self).balances().insert(
                (a, d),
                (old(self).balances()[(a, d)] + amount) as nat,
            ),
            !ok ==> final(self).balances() == old(self).balances(),
            ok ==> final(self).supply(d) == old(self).supply(d) + amount,
            forall|e: Denom| e != d ==> #[trigger] final(self).supply(e) == old(self).supply(e),
            final(self).same_config(old(self)),
    {
        let ok = self.ledger.deposit(a, d, amount);
        proof {
            old(self).ledger.lemma_total();
            assert forall|i: int| 0 <= i < self.sales@.len() implies funded(
                self.ledger@,
                #[trigger] self.sales@[i],
                self.existential_deposit as nat,
            ) by {
                assert(funded(old(self).ledger@, old(self).sales@[i], self.existential_deposit as nat));
            }
        }
        ok
    }

    fn position(&self, id: &InvestmentId) -> (r: Option<usize>)
        requires
            self.wf(),
        ensures
            match r {
                Some(i) => live(self.sales(), id@) && i == index_of(self.sales(), id@) && i
                    < self.sales().len(),
                None => !live(self.sales(), id@),
            },
    {
        let mut i: usize = 0;
        while i < self.sales.len()
            invariant
                self.wf(),
                i <= self.sales@.len(),
                forall|j: int| 0 <= j < i ==> (#[trigger] self.sales@[j]).external_id@ != id@,
            decreases self.sales@.len() - i,
        {
            if same_id(&self.sales[i].external_id, id) {
                proof {
                    assert(live(self.sales(), id@));
                    let k = index_of(self.sales(), id@);
                    assert(self.sales@[k].external_id@ == id@);
                }
                return Some(i);
            }
            i = i + 1;
        }
        None
    }

    /// The live campaign `id`, if there is one.
    pub fn get_campaign(&self, id: &InvestmentId) -> (r: Option<SimpleCrowdfunding>)
        requires
            self.wf(),
        ensures
            match r {
                Some(s) => live(self.sales(), id@) && same_record(
                    s,
                    self.sales()[index_of(self.sales(), id@)],
                ),
                None => !live(self.sales(), id@),
            },
    {
        match self.position(id) {
            Some(i) => Some(self.sales[i].duplicate()),
            None => None,
        }
    }

    /// What `investor` has contributed to the live campaign `id`, if anything.
    pub fn get_contribution(&self, id: &InvestmentId, investor: AccountId) -> (r: Option<Contribution>)
        requires
            self.wf(),
        ensures
            match r {
                Some(c) => live(self.sales(), id@) && c.owner == investor && exists|j: int|
                    0 <= j < self.investments()[index_of(self.sales(), id@)].len()
                        && self.investments()[index_of(self.sales(), id@)][j] == c,
                None => !live(self.sales(), id@) || !has_owner(
                    self.investments()[index_of(self.sales(), id@)],
                    investor,
                ),
            },
    {
        match self.position(id) {
            Some(i) => {
                proof {
                    assert(self.investments()[i as int] == self.investments@[i as int]@);
                }
                find_contribution(&self.investments[i], investor)
            },
            None => None,
        }
    }

    /// The number of live campaigns that hold a contribution of `a`: the holds that keep
    /// the account from being removed.
    pub fn holds(&self, a: AccountId) -> (r: usize)
        requires
            self.wf(),
        ensures
            r == self.investments().filter(|cs: Seq<Contribution>| has_owner(cs, a)).len(),
    {
        let ghost all = self.investments();
        let mut n: usize = 0;
        let mut i: usize = 0;
        while i < self.investments.len()
            invariant
                self.wf(),
                all == self.investments(),
                i <= all.len(),
                all.len() == self.investments@.len(),
                n == all.take(i as int).filter(|cs: Seq<Contribution>| has_owner(cs, a)).len(),
                n <= i,
            decreases all.len() - i,
        {
            proof {
                assert(all.take(i + 1).drop_last() =~= all.take(i as int));
                reveal(Seq::filter);
                assert(all[i as int] == self.investments@[i as int]@);
            }
            if find_contribution(&self.investments[i], a).is_some() {
                n = n + 1;
            }
            i = i + 1;
        }
        proof {
            assert(all.take(i as int) =~= all);
        }
        n
    }

    proof fn lemma_removed(old: Platform, new: Platform, i: int, x: AccountId)
        requires
            old.wf(),
            0 <= i < old.sales@.len(),
            new.ledger.wf(),
            new.sales@ == old.sales@.remove(i),
            new.investments@ == old.investments@.remove(i),
            new.existential_deposit == old.existential_deposit,
            forall|j: int| 0 <= j < old.sales@.len() && j != i ==> (#[trigger] old.sales@[j]).account != x,
            forall|k: (AccountId, Denom)|
                k.0 != old.sales@[i].account && k.0 != x ==> #[trigger] new.ledger@[k] >= old.ledger@[k],
        ensures
            new.wf(),
    {
        old.ledger.lemma_total();
        let ed = old.existential_deposit as nat;
        assert forall|j: int| 0 <= j < new.sales@.len() implies funded(
            new.ledger@,
            #[trigger] new.sales@[j],
            ed,
        ) by {
            let o = if j < i { j } else { j + 1 };
            assert(new.sales@[j] == old.sales@[o]);
            assert(funded(old.ledger@, old.sales@[o], ed));
            let s = old.sales@[o];
            assert(s.account != old.sales@[i].account);
            assert(s.account != x);
            assert forall|k: int| 0 <= k < s.shares@.len() implies new.ledger@[(
                s.account,
                Denom::Token((#[trigger] s.shares@[k]).id),
            )] >= s.shares@[k].amount by {
                assert(old.ledger@[(s.account, Denom::Token(s.shares@[k].id))] >= s.shares@[k].amount);
                assert(new.ledger@[(s.account, Denom::Token(s.shares@[k].id))] >= old.ledger@[(
                    s.account,
                    Denom::Token(s.shares@[k].id),
                )]);
            }
            assert(new.ledger@[(s.account, Denom::Token(s.asset_id))] >= old.ledger@[(
                s.account,
                Denom::Token(s.asset_id),
            )]);
            assert(new.ledger@[(s.account, Denom::Native)] >= old.ledger@[(s.account, Denom::Native)]);
        }
        assert forall|j: int| 0 <= j < new.sales@.len() implies sale_ok(
            #[trigger] new.sales@[j],
            new.investments@[j]@,
        ) by {
            let o = if j < i { j } else { j + 1 };
            assert(new.sales@[j] == old.sales@[o]);
            assert(new.investments@[j] == old.investments@[o]);
        }
        assert forall|a: int, b: int|
            0 <= a < new.sales@.len() && 0 <= b < new.sales@.len() && a != b implies (
            #[trigger] new.sales@[a]).external_id@ != (#[trigger] new.sales@[b]).external_id@
                && new.sales@[a].account != new.sales@[b].account by {
            let oa = if a < i { a } else { a + 1 };
            let ob = if b < i { b } else { b + 1 };
            assert(new.sales@[a] == old.sales@[oa]);
            assert(new.sales@[b] == old.sales@[ob]);
        }
    }

    /// Takes the campaign at `i` out, with its contributions.
    fn take_out(&mut self, i: usize) -> (r: (SimpleCrowdfunding, Vec<Contribution>))
        requires
            old(self).wf(),
            i < old(self).sales@.len(),
        ensures
            r.0 == old(self).sales@[i as int],
            r.1@ == old(self).investments()[i as int],
            final(self).sales@ == old(self).sales@.remove(i as int),
            final(self).investments@ == old(self).investments@.remove(i as int),
            final(self).ledger == old(self).ledger,
            final(self).existential_deposit == old(self).existential_deposit,
            final(self).max_shares == old(self).max_shares,
            final(self).sales().len() == old(self).sales().len() - 1,
            final(self).investments() == old(self).investments().remove(i as int),
            final(self).sales() == old(self).sales().remove(i as int),
    {
        let s = self.sales.remove(i);
        let cs = self.investments.remove(i);
        proof {
            assert(self.investments() =~= old(self).investments().remove(i as int));
        }
        (s, cs)
    }

    /// Expires the campaign `id`: every contribution goes back to its investor, whatever
    /// remains in escrow goes back to the creator, and the campaign and its contributions
    /// are removed.
    pub fn expire(&mut self, now: Moment, id: &InvestmentId) -> (r: Result<(), Error>)
        requires
            old(self).wf(),
        ensures
            final(self).wf(),
            final(self).same_config(old(self)),
            r == expiration(old(self).sales(), id@, now),
            r.is_err() ==> final(self).same_state(old(self)),
            r.is_ok() ==> ({
                let i = index_of(old(self).sales(), id@);
                &&& final(self).sales() == old(self).sales().remove(i)
                &&& final(self).investments() == old(self).investments().remove(i)
                &&& final(self).balances() == run(
                    old(self).balances(),
                    expiry_plan(old(self).sales()[i], old(self).investments()[i]),
                )
                &&& !live(final(self).sales(), id@)
                &&& escrow_emptied(final(self).balances(), old(self).sales()[i])
                &&& returned(
                    old(self).balances(),
                    final(self).balances(),
                    old(self).sales()[i],
                    old(self).investments()[i],
                )
            }),
    {
        let i = match self.position(id) {
            Some(i) => i,
            None => return Err(Error::NotFound),
        };
        if self.sales[i].status != SimpleCrowdfundingStatus::Active {
            return Err(Error::ShouldBeActive);
        }
        if !(now >= self.sales[i].end_time && self.sales[i].total_amount < self.sales[i].soft_cap) {
            return Err(Error::ExpirationWrongState);
        }
        let ghost before = *self;
        let (s, cs) = self.take_out(i);
        refund_all(&mut self.ledger, &s, &cs);
        sweep_all(&mut self.ledger, &s);
        proof {
            before.ledger.lemma_total();
            lemma_run_append(before.ledger@, refunds(s, cs@), sweeps(s));
            lemma_plans_from_escrow(s, cs@);
            lemma_run_only_debits(before.ledger@, expiry_plan(s, cs@), s.account);
            assert(sale_ok(before.sales@[i as int], before.investments@[i as int]@));
            assert(funded(before.ledger@, before.sales@[i as int], before.existential_deposit as nat));
            lemma_expiry_returns(before.ledger@, s, cs@);
            Self::lemma_removed(before, *self, i as int, s.account);
            Self::lemma_gone(before, i as int, id@);
            lemma_settlement_empties_escrow(before.ledger@, s, cs@);
        }
        Ok(())
    }

    /// Finishes the campaign `id`: each share is distributed pro rata over the
    /// contributions, whatever remains in escrow goes back to the creator, and the campaign
    /// and its contributions are removed.
    pub fn finish(&mut self, id: &InvestmentId) -> (r: Result<(), Error>)
        requires
            old(self).wf(),
        ensures
            final(self).wf(),
            final(self).same_config(old(self)),
            r == finishing(old(self).sales(), id@),
            r.is_err() ==> final(self).same_state(old(self)),
            r.is_ok() ==> ({
                let i = index_of(old(self).sales(), id@);
                &&& final(self).sales() == old(self).sales().remove(i)
                &&& final(self).investments() == old(self).investments().remove(i)
                &&& final(self).balances() == run(
                    old(self).balances(),
                    finish_plan(old(self).sales()[i], old(self).investments()[i]),
                )
                &&& !live(final(self).sales(), id@)
                &&& escrow_emptied(final(self).balances(), old(self).sales()[i])
                &&& distributed(
                    old(self).balances(),
                    final(self).balances(),
                    old(self).sales()[i],
                    old(self).investments()[i],
                )
            }),
    {
        let i = match self.position(id) {
            Some(i) => i,
            None => return Err(Error::NotFound),
        };
        if self.sales[i].status != SimpleCrowdfundingStatus::Active {
            return Err(Error::ShouldBeActive);
        }
        if self.sales[i].total_amount < self.sales[i].soft_cap {
            return Err(Error::SoftCapNotReached);
        }
        let ghost before = *self;
        let (s, cs) = self.take_out(i);
        proof {
            assert(sale_ok(before.sales@[i as int], before.investments@[i as int]@));
        }
        distribute(&mut self.ledger, &s, &cs);
        sweep_all(&mut self.ledger, &s);
        proof {
            before.ledger.lemma_total();
            lemma_run_append(
                before.ledger@,
                distribution(s, cs@, s.shares@),
                sweeps(s),
            );
            lemma_plans_from_escrow(s, cs@);
            lemma_run_only_debits(before.ledger@, finish_plan(s, cs@), s.account);
            assert(funded(before.ledger@, before.sales@[i as int], before.existential_deposit as nat));
            lemma_finish_distributes(before.ledger@, s, cs@);
            Self::lemma_removed(before, *self, i as int, s.account);
            Self::lemma_gone(before, i as int, id@);
            lemma_settlement_empties_escrow(before.ledger@, s, cs@);
        }
        Ok(())
    }

    /// Opens the campaign `id` for investment once its start time has come; an active
    /// campaign stays as it is.
    pub fn activate(&mut self, now: Moment, id: &InvestmentId) -> (r: Result<(), Error>)
        requires
            old(self).wf(),
        ensures
            final(self).wf(),
            final(self).same_config(old(self)),
            r == activation(old(self).sales(), id@, now),
            r.is_err() ==> final(self).same_state(old(self)),
            r.is_ok() ==> ({
                let i = index_of(old(self).sales(), id@);
                let s = old(self).sales()[i];
                &&& final(self).sales() == old(self).sales().update(
                    i,
                    SimpleCrowdfunding { status: SimpleCrowdfundingStatus::Active, ..s },
                )
                &&& final(self).investments() == old(self).investments()
                &&& final(self).balances() == old(self).balances()
            }),
    {
        let i = match self.position(id) {
            Some(i) => i,
            None => return Err(Error::NotFound),
        };
        let status = self.sales[i].status;
        if status == SimpleCrowdfundingStatus::Active {
            proof {
                let s = self.sales@[i as int];
                assert(self.sales@ =~= self.sales@.update(
                    i as int,
                    SimpleCrowdfunding { status: SimpleCrowdfundingStatus::Active, ..s },
                ));
            }
            return Ok(());
        }
        if now < self.sales[i].start_time {
            return Err(Error::ShouldBeStarted);
        }
        let ghost before = *self;
        let mut s = self.sales.remove(i);
        s.status = SimpleCrowdfundingStatus::Active;
        self.sales.insert(i, s);
        proof {
            assert(self.sales@ =~= before.sales@.update(i as int, s));
            assert forall|j: int| 0 <= j < self.sales@.len() implies sale_ok(
                #[trigger] self.sales@[j],
                self.investments@[j]@,
            ) by {
                assert(sale_ok(before.sales@[j], before.investments@[j]@));
            }
            assert forall|j: int| 0 <= j < self.sales@.len() implies funded(
                self.ledger@,
                #[trigger] self.sales@[j],
                self.existential_deposit as nat,
            ) by {
                assert(funded(before.ledger@, before.sales@[j], self.existential_deposit as nat));
            }
            assert forall|a: int, b: int|
                0 <= a < self.sales@.len() && 0 <= b < self.sales@.len() && a != b implies (
                #[trigger] self.sales@[a]).external_id@ != (#[trigger] self.sales@[b]).external_id@
                    && self.sales@[a].account != self.sales@[b].account by {
                assert(before.sales@[a].external_id == self.sales@[a].external_id);
                assert(before.sales@[b].external_id == self.sales@[b].external_id);
            }
        }
        Ok(())
    }

    /// The outcome of creating a campaign: each check in turn, the first that fails
    /// giving the error.
    pub open spec fn creation(
        &self,
        now: Moment,
        creator: AccountId,
        id: InvestmentId,
        shares: Seq<Asset>,
        raise: AssetId,
        start_time: Moment,
        end_time: Moment,
        soft_cap: Balance,
        hard_cap: Balance,
    ) -> Result<(), Error> {
        let escrow = escrow_of(id@);
        let m = self.balances();
        if shares.len() > self.max_shares() {
            Err(Error::TooMuchShares)
        } else if start_time < now {
            Err(Error::StartTimeMustBeLaterOrEqualCurrentMoment)
        } else if end_time <= start_time {
            Err(Error::EndTimeMustBeLaterStartTime)
        } else if soft_cap == 0 {
            Err(Error::SoftCapMustBeGreaterOrEqualMinimum)
        } else if hard_cap < soft_cap {
            Err(Error::HardCapShouldBeGreaterOrEqualSoftCap)
        } else if shares.len() == 0 {
            Err(Error::SecurityTokenNotSpecified)
        } else if first_share_error(shares, raise).is_some() {
            Err(first_share_error(shares, raise).unwrap())
        } else if has_duplicate(shares) {
            Err(Error::DuplicateAssetId)
        } else if live(self.sales(), id@) {
            Err(Error::AlreadyExists)
        } else if escrow == creator || is_escrow(self.sales(), escrow) || is_escrow(
            self.sales(),
            creator,
        ) {
            Err(Error::EscrowAccountInUse)
        } else if m[(creator, Denom::Native)] < self.existential_deposit() || short_of_shares(
            m,
            creator,
            shares,
        ) {
            Err(Error::BalanceIsNotEnough)
        } else {
            Ok(())
        }
    }

    fn find_escrow(&self, a: AccountId) -> (r: bool)
        requires
            self.wf(),
        ensures
            r == is_escrow(self.sales(), a),
    {
        let mut i: usize = 0;
        while i < self.sales.len()
            invariant
                i <= self.sales@.len(),
                forall|j: int| 0 <= j < i ==> (#[trigger] self.sales@[j]).account != a,
            decreases self.sales@.len() - i,
        {
            if self.sales[i].account == a {
                return true;
            }
            i = i + 1;
        }
        false
    }

    /// Checks the shares against the raised asset and the creator's balances, in the order
    /// that creation reports them.
    fn check_shares(&self, creator: AccountId, shares: &Vec<Asset>, raise: AssetId) -> (r: (
        Option<Error>,
        bool,
        bool,
    ))
        requires
            self.wf(),
        ensures
            r.0 == first_share_error(shares@, raise),
            r.1 == has_duplicate(shares@),
            r.2 == short_of_shares(self.balances(), creator, shares@),
    {
        let mut first: Option<Error> = None;
        let mut dup = false;
        let mut short = false;
        let mut k: usize = 0;
        while k < shares.len()
            invariant
                self.wf(),
                k <= shares@.len(),
                first == first_share_error(shares@.take(k as int), raise),
                dup == exists|a: int, b: int|
                    0 <= a < b < k && (#[trigger] shares@[a]).id == (#[trigger] shares@[b]).id,
                short == exists|j: int|
                    0 <= j < k && self.balances()[(creator, Denom::Token((#[trigger] shares@[j]).id))]
                        < shares@[j].amount,
            decreases shares@.len() - k,
        {
            let a = shares[k];
            proof {
                assert(shares@.take(k + 1).drop_last() =~= shares@.take(k as int));
            }
            if first.is_none() {
                if a.id == raise {
                    first = Some(Error::WrongAssetId);
                } else if a.amount == 0 {
                    first = Some(Error::AssetAmountMustBePositive);
                }
            }
            if self.ledger.balance(creator, Denom::Token(a.id)) < a.amount {
                short = true;
            }
            let mut l: usize = 0;
            let ghost dup_before = dup;
            while l < k
                invariant
                    k < shares@.len(),
                    l <= k,
                    a == shares@[k as int],
                    dup == (dup_before || exists|b: int| 0 <= b < l && (#[trigger] shares@[b]).id == a.id),
                decreases k - l,
            {
                if shares[l].id == a.id {
                    dup = true;
                }
                l = l + 1;
            }
            proof {
                if dup && !dup_before {
                    let b = choose|b: int| 0 <= b < l && (#[trigger] shares@[b]).id == a.id;
                    assert(shares@[b].id == shares@[k as int].id);
                }
                if exists|x: int, y: int|
                    0 <= x < y < k + 1 && (#[trigger] shares@[x]).id == (#[trigger] shares@[y]).id {
                    let (x, y) = choose|x: int, y: int|
                        0 <= x < y < k + 1 && (#[trigger] shares@[x]).id == (#[trigger] shares@[y]).id;
                    if y < k {
                        assert(dup_before);
                    } else {
                        assert(shares@[x].id == a.id);
                    }
                }
            }
            k = k + 1;
        }
        proof {
            assert(shares@.take(k as int) =~= shares@);
        }
        (first, dup, short)
    }

    /// Creates the campaign `id` of `creator`, selling `shares` for the asset `raise` on the
    /// terms of `model`: brings its escrow account into existence with the existential
    /// deposit, locks every share there, and enters the campaign as not yet started. Every
    /// check comes before the first change, so a refused creation changes nothing.
    #[verifier::spinoff_prover]
    pub fn create_campaign(
        &mut self,
        now: Moment,
        creator: AccountId,
        id: InvestmentId,
        shares: Vec<Asset>,
        raise: AssetId,
        model: FundingModel,
    ) -> (r: Result<(), Error>)
        requires
            old(self).wf(),
        ensures
            final(self).wf(),
            final(self).same_config(old(self)),
            ({
                let FundingModel::SimpleCrowdfunding { start_time, end_time, soft_cap, hard_cap } =
                    model;
                r == old(self).creation(
                    now,
                    creator,
                    id,
                    shares@,
                    raise,
                    start_time,
                    end_time,
                    soft_cap,
                    hard_cap,
                ) && (r.is_ok() ==> {
                    let n = old(self).sales().len();
                    &&& final(self).sales().len() == n + 1
                    &&& final(self).sales().take(n as int) == old(self).sales()
                    &&& created(
                        final(self).sales()[n as int],
                        id,
                        creator,
                        shares@,
                        raise,
                        start_time,
                        end_time,
                        soft_cap,
                        hard_cap,
                    )
                    &&& final(self).investments() == old(self).investments().push(Seq::empty())
                    &&& final(self).balances() == run(
                        old(self).balances(),
                        locking(creator, escrow_of(id@), shares@, old(self).existential_deposit()),
                    )
                })
            }),
            r.is_err() ==> final(self).same_state(old(self)),
    {
        let FundingModel::SimpleCrowdfunding { start_time, end_time, soft_cap, hard_cap } = model;
        if shares.len() > self.max_shares {
            return Err(Error::TooMuchShares);
        }
        if start_time < now {
            return Err(Error::StartTimeMustBeLaterOrEqualCurrentMoment);
        }
        if end_time <= start_time {
            return Err(Error::EndTimeMustBeLaterStartTime);
        }
        if soft_cap == 0 {
            return Err(Error::SoftCapMustBeGreaterOrEqualMinimum);
        }
        if hard_cap < soft_cap {
            return Err(Error::HardCapShouldBeGreaterOrEqualSoftCap);
        }
        if shares.len() == 0 {
            return Err(Error::SecurityTokenNotSpecified);
        }
        let (first, dup, short) = self.check_shares(creator, &shares, raise);
        match first {
            Some(e) => return Err(e),
            None => {},
        }
        proof {
            lemma_first_share_error(shares@, raise);
        }
        if dup {
            return Err(Error::DuplicateAssetId);
        }
        if self.position(&id).is_some() {
            return Err(Error::AlreadyExists);
        }
        let escrow = investment_account(&id);
        if escrow == creator || self.find_escrow(escrow) || self.find_escrow(creator) {
            return Err(Error::EscrowAccountInUse);
        }
        if self.ledger.balance(creator, Denom::Native) < self.existential_deposit || short {
            return Err(Error::BalanceIsNotEnough);
        }
        let ghost before = *self;
        let ghost m0 = self.ledger@;
        let ghost steps = locking(creator, escrow, shares@, self.existential_deposit);
        let ghost ed = self.existential_deposit as nat;
        proof {
            self.ledger.lemma_total();
            lemma_run_step(m0, steps, 0);
            assert(steps.take(0) =~= Seq::<Step>::empty());
            assert(steps[0] == Step::Pay {
                from: creator,
                to: escrow,
                denom: Denom::Native,
                amount: self.existential_deposit,
            });
        }
        pay(&mut self.ledger, creator, escrow, Denom::Native, self.existential_deposit);
        let mut k: usize = 0;
        while k < shares.len()
            invariant
                self.ledger.wf(),
                before == (Platform { ledger: before.ledger, ..*self }),
                before.ledger@ == m0,
                total_map(m0),
                k <= shares@.len(),
                steps == locking(creator, escrow, shares@, before.existential_deposit),
                steps.len() == shares@.len() + 1,
                self.ledger@ == run(m0, steps.take(k + 1)),
                creator != escrow,
                ed == before.existential_deposit,
                self.ledger@[(escrow, Denom::Native)] >= ed,
                m0[(creator, Denom::Native)] >= ed,
                !short_of_shares(m0, creator, shares@),
                !has_duplicate(shares@),
                forall|l: int| k <= l < shares@.len() ==> self.ledger@[(creator, Denom::Token(
                    (#[trigger] shares@[l]).id))] == m0[(creator, Denom::Token(shares@[l].id))],
                forall|l: int| 0 <= l < k ==> self.ledger@[(escrow, Denom::Token(
                    (#[trigger] shares@[l]).id))] >= shares@[l].amount,
                forall|q: (AccountId, Denom)| q.0 != creator ==> #[trigger] self.ledger@[q] >= m0[q],
                total_map(self.ledger@),
            decreases shares@.len() - k,
        {
            let a = shares[k];
            proof {
                lemma_run_step(m0, steps, k + 1);
                assert(steps[k + 1] == Step::Pay {
                    from: creator,
                    to: escrow,
                    denom: Denom::Token(a.id),
                    amount: a.amount,
                });
                assert(self.ledger@[(creator, Denom::Token(a.id))] >= a.amount);
            }
            pay(&mut self.ledger, creator, escrow, Denom::Token(a.id), a.amount);
            proof {
                assert forall|l: int| k + 1 <= l < shares@.len() implies self.ledger@[(creator, Denom::Token(
                    (#[trigger] shares@[l]).id))] == m0[(creator, Denom::Token(shares@[l].id))] by {
                    assert(shares@[l].id != shares@[k as int].id);
                }
                assert forall|l: int| 0 <= l < k + 1 implies self.ledger@[(escrow, Denom::Token(
                    (#[trigger] shares@[l]).id))] >= shares@[l].amount by {
                    if l < k {
                        assert(shares@[l].id != shares@[k as int].id);
                    }
                }
            }
            k = k + 1;
        }
        proof {
            assert(steps.take(k + 1) =~= steps);
        }
        let record = SimpleCrowdfunding {
            external_id: id,
            creator,
            account: escrow,
            start_time,
            end_time,
            status: SimpleCrowdfundingStatus::Inactive,
            asset_id: raise,
            total_amount: 0,
            soft_cap,
            hard_cap,
            shares,
        };
        self.sales.push(record);
        self.investments.push(Vec::new());
        proof {
            let n = before.sales@.len() as int;
            assert(self.sales@.take(n) =~= before.sales@);
            assert(self.investments() =~= before.investments().push(Seq::empty()));
            assert(total_of(Seq::<Contribution>::empty()) == 0);
            assert(amounts(Seq::<Contribution>::empty()) =~= Seq::<nat>::empty());
            assert forall|j: int| 0 <= j < self.sales@.len() implies sale_ok(
                #[trigger] self.sales@[j],
                self.investments@[j]@,
            ) by {
                if j < n {
                    assert(sale_ok(before.sales@[j], before.investments@[j]@));
                } else {
                    assert(self.investments@[j]@ =~= Seq::<Contribution>::empty());
                }
            }
            assert forall|j: int| 0 <= j < self.sales@.len() implies funded(
                self.ledger@,
                #[trigger] self.sales@[j],
                ed,
            ) by {
                if j < n {
                    let s = before.sales@[j];
                    assert(funded(m0, s, ed));
                    assert(s.account != creator);
                    assert forall|q: int| 0 <= q < s.shares@.len() implies self.ledger@[(
                        s.account,
                        Denom::Token((#[trigger] s.shares@[q]).id),
                    )] >= s.shares@[q].amount by {
                        assert(m0[(s.account, Denom::Token(s.shares@[q].id))] >= s.shares@[q].amount);
                    }
                    assert(self.ledger@[(s.account, Denom::Token(s.asset_id))] >= m0[(s.account, Denom::Token(s.asset_id))]);
                    assert(self.ledger@[(s.account, Denom::Native)] >= m0[(s.account, Denom::Native)]);
                }
            }
            assert forall|a: int, b: int|
                0 <= a < self.sales@.len() && 0 <= b < self.sales@.len() && a != b implies (
                #[trigger] self.sales@[a]).external_id@ != (#[trigger] self.sales@[b]).external_id@
                    && self.sales@[a].account != self.sales@[b].account by {
                if a < n && b < n {
                } else if a == n {
                    assert(self.sales@[b] == before.sales@[b]);
                } else {
                    assert(self.sales@[a] == before.sales@[a]);
                }
            }
        }
        Ok(())
    }

    /// The outcome of `investor` offering `asset` to the campaign `id`.
    pub open spec fn investing(&self, investor: AccountId, id: InvestmentId, asset: Asset) -> Result<
        (),
        Error,
    > {
        let sales = self.sales();
        if !live(sales, id@) {
            Err(Error::InvestingNotFound)
        } else {
            let s = sales[index_of(sales, id@)];
            if s.status != SimpleCrowdfundingStatus::Active {
                Err(Error::InvestingNotActive)
            } else if asset.id != s.asset_id {
                Err(Error::InvestingWrongAsset)
            } else if is_escrow(sales, investor) {
                Err(Error::InvestingFromEscrow)
            } else if self.balances()[(investor, Denom::Token(s.asset_id))] < accepted(
                s.total_amount as nat,
                asset.amount as nat,
                s.hard_cap as nat,
            ) {
                Err(Error::InvestingNotEnoughFunds)
            } else {
                Ok(())
            }
        }
    }

    /// `investor` offers `asset` to the campaign `id`. What the campaign accepts (all of
    /// it, or what is left below the hard cap) moves to escrow and is added to the
    /// investor's contribution and to the amount raised. Where that reaches the hard cap,
    /// the campaign finishes at once.
    #[verifier::spinoff_prover]
    pub fn invest(&mut self, now: Moment, investor: AccountId, id: &InvestmentId, asset: Asset) -> (r:
        Result<(), Error>)
        requires
            old(self).wf(),
        ensures
            final(self).wf(),
            final(self).same_config(old(self)),
            r == old(self).investing(investor, *id, asset),
            r.is_err() ==> final(self).same_state(old(self)),
            r.is_ok() ==> ({
                let i = index_of(old(self).sales(), id@);
                let s = old(self).sales()[i];
                let cs = old(self).investments()[i];
                let amt = accepted(s.total_amount as nat, asset.amount as nat, s.hard_cap as nat);
                let m1 = moved(old(self).balances(), investor, s.account, Denom::Token(s.asset_id), amt);
                let s2 = SimpleCrowdfunding { total_amount: (s.total_amount + amt) as Balance, ..s };
                if reaches_hard_cap(s.total_amount as nat, asset.amount as nat, s.hard_cap as nat) {
                    &&& final(self).sales() == old(self).sales().remove(i)
                    &&& final(self).investments() == old(self).investments().remove(i)
                    &&& !live(final(self).sales(), id@)
                    &&& escrow_emptied(final(self).balances(), s)
                    &&& exists|cs2: Seq<Contribution>|
                        contribution_added(cs, cs2, s.external_id, investor, amt as Balance, now)
                            && final(self).balances() == run(m1, finish_plan(s2, cs2))
                            && distributed(m1, final(self).balances(), s2, cs2)
                } else {
                    &&& final(self).sales() == old(self).sales().update(i, s2)
                    &&& final(self).investments().len() == old(self).investments().len()
                    &&& forall|j: int|
                        0 <= j < old(self).investments().len() && j != i
                            ==> final(self).investments()[j] == old(self).investments()[j]
                    &&& contribution_added(
                        cs,
                        final(self).investments()[i],
                        s.external_id,
                        investor,
                        amt as Balance,
                        now,
                    )
                    &&& final(self).balances() == m1
                }
            }),
    {
        let i = match self.position(id) {
            Some(i) => i,
            None => return Err(Error::InvestingNotFound),
        };
        if self.sales[i].status != SimpleCrowdfundingStatus::Active {
            return Err(Error::InvestingNotActive);
        }
        if asset.id != self.sales[i].asset_id {
            return Err(Error::InvestingWrongAsset);
        }
        if self.find_escrow(investor) {
            return Err(Error::InvestingFromEscrow);
        }
        proof {
            assert(sale_ok(self.sales@[i as int], self.investments@[i as int]@));
            assert(funded(self.ledger@, self.sales@[i as int], self.existential_deposit as nat));
        }
        let reached = hard_cap_overflows(&self.sales[i], asset.amount);
        let amount = correct_hard_cap(&self.sales[i], asset.amount);
        let raise = self.sales[i].asset_id;
        let escrow = self.sales[i].account;
        if self.ledger.balance(investor, Denom::Token(raise)) < amount {
            return Err(Error::InvestingNotEnoughFunds);
        }
        let ghost before = *self;
        let ghost m0 = self.ledger@;
        proof {
            self.ledger.lemma_total();
            assert(investor != escrow);
        }
        let unit = self.sales[i].fund(amount);
        let paid = Transfer::new(investor, escrow).transfer(unit, &mut self.ledger);
        proof {
            assert(paid);
        }
        let ghost m1 = self.ledger@;
        let (mut s, mut cs) = self.take_out(i);
        let fresh = upsert_contribution(&mut cs, s.external_id, investor, amount, now);
        s.total_amount = s.total_amount + amount;
        proof {
            assert(contribution_added(before.investments@[i as int]@, cs@, s.external_id, investor, amount, now));
            assert forall|j: int| 0 <= j < cs@.len() implies (#[trigger] cs@[j]).owner != s.account by {
                assert(has_owner(cs@, cs@[j].owner));
                if has_owner(before.investments@[i as int]@, s.account) {
                    let q = choose|q: int| 0 <= q < before.investments@[i as int]@.len()
                        && #[trigger] before.investments@[i as int]@[q].owner == s.account;
                }
            }
            let ocs = before.investments@[i as int]@;
            assert forall|j: int| 0 <= j < cs@.len() implies (#[trigger] cs@[j]).sale_id == s.external_id by {
                if fresh {
                    let p = choose|p: int| 0 <= p <= ocs.len() && cs@ == ocs.insert(
                        p, Contribution { sale_id: s.external_id, owner: investor, amount, time: now });
                    if j < p {
                        assert(cs@[j] == ocs[j]);
                    } else if j > p {
                        assert(cs@[j] == ocs[j - 1]);
                    }
                } else {
                    let p = choose|p: int| 0 <= p < ocs.len() && ocs[p].owner == investor && cs@ == ocs.update(
                        p, Contribution { amount: (ocs[p].amount + amount) as Balance, ..ocs[p] });
                    assert(cs@[j].sale_id == ocs[j].sale_id);
                }
            }
        }
        if reached {
            distribute(&mut self.ledger, &s, &cs);
            sweep_all(&mut self.ledger, &s);
            proof {
                lemma_run_append(
                    m1,
                    distribution(s, cs@, s.shares@),
                    sweeps(s),
                );
                lemma_plans_from_escrow(s, cs@);
                lemma_run_only_debits(m1, finish_plan(s, cs@), s.account);
                assert forall|k: (AccountId, Denom)|
                    k.0 != before.sales@[i as int].account && k.0 != investor implies #[trigger] self.ledger@[k] >= m0[k] by {
                    assert(m1[k] >= m0[k]);
                }
                assert forall|j: int| 0 <= j < before.sales@.len() && j != i implies (#[trigger] before.sales@[j]).account != investor by {
                    assert(!is_escrow(before.sales(), investor));
                    assert(before.sales()[j] == before.sales@[j]);
                }
                Self::lemma_removed(before, *self, i as int, investor);
                Self::lemma_gone(before, i as int, id@);
                lemma_settlement_empties_escrow(m1, s, cs@);
                let t = before.sales@[i as int];
                assert(funded(m0, t, before.existential_deposit as nat));
                assert forall|k: int| 0 <= k < s.shares@.len() implies m1[(
                    s.account,
                    Denom::Token((#[trigger] s.shares@[k]).id),
                )] >= s.shares@[k].amount by {
                    assert(s.shares@[k] == t.shares@[k]);
                    assert(t.shares@[k].id != raise);
                    assert(m0[(t.account, Denom::Token(t.shares@[k].id))] >= t.shares@[k].amount);
                }
                lemma_finish_distributes(m1, s, cs@);
                let amt = accepted(t.total_amount as nat, asset.amount as nat, t.hard_cap as nat);
                assert(s == SimpleCrowdfunding { total_amount: (t.total_amount + amt) as Balance, ..t });
                assert(m1 == moved(m0, investor, t.account, Denom::Token(t.asset_id), amt));
                assert(self.ledger@ == run(m1, finish_plan(s, cs@)));
                assert(distributed(m1, self.ledger@, s, cs@));
                assert(contribution_added(before.investments()[i as int], cs@, s.external_id, investor, amount, now)
                    && self.balances() == run(m1, finish_plan(s, cs@))
                    && distributed(m1, self.balances(), s, cs@));
                assert(contribution_added(before.investments()[i as int], cs@, s.external_id, investor, amount, now));
            }
        } else {
            let ghost s_new = s;
            self.sales.insert(i, s);
            self.investments.insert(i, cs);
            proof {
                let n = before.sales@.len();
                assert(self.sales@ =~= before.sales@.update(i as int, s_new));
                assert(self.investments@ =~= before.investments@.update(i as int, self.investments@[i as int]));
                assert(self.investments() =~= before.investments().update(i as int, self.investments()[i as int]));
                assert forall|j: int| 0 <= j < self.sales@.len() implies sale_ok(
                    #[trigger] self.sales@[j],
                    self.investments@[j]@,
                ) by {
                    if j != i {
                        assert(sale_ok(before.sales@[j], before.investments@[j]@));
                    }
                }
                assert forall|j: int| 0 <= j < self.sales@.len() implies funded(
                    self.ledger@,
                    #[trigger] self.sales@[j],
                    self.existential_deposit as nat,
                ) by {
                    let t = before.sales@[j];
                    assert(funded(m0, t, self.existential_deposit as nat));
                    assert(t.account != investor);
                    if j != i {
                        assert(t.account != escrow);
                        assert forall|q: int| 0 <= q < t.shares@.len() implies self.ledger@[(
                            t.account,
                            Denom::Token((#[trigger] t.shares@[q]).id),
                        )] >= t.shares@[q].amount by {
                            assert(m0[(t.account, Denom::Token(t.shares@[q].id))] >= t.shares@[q].amount);
                        }
                    } else {
                        assert forall|q: int| 0 <= q < t.shares@.len() implies self.ledger@[(
                            t.account,
                            Denom::Token((#[trigger] t.shares@[q]).id),
                        )] >= t.shares@[q].amount by {
                            assert(t.shares@[q].id != raise);
                            assert(m0[(t.account, Denom::Token(t.shares@[q].id))] >= t.shares@[q].amount);
                        }
                    }
                }
                assert forall|a: int, b: int|
                    0 <= a < self.sales@.len() && 0 <= b < self.sales@.len() && a != b implies (
                    #[trigger] self.sales@[a]).external_id@ != (#[trigger] self.sales@[b]).external_id@
                        && self.sales@[a].account != self.sales@[b].account by {
                    assert(before.sales@[a].external_id == self.sales@[a].external_id);
                    assert(before.sales@[b].external_id == self.sales@[b].external_id);
                    assert(before.sales@[a].account == self.sales@[a].account);
                    assert(before.sales@[b].account == self.sales@[b].account);
                }
            }
        }
        Ok(())
    }

    /// The number of live campaigns.
    pub fn count(&self) -> (r: usize)
        ensures
            r == self.sales().len(),
    {
        self.sales.len()
    }

    /// A copy of the live campaign at position `i`.
    pub fn campaign_at(&self, i: usize) -> (r: SimpleCrowdfunding)
        requires
            i < self.sales().len(),
        ensures
            same_record(r, self.sales()[i as int]),
    {
        self.sales[i].duplicate()
    }

    proof fn lemma_gone(old: Platform, i: int, id: Seq<u8>)
        requires
            old.wf(),
            0 <= i < old.sales@.len(),
            old.sales@[i].external_id@ == id,
        ensures
            !live(old.sales@.remove(i), id),
    {
        let r = old.sales@.remove(i);
        assert forall|j: int| 0 <= j < r.len() implies (#[trigger] r[j]).external_id@ != id by {
            let o = if j < i { j } else { j + 1 };
            assert(r[j] == old.sales@[o]);
        }
    }

    /// At every state reached, each campaign has raised at most its hard cap, and its soft
    /// cap is positive and at most its hard cap.
    pub proof fn lemma_caps_hold(&self)
        requires
            self.wf(),
        ensures
            forall|i: int|
                0 <= i < self.sales().len() ==> (#[trigger] self.sales()[i]).total_amount
                    <= self.sales()[i].hard_cap && 0 < self.sales()[i].soft_cap
                    <= self.sales()[i].hard_cap,
    {
        self.lemma_wf_sales();
    }

    /// Creation is refused whenever the terms break a campaign's invariants: a start before
    /// now, an end not after the start, a zero soft cap, a hard cap below the soft cap, no
    /// shares, a share of the raised asset itself, or an empty share. Where the number of
    /// shares is within the limit, the error names the first broken term, taking the shares
    /// in list order.
    pub proof fn lemma_invalid_terms_refused(
        &self,
        now: Moment,
        creator: AccountId,
        id: InvestmentId,
        shares: Seq<Asset>,
        raise: AssetId,
        start_time: Moment,
        end_time: Moment,
        soft_cap: Balance,
        hard_cap: Balance,
    )
        requires
            start_time < now || end_time <= start_time || soft_cap == 0 || hard_cap < soft_cap
                || shares.len() == 0 || sells_raised(shares, raise) || has_empty_share(shares),
        ensures
            ({
                let r = self.creation(
                    now,
                    creator,
                    id,
                    shares,
                    raise,
                    start_time,
                    end_time,
                    soft_cap,
                    hard_cap,
                );
                &&& r.is_err()
                &&& shares.len() <= self.max_shares() ==> r == Err::<(), Error>(
                    if start_time < now {
                        Error::StartTimeMustBeLaterOrEqualCurrentMoment
                    } else if end_time <= start_time {
                        Error::EndTimeMustBeLaterStartTime
                    } else if soft_cap == 0 {
                        Error::SoftCapMustBeGreaterOrEqualMinimum
                    } else if hard_cap < soft_cap {
                        Error::HardCapShouldBeGreaterOrEqualSoftCap
                    } else if shares.len() == 0 {
                        Error::SecurityTokenNotSpecified
                    } else {
                        first_share_error(shares, raise).unwrap()
                    },
                )
            }),
    {
        lemma_first_share_error(shares, raise);
    }

    /// Once a campaign is settled it is gone: expiring or finishing it again is refused as
    /// not found, and so moves nothing.
    pub proof fn lemma_settled_is_gone(&self, id: InvestmentId, now: Moment)
        requires
            !live(self.sales(), id@),
        ensures
            expiration(self.sales(), id@, now) == Err::<(), Error>(Error::NotFound),
            finishing(self.sales(), id@) == Err::<(), Error>(Error::NotFound),
            activation(self.sales(), id@, now) == Err::<(), Error>(Error::NotFound),
    {
    }
}

} // verus!

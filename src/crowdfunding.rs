use vstd::prelude::*;
use crate::types::{AccountId, AssetId, Balance, Moment, InvestmentId};
use crate::asset::Asset;
use crate::prorata::sum_of;

verus! {

/// Where a campaign stands. `Pending` and `Inactive` both mean "not yet started" and are
/// treated alike; `Finished` and `Expired` are terminal.
#[derive(Clone, Copy, Debug, PartialEq, Eq, Structural)]
pub enum SimpleCrowdfundingStatus {
    Active,
    Finished,
    Expired,
    Inactive,
    Pending,
}

impl Default for SimpleCrowdfundingStatus {
    fn default() -> (r: Self)
        ensures
            r == SimpleCrowdfundingStatus::Inactive,
    {
        SimpleCrowdfundingStatus::Inactive
    }
}

pub open spec fn not_started(s: SimpleCrowdfundingStatus) -> bool {
    s == SimpleCrowdfundingStatus::Inactive || s == SimpleCrowdfundingStatus::Pending
}

/// The terms of a sale.
#[derive(Clone, Copy, Debug, PartialEq, Eq, Structural)]
pub enum FundingModel {
    SimpleCrowdfunding {
        /// When the sale starts; not before the moment of creation.
        start_time: Moment,
        /// When the sale ends; after `start_time`.
        end_time: Moment,
        /// The least amount that makes the sale succeed.
        soft_cap: Balance,
        /// The most that can be raised; at least `soft_cap`.
        hard_cap: Balance,
    },
}

/// One campaign: its terms, what it has raised, where it stands, and the shares it sells.
#[derive(Debug)]
pub struct SimpleCrowdfunding {
    /// Reference for the outside world, unique among live campaigns.
    pub external_id: InvestmentId,
    pub creator: AccountId,
    /// The escrow account, derived from `external_id`.
    pub account: AccountId,
    pub start_time: Moment,
    pub end_time: Moment,
    pub status: SimpleCrowdfundingStatus,
    /// The asset raised.
    pub asset_id: AssetId,
    /// How much has been raised so far.
    pub total_amount: Balance,
    pub soft_cap: Balance,
    pub hard_cap: Balance,
    /// The assets offered for sale, in order.
    pub shares: Vec<Asset>,
}

impl SimpleCrowdfunding {
    /// A copy of the record.
    pub fn duplicate(&self) -> (r: SimpleCrowdfunding)
        ensures
            same_record(r, *self),
    {
        let mut shares: Vec<Asset> = Vec::new();
        let mut i: usize = 0;
        while i < self.shares.len()
            invariant
                i <= self.shares@.len(),
                shares@ == self.shares@.take(i as int),
            decreases self.shares@.len() - i,
        {
            shares.push(self.shares[i]);
            i = i + 1;
            assert(shares@ =~= self.shares@.take(i as int));
        }
        assert(shares@ =~= self.shares@);
        let r = SimpleCrowdfunding {
            external_id: self.external_id,
            creator: self.creator,
            account: self.account,
            start_time: self.start_time,
            end_time: self.end_time,
            status: self.status,
            asset_id: self.asset_id,
            total_amount: self.total_amount,
            soft_cap: self.soft_cap,
            hard_cap: self.hard_cap,
            shares,
        };
        r
    }

    pub fn id(&self) -> (r: &InvestmentId)
        ensures
            *r == self.external_id,
    {
        &self.external_id
    }

    pub fn status(&self) -> (r: SimpleCrowdfundingStatus)
        ensures
            r == self.status,
    {
        self.status
    }

    /// The raised asset, in the given amount.
    pub fn fund(&self, amount: Balance) -> (r: Asset)
        ensures
            r == (Asset { id: self.asset_id, amount }),
    {
        Asset::new(self.asset_id, amount)
    }
}

/// The two records have the same terms: all but the status and the amount raised.
pub open spec fn same_terms(a: SimpleCrowdfunding, b: SimpleCrowdfunding) -> bool {
    &&& a.external_id == b.external_id
    &&& a.creator == b.creator
    &&& a.account == b.account
    &&& a.start_time == b.start_time
    &&& a.end_time == b.end_time
    &&& a.asset_id == b.asset_id
    &&& a.soft_cap == b.soft_cap
    &&& a.hard_cap == b.hard_cap
    &&& a.shares@ == b.shares@
}

/// The two records hold the same values.
pub open spec fn same_record(a: SimpleCrowdfunding, b: SimpleCrowdfunding) -> bool {
    &&& same_terms(a, b)
    &&& a.status == b.status
    &&& a.total_amount == b.total_amount
}

/// One investor's cumulative payment into a campaign.
#[derive(Clone, Copy, Debug)]
pub struct Contribution {
    pub sale_id: InvestmentId,
    pub owner: AccountId,
    pub amount: Balance,
    /// When the investor first contributed.
    pub time: Moment,
}

/// Why an operation was refused.
#[derive(Clone, Copy, Debug, PartialEq, Eq, Structural)]
pub enum Error {
    TooMuchShares,
    StartTimeMustBeLaterOrEqualCurrentMoment,
    EndTimeMustBeLaterStartTime,
    SoftCapMustBeGreaterOrEqualMinimum,
    HardCapShouldBeGreaterOrEqualSoftCap,
    SecurityTokenNotSpecified,
    WrongAssetId,
    AssetAmountMustBePositive,
    DuplicateAssetId,
    AlreadyExists,
    EscrowAccountInUse,
    BalanceIsNotEnough,
    NotFound,
    ShouldBeStarted,
    ShouldBeActive,
    ExpirationWrongState,
    SoftCapNotReached,
    InvestingNotFound,
    InvestingNotActive,
    InvestingWrongAsset,
    InvestingFromEscrow,
    InvestingNotEnoughFunds,
}

/// The amounts of the contributions, in order.
pub open spec fn amounts(cs: Seq<Contribution>) -> Seq<nat> {
    cs.map_values(|c: Contribution| c.amount as nat)
}

/// The sum of the contributions.
pub open spec fn total_of(cs: Seq<Contribution>) -> nat {
    sum_of(amounts(cs))
}

/// Contributions ordered by investor, one per investor.
pub open spec fn owners_sorted(cs: Seq<Contribution>) -> bool {
    forall|i: int, j: int| 0 <= i < j < cs.len() ==> #[trigger] cs[i].owner < #[trigger] cs[j].owner
}

/// Whether `a` has contributed.
pub open spec fn has_owner(cs: Seq<Contribution>, a: AccountId) -> bool {
    exists|i: int| 0 <= i < cs.len() && #[trigger] cs[i].owner == a
}

/// Whether adding `amount` to what was raised reaches the hard cap.
pub open spec fn reaches_hard_cap(total: nat, amount: nat, hard_cap: nat) -> bool {
    total + amount >= hard_cap
}

/// What is accepted of an offer of `amount`: all of it, or what is left below the hard cap.
pub open spec fn accepted(total: nat, amount: nat, hard_cap: nat) -> nat {
    if reaches_hard_cap(total, amount, hard_cap) {
        (hard_cap - total) as nat
    } else {
        amount
    }
}

/// An investment never lifts the amount raised above the hard cap: of an offer that would,
/// exactly what is left below the cap is accepted, and the cap is then reached.
pub proof fn lemma_accepted_within_cap(total: nat, amount: nat, hard_cap: nat)
    requires
        total <= hard_cap,
    ensures
        total + accepted(total, amount, hard_cap) <= hard_cap,
        total + amount > hard_cap ==> accepted(total, amount, hard_cap) == hard_cap - total,
        total + amount > hard_cap ==> reaches_hard_cap(total, amount, hard_cap),
        total + amount < hard_cap ==> accepted(total, amount, hard_cap) == amount,
{
}

/// Whether investing `amount` in `sale` reaches its hard cap.
pub fn hard_cap_overflows(sale: &SimpleCrowdfunding, amount: Balance) -> (r: bool)
    ensures
        r == reaches_hard_cap(sale.total_amount as nat, amount as nat, sale.hard_cap as nat),
{
    sale.total_amount.saturating_add(amount) >= sale.hard_cap
}

/// The part of `amount` that `sale` accepts without passing its hard cap.
pub fn correct_hard_cap(sale: &SimpleCrowdfunding, amount: Balance) -> (r: Balance)
    requires
        sale.total_amount <= sale.hard_cap,
    ensures
        r == accepted(sale.total_amount as nat, amount as nat, sale.hard_cap as nat),
{
    if hard_cap_overflows(sale, amount) {
        sale.hard_cap - sale.total_amount
    } else {
        amount
    }
}

pub proof fn lemma_sum_update(xs: Seq<nat>, i: int, v: nat)
    requires
        0 <= i < xs.len(),
    ensures
        sum_of(xs.update(i, v)) + xs[i] == sum_of(xs) + v,
    decreases xs.len(),
{
    let t = xs.update(i, v);
    if i == xs.len() - 1 {
        assert(t.drop_last() =~= xs.drop_last());
    } else {
        assert(t.drop_last() =~= xs.drop_last().update(i, v));
        lemma_sum_update(xs.drop_last(), i, v);
    }
}

pub proof fn lemma_sum_insert(xs: Seq<nat>, i: int, v: nat)
    requires
        0 <= i <= xs.len(),
    ensures
        sum_of(xs.insert(i, v)) == sum_of(xs) + v,
    decreases xs.len(),
{
    let t = xs.insert(i, v);
    if i == xs.len() {
        assert(t.drop_last() =~= xs);
    } else {
        assert(t.drop_last() =~= xs.drop_last().insert(i, v));
        lemma_sum_insert(xs.drop_last(), i, v);
    }
}

pub proof fn lemma_elem_le_sum(xs: Seq<nat>, i: int)
    requires
        0 <= i < xs.len(),
    ensures
        xs[i] <= sum_of(xs),
    decreases xs.len(),
{
    if i < xs.len() - 1 {
        lemma_elem_le_sum(xs.drop_last(), i);
    }
}

/// Adds `amount` to the contribution of `owner`, or enters a new contribution for `owner`
/// in its place by investor, found by binary search. Returns whether the contribution is
/// new.
pub fn upsert_contribution(
    cs: &mut Vec<Contribution>,
    sale_id: InvestmentId,
    owner: AccountId,
    amount: Balance,
    time: Moment,
) -> (fresh: bool)
    requires
        owners_sorted(old(cs)@),
        total_of(old(cs)@) + amount <= u64::MAX,
    ensures
        owners_sorted(final(cs)@),
        total_of(final(cs)@) == total_of(old(cs)@) + amount,
        fresh == !has_owner(old(cs)@, owner),
        fresh ==> exists|p: int|
            0 <= p <= old(cs)@.len() && final(cs)@ == old(cs)@.insert(
                p,
                Contribution { sale_id, owner, amount, time },
            ),
        !fresh ==> exists|p: int|
            0 <= p < old(cs)@.len() && old(cs)@[p].owner == owner && final(cs)@ == old(cs)@.update(
                p,
                Contribution { amount: (old(cs)@[p].amount + amount) as Balance, ..old(cs)@[p] },
            ),
        forall|a: AccountId| #[trigger]
            has_owner(final(cs)@, a) == (has_owner(old(cs)@, a) || a == owner),
{
    let ghost s = cs@;
    let mut lo: usize = 0;
    let mut hi: usize = cs.len();
    while lo < hi
        invariant
            cs@ == s,
            lo <= hi <= s.len(),
            owners_sorted(s),
            forall|j: int| 0 <= j < lo ==> #[trigger] s[j].owner < owner,
            forall|j: int| hi <= j < s.len() ==> #[trigger] s[j].owner >= owner,
        decreases hi - lo,
    {
        let mid = lo + (hi - lo) / 2;
        if cs[mid].owner < owner {
            lo = mid + 1;
        } else {
            hi = mid;
        }
    }
    let i = lo;
    if i < cs.len() && cs[i].owner == owner {
        let c = cs[i];
        proof {
            lemma_elem_le_sum(amounts(s), i as int);
        }
        let n = Contribution { amount: c.amount + amount, ..c };
        cs.set(i, n);
        proof {
            assert(amounts(cs@) =~= amounts(s).update(i as int, n.amount as nat));
            lemma_sum_update(amounts(s), i as int, n.amount as nat);
            assert(cs@ == s.update(i as int, n));
            assert forall|a: AccountId| #[trigger]
                has_owner(cs@, a) == (has_owner(s, a) || a == owner) by {
                if has_owner(s, a) {
                    let j = choose|j: int| 0 <= j < s.len() && #[trigger] s[j].owner == a;
                    assert(cs@[j].owner == a);
                }
                if has_owner(cs@, a) {
                    let j = choose|j: int| 0 <= j < cs@.len() && #[trigger] cs@[j].owner == a;
                    assert(s[j].owner == a);
                }
            }
        }
        false
    } else {
        let n = Contribution { sale_id, owner, amount, time };
        proof {
            assert forall|j: int| i <= j < s.len() implies #[trigger] s[j].owner > owner by {
                assert(s[i as int].owner <= s[j].owner);
            }
        }
        cs.insert(i, n);
        proof {
            assert(amounts(cs@) =~= amounts(s).insert(i as int, amount as nat));
            lemma_sum_insert(amounts(s), i as int, amount as nat);
            assert forall|a: int, b: int| 0 <= a < b < cs@.len() implies #[trigger] cs@[a].owner
                < #[trigger] cs@[b].owner by {
                if b < i {
                } else if b == i {
                } else if a < i {
                    assert(cs@[b] == s[b - 1]);
                } else if a == i {
                    assert(cs@[b] == s[b - 1]);
                } else {
                    assert(cs@[a] == s[a - 1]);
                    assert(cs@[b] == s[b - 1]);
                }
            }
            assert(!has_owner(s, owner));
            assert forall|a: AccountId| #[trigger]
                has_owner(cs@, a) == (has_owner(s, a) || a == owner) by {
                if has_owner(s, a) {
                    let j = choose|j: int| 0 <= j < s.len() && #[trigger] s[j].owner == a;
                    if j < i {
                        assert(cs@[j].owner == a);
                    } else {
                        assert(cs@[j + 1].owner == a);
                    }
                }
                if a == owner {
                    assert(cs@[i as int].owner == a);
                }
                if has_owner(cs@, a) && a != owner {
                    let j = choose|j: int| 0 <= j < cs@.len() && #[trigger] cs@[j].owner == a;
                    if j < i {
                        assert(s[j].owner == a);
                    } else {
                        assert(s[j - 1].owner == a);
                    }
                }
            }
        }
        true
    }
}

/// The contribution of `owner`, if there is one.
pub fn find_contribution(cs: &Vec<Contribution>, owner: AccountId) -> (r: Option<Contribution>)
    ensures
        match r {
            Some(c) => c.owner == owner && exists|i: int| 0 <= i < cs@.len() && cs@[i] == c,
            None => !has_owner(cs@, owner),
        },
{
    let mut i: usize = 0;
    while i < cs.len()
        invariant
            i <= cs@.len(),
            forall|j: int| 0 <= j < i ==> #[trigger] cs@[j].owner != owner,
        decreases cs@.len() - i,
    {
        if cs[i].owner == owner {
            return Some(cs[i]);
        }
        i = i + 1;
    }
    None
}

} // verus!

use vstd::prelude::*;
use crate::asset::Asset;
use crate::types::{AccountId, Balance};
use crate::ledger::{Balances, Denom, Ledger, moved};
use crate::crowdfunding::{
    Contribution, SimpleCrowdfunding, amounts, has_owner, total_of, lemma_elem_le_sum, owners_sorted,
};
use crate::prorata::sum_of;
use crate::prorata::{TokenAmount, allotted, lemma_allotted_le_share, lemma_part_le_share, pro_rata};

verus! {

/// One movement of value out of an escrow account.
pub enum Step {
    /// `amount` of `denom`, skipped where `from` holds less.
    Pay { from: AccountId, to: AccountId, denom: Denom, amount: Balance },
    /// All that `from` holds of `denom`.
    Sweep { from: AccountId, to: AccountId, denom: Denom },
}

pub open spec fn apply_step(m: Balances, st: Step) -> Balances {
    match st {
        Step::Pay { from, to, denom, amount } => {
            if amount <= m[(from, denom)] {
                moved(m, from, to, denom, amount as nat)
            } else {
                m
            }
        },
        Step::Sweep { from, to, denom } => moved(m, from, to, denom, m[(from, denom)]),
    }
}

/// The balances after the steps, taken in order.
pub open spec fn run(m: Balances, steps: Seq<Step>) -> Balances
    decreases steps.len(),
{
    if steps.len() == 0 {
        m
    } else {
        apply_step(run(m, steps.drop_last()), steps.last())
    }
}

/// Everything left in the escrow goes back to the creator: the raised asset, each share
/// asset in order, and last the native deposit that kept the account in existence.
pub open spec fn sweeps(s: SimpleCrowdfunding) -> Seq<Step> {
    seq![Step::Sweep { from: s.account, to: s.creator, denom: Denom::Token(s.asset_id) }]
        + s.shares@.map_values(
        |a: Asset| Step::Sweep { from: s.account, to: s.creator, denom: Denom::Token(a.id) },
    ) + seq![Step::Sweep { from: s.account, to: s.creator, denom: Denom::Native }]
}

/// Each contribution paid back to its investor, in ledger order.
pub open spec fn refunds(s: SimpleCrowdfunding, cs: Seq<Contribution>) -> Seq<Step> {
    cs.map_values(
        |c: Contribution|
            Step::Pay {
                from: s.account,
                to: c.owner,
                denom: Denom::Token(s.asset_id),
                amount: c.amount,
            },
    )
}

/// Each investor's pro-rata part of `share`, in ledger order.
pub open spec fn payouts(s: SimpleCrowdfunding, cs: Seq<Contribution>, share: Asset) -> Seq<Step> {
    cs.map_values(
        |c: Contribution|
            Step::Pay {
                from: s.account,
                to: c.owner,
                denom: Denom::Token(share.id),
                amount: pro_rata(c.amount as nat, share.amount as nat, s.total_amount as nat) as Balance,
            },
    )
}

/// The payouts of each share in `shares`, share after share.
pub open spec fn distribution(s: SimpleCrowdfunding, cs: Seq<Contribution>, shares: Seq<Asset>) -> Seq<Step>
    decreases shares.len(),
{
    if shares.len() == 0 {
        Seq::empty()
    } else {
        distribution(s, cs, shares.drop_last()) + payouts(s, cs, shares.last())
    }
}

/// Settlement of a failed campaign: refunds, then the sweep.
pub open spec fn expiry_plan(s: SimpleCrowdfunding, cs: Seq<Contribution>) -> Seq<Step> {
    refunds(s, cs) + sweeps(s)
}

/// Settlement of a successful campaign: the shares distributed, then the sweep.
pub open spec fn finish_plan(s: SimpleCrowdfunding, cs: Seq<Contribution>) -> Seq<Step> {
    distribution(s, cs, s.shares@) + sweeps(s)
}

pub proof fn lemma_run_append(m: Balances, a: Seq<Step>, b: Seq<Step>)
    ensures
        run(m, a + b) == run(run(m, a), b),
    decreases b.len(),
{
    if b.len() == 0 {
        assert(a + b =~= a);
    } else {
        assert((a + b).drop_last() =~= a + b.drop_last());
        lemma_run_append(m, a, b.drop_last());
    }
}

pub proof fn lemma_run_step(m: Balances, steps: Seq<Step>, i: int)
    requires
        0 <= i < steps.len(),
    ensures
        run(m, steps.take(i + 1)) == apply_step(run(m, steps.take(i)), steps[i]),
{
    assert(steps.take(i + 1).drop_last() =~= steps.take(i));
}

/// Moves `amount` of `denom`, which `from` holds, from `from` to `to`.
pub(crate) fn pay(ledger: &mut Ledger, from: AccountId, to: AccountId, denom: Denom, amount: Balance)
    requires
        old(ledger).wf(),
        amount <= old(ledger)@[(from, denom)],
    ensures
        final(ledger).wf(),
        final(ledger)@ == moved(old(ledger)@, from, to, denom, amount as nat),
        final(ledger)@ == apply_step(old(ledger)@, Step::Pay { from, to, denom, amount }),
{
    let paid = ledger.transfer(from, to, denom, amount);
    assert(paid);
}

fn sweep(ledger: &mut Ledger, from: AccountId, to: AccountId, denom: Denom)
    requires
        old(ledger).wf(),
    ensures
        final(ledger).wf(),
        final(ledger)@ == apply_step(old(ledger)@, Step::Sweep { from, to, denom }),
{
    let all = ledger.balance(from, denom);
    let _ = ledger.transfer(from, to, denom, all);
}

/// Pays every contribution back to its investor, out of an escrow that holds them all.
pub fn refund_all(ledger: &mut Ledger, s: &SimpleCrowdfunding, cs: &Vec<Contribution>)
    requires
        old(ledger).wf(),
        owners_sorted(cs@),
        forall|j: int| 0 <= j < cs@.len() ==> (#[trigger] cs@[j]).owner != s.account,
        old(ledger)@[(s.account, Denom::Token(s.asset_id))] >= total_of(cs@),
    ensures
        final(ledger).wf(),
        final(ledger)@ == run(old(ledger)@, refunds(*s, cs@)),
{
    let ghost m0 = ledger@;
    let ghost steps = refunds(*s, cs@);
    proof {
        ledger.lemma_total();
    }
    let mut i: usize = 0;
    while i < cs.len()
        invariant
            ledger.wf(),
            i <= cs@.len(),
            steps == refunds(*s, cs@),
            ledger@ == run(m0, steps.take(i as int)),
            owners_sorted(cs@),
            forall|j: int| 0 <= j < cs@.len() ==> (#[trigger] cs@[j]).owner != s.account,
            m0[(s.account, Denom::Token(s.asset_id))] >= total_of(cs@),
            total_map(m0),
        decreases cs@.len() - i,
    {
        let c = cs[i];
        proof {
            lemma_run_step(m0, steps, i as int);
            lemma_refunds_prefix(m0, *s, cs@, i as int);
            lemma_sum_prefix(amounts(cs@), i + 1);
            assert(amounts(cs@).take(i + 1).drop_last() =~= amounts(cs@).take(i as int));
        }
        pay(ledger, s.account, c.owner, Denom::Token(s.asset_id), c.amount);
        i = i + 1;
    }
    proof {
        assert(steps.take(i as int) =~= steps);
    }
}

/// Returns everything left in the escrow account to the creator.
pub fn sweep_all(ledger: &mut Ledger, s: &SimpleCrowdfunding)
    requires
        old(ledger).wf(),
    ensures
        final(ledger).wf(),
        final(ledger)@ == run(old(ledger)@, sweeps(*s)),
{
    let ghost m0 = ledger@;
    let ghost steps = sweeps(*s);
    let ghost n: int = s.shares@.len() as int;
    proof {
        lemma_run_step(m0, steps, 0);
        assert(steps.take(0) =~= Seq::<Step>::empty());
    }
    sweep(ledger, s.account, s.creator, Denom::Token(s.asset_id));
    let mut i: usize = 0;
    while i < s.shares.len()
        invariant
            ledger.wf(),
            i <= n,
            n == s.shares@.len(),
            steps == sweeps(*s),
            steps.len() == n + 2,
            ledger@ == run(m0, steps.take(i + 1)),
        decreases n - i,
    {
        proof {
            lemma_run_step(m0, steps, i + 1);
        }
        sweep(ledger, s.account, s.creator, Denom::Token(s.shares[i].id));
        i = i + 1;
    }
    proof {
        lemma_run_step(m0, steps, n + 1);
        assert(steps.take(n + 2) =~= steps);
    }
    sweep(ledger, s.account, s.creator, Denom::Native);
}

/// Hands investors of one campaign their pro-rata parts of its shares, out of its escrow.
pub struct ContributionAccept {
    /// The amount the campaign raised.
    pub sale_amount: Balance,
    /// The campaign's escrow account.
    pub account: AccountId,
}

impl ContributionAccept {
    pub fn new(sale: &SimpleCrowdfunding) -> (r: ContributionAccept)
        ensures
            r.sale_amount == sale.total_amount,
            r.account == sale.account,
    {
        ContributionAccept { sale_amount: sale.total_amount, account: sale.account }
    }

    /// The operands of the part of `share` owed to `investment`.
    pub fn token_amount(&self, investment: &Contribution, share: &Asset) -> (r: TokenAmount)
        ensures
            r.investment_amount == investment.amount,
            r.share_amount == share.amount,
            r.sale_amount == self.sale_amount,
    {
        TokenAmount::new(investment.amount, share.amount, self.sale_amount)
    }

    /// Pays `investment` its part of `share`, taken from `remains`, what is still
    /// undistributed of the share, and returns what then remains. A part that rounds to
    /// zero, or nothing left to distribute, moves nothing.
    pub fn accept(&self, ledger: &mut Ledger, investment: &Contribution, share: &Asset, remains: Balance) -> (r:
        Balance)
        requires
            old(ledger).wf(),
            investment.amount <= self.sale_amount,
            pro_rata(investment.amount as nat, share.amount as nat, self.sale_amount as nat)
                <= remains,
            remains <= old(ledger)@[(self.account, Denom::Token(share.id))],
        ensures
            final(ledger).wf(),
            final(ledger)@ == moved(
                old(ledger)@,
                self.account,
                investment.owner,
                Denom::Token(share.id),
                pro_rata(investment.amount as nat, share.amount as nat, self.sale_amount as nat),
            ),
            r == remains - pro_rata(
                investment.amount as nat,
                share.amount as nat,
                self.sale_amount as nat,
            ),
            final(ledger)@ == apply_step(
                old(ledger)@,
                Step::Pay {
                    from: self.account,
                    to: investment.owner,
                    denom: Denom::Token(share.id),
                    amount: pro_rata(
                        investment.amount as nat,
                        share.amount as nat,
                        self.sale_amount as nat,
                    ) as Balance,
                },
            ),
    {
        proof {
            ledger.lemma_total();
            let m = ledger@;
            let kf = (self.account, Denom::Token(share.id));
            let kt = (investment.owner, Denom::Token(share.id));
            let m1 = m.insert(kf, (m[kf] - 0) as nat);
            assert(m1 =~= m);
            assert(m1.insert(kt, m1[kt] + 0) =~= m1);
        }
        if remains == 0 {
            return remains;
        }
        proof {
            let (a, b) = (investment.amount, share.amount);
            assert(a * b <= u64::MAX * u64::MAX) by (nonlinear_arith)
                requires
                    a <= u64::MAX,
                    b <= u64::MAX,
            ;
            if self.sale_amount > 0 {
                lemma_part_le_share(a as nat, b as nat, self.sale_amount as nat);
            }
        }
        let part = self.token_amount(investment, share).calc() as Balance;
        if part == 0 {
            return remains;
        }
        pay(ledger, self.account, investment.owner, Denom::Token(share.id), part);
        remains - part
    }
}

/// Hands each investor its pro-rata part of `share`, in ledger order, keeping count of what
/// remains undistributed.
fn pay_out_share(ledger: &mut Ledger, s: &SimpleCrowdfunding, cs: &Vec<Contribution>, share: Asset)
    requires
        old(ledger).wf(),
        total_of(cs@) == s.total_amount,
        owners_sorted(cs@),
        forall|j: int| 0 <= j < cs@.len() ==> (#[trigger] cs@[j]).owner != s.account,
        old(ledger)@[(s.account, Denom::Token(share.id))] >= share.amount,
    ensures
        final(ledger).wf(),
        final(ledger)@ == run(old(ledger)@, payouts(*s, cs@, share)),
{
    let ghost m0 = ledger@;
    let ghost steps = payouts(*s, cs@, share);
    let ghost xs = amounts(cs@);
    let ghost total = s.total_amount as nat;
    proof {
        ledger.lemma_total();
    }
    let contribution = ContributionAccept::new(s);
    let mut remains = share.amount;
    let mut i: usize = 0;
    proof {
        assert(xs.take(0) =~= Seq::<nat>::empty());
    }
    while i < cs.len()
        invariant
            ledger.wf(),
            i <= cs@.len(),
            steps == payouts(*s, cs@, share),
            xs == amounts(cs@),
            total == s.total_amount,
            total_of(cs@) == s.total_amount,
            contribution.sale_amount == s.total_amount,
            contribution.account == s.account,
            ledger@ == run(m0, steps.take(i as int)),
            remains + allotted(xs.take(i as int), share.amount as nat, total) == share.amount,
            owners_sorted(cs@),
            forall|j: int| 0 <= j < cs@.len() ==> (#[trigger] cs@[j]).owner != s.account,
            m0[(s.account, Denom::Token(share.id))] >= share.amount,
            total_map(m0),
        decreases cs@.len() - i,
    {
        let c = cs[i];
        proof {
            lemma_payouts_prefix(m0, *s, cs@, share, i as int);
            lemma_run_step(m0, steps, i as int);
            lemma_elem_le_sum(xs, i as int);
            lemma_sum_prefix(xs, i + 1);
            assert(xs.take(i + 1).drop_last() =~= xs.take(i as int));
            lemma_allotted_le_share(xs.take(i + 1), share.amount as nat, total);
        }
        remains = contribution.accept(ledger, &c, &share, remains);
        i = i + 1;
    }
    proof {
        assert(steps.take(i as int) =~= steps);
    }
}

/// Distributes every share of `s` pro rata over the contributions, share after share.
pub fn distribute(ledger: &mut Ledger, s: &SimpleCrowdfunding, cs: &Vec<Contribution>)
    requires
        old(ledger).wf(),
        total_of(cs@) == s.total_amount,
        owners_sorted(cs@),
        forall|j: int| 0 <= j < cs@.len() ==> (#[trigger] cs@[j]).owner != s.account,
        forall|k: int, l: int|
            0 <= k < l < s.shares@.len() ==> (#[trigger] s.shares@[k]).id != (#[trigger] s.shares@[l]).id,
        forall|k: int|
            0 <= k < s.shares@.len() ==> old(ledger)@[(s.account, Denom::Token((#[trigger] s.shares@[k]).id))]
                >= s.shares@[k].amount,
    ensures
        final(ledger).wf(),
        final(ledger)@ == run(old(ledger)@, distribution(*s, cs@, s.shares@)),
{
    let ghost m0 = ledger@;
    let mut k: usize = 0;
    proof {
        ledger.lemma_total();
        assert(s.shares@.take(0) =~= Seq::<Asset>::empty());
    }
    while k < s.shares.len()
        invariant
            ledger.wf(),
            k <= s.shares@.len(),
            total_of(cs@) == s.total_amount,
            ledger@ == run(m0, distribution(*s, cs@, s.shares@.take(k as int))),
            owners_sorted(cs@),
            forall|j: int| 0 <= j < cs@.len() ==> (#[trigger] cs@[j]).owner != s.account,
            forall|a: int, b: int|
                0 <= a < b < s.shares@.len() ==> (#[trigger] s.shares@[a]).id != (#[trigger] s.shares@[b]).id,
            forall|a: int|
                0 <= a < s.shares@.len() ==> m0[(s.account, Denom::Token((#[trigger] s.shares@[a]).id))]
                    >= s.shares@[a].amount,
            total_map(m0),
        decreases s.shares@.len() - k,
    {
        let share = s.shares[k];
        proof {
            let done = s.shares@.take(k as int);
            assert forall|a: int, b: int| 0 <= a < b < done.len() implies (#[trigger] done[a]).id
                != (#[trigger] done[b]).id by {
                assert(done[a] == s.shares@[a]);
                assert(done[b] == s.shares@[b]);
            }
            assert forall|a: int| 0 <= a < done.len() implies m0[(s.account, Denom::Token(
                (#[trigger] done[a]).id))] >= done[a].amount by {
                assert(done[a] == s.shares@[a]);
            }
            lemma_distribution_effect(m0, *s, cs@, done);
            assert forall|a: int| 0 <= a < done.len() implies Denom::Token(share.id) != Denom::Token(
                (#[trigger] done[a]).id) by {
                assert(done[a] == s.shares@[a]);
            }
            assert(ledger@[(s.account, Denom::Token(share.id))] == m0[(s.account, Denom::Token(share.id))]);
            assert(s.shares@.take(k + 1).drop_last() =~= s.shares@.take(k as int));
            lemma_run_append(
                m0,
                distribution(*s, cs@, s.shares@.take(k as int)),
                payouts(*s, cs@, share),
            );
        }
        pay_out_share(ledger, s, cs, share);
        k = k + 1;
    }
    proof {
        assert(s.shares@.take(k as int) =~= s.shares@);
    }
}

/// The account a step takes value from.
pub open spec fn source_of(st: Step) -> AccountId {
    match st {
        Step::Pay { from, .. } => from,
        Step::Sweep { from, .. } => from,
    }
}

/// Every balance is defined.
pub open spec fn total_map(m: Balances) -> bool {
    forall|k: (AccountId, Denom)| #[trigger] m.dom().contains(k)
}

/// Steps that take only from `a` lower no balance outside `a`.
pub proof fn lemma_run_only_debits(m: Balances, steps: Seq<Step>, a: AccountId)
    requires
        total_map(m),
        forall|k: int| 0 <= k < steps.len() ==> source_of(#[trigger] steps[k]) == a,
    ensures
        total_map(run(m, steps)),
        forall|k: (AccountId, Denom)| k.0 != a ==> #[trigger] run(m, steps)[k] >= m[k],
    decreases steps.len(),
{
    if steps.len() > 0 {
        let init = steps.drop_last();
        assert forall|k: int| 0 <= k < init.len() implies source_of(#[trigger] init[k]) == a by {
            assert(init[k] == steps[k]);
        }
        lemma_run_only_debits(m, init, a);
        assert(source_of(steps[steps.len() - 1]) == a);
    }
}

proof fn lemma_distribution_from(s: SimpleCrowdfunding, cs: Seq<Contribution>, shares: Seq<Asset>)
    ensures
        forall|k: int|
            0 <= k < distribution(s, cs, shares).len() ==> source_of(
                #[trigger] distribution(s, cs, shares)[k],
            ) == s.account,
    decreases shares.len(),
{
    if shares.len() > 0 {
        lemma_distribution_from(s, cs, shares.drop_last());
        let a = distribution(s, cs, shares.drop_last());
        let b = payouts(s, cs, shares.last());
        assert forall|k: int| 0 <= k < (a + b).len() implies source_of(#[trigger] (a + b)[k])
            == s.account by {
            if k >= a.len() {
                assert((a + b)[k] == b[k - a.len()]);
            }
        }
    }
}

/// Both settlements take value from the escrow account alone.
pub proof fn lemma_plans_from_escrow(s: SimpleCrowdfunding, cs: Seq<Contribution>)
    ensures
        forall|k: int|
            0 <= k < expiry_plan(s, cs).len() ==> source_of(#[trigger] expiry_plan(s, cs)[k])
                == s.account,
        forall|k: int|
            0 <= k < finish_plan(s, cs).len() ==> source_of(#[trigger] finish_plan(s, cs)[k])
                == s.account,
{
    lemma_distribution_from(s, cs, s.shares@);
    let r = refunds(s, cs);
    let w = sweeps(s);
    let d = distribution(s, cs, s.shares@);
    assert forall|k: int| 0 <= k < w.len() implies source_of(#[trigger] w[k]) == s.account by {
        let n = s.shares@.len() as int;
        if k == 0 {
        } else if k <= n {
            assert(w[k] == s.shares@.map_values(
                |a: Asset| Step::Sweep { from: s.account, to: s.creator, denom: Denom::Token(a.id) },
            )[k - 1]);
        } else {
        }
    }
    assert forall|k: int| 0 <= k < (r + w).len() implies source_of(#[trigger] (r + w)[k])
        == s.account by {
        if k >= r.len() {
            assert((r + w)[k] == w[k - r.len()]);
        }
    }
    assert forall|k: int| 0 <= k < (d + w).len() implies source_of(#[trigger] (d + w)[k])
        == s.account by {
        if k >= d.len() {
            assert((d + w)[k] == w[k - d.len()]);
        } else {
            assert((d + w)[k] == d[k]);
        }
    }
}

/// Whether `st` sweeps from `a` to another account.
pub open spec fn sweeps_away(st: Step, a: AccountId) -> bool {
    match st {
        Step::Sweep { from, to, .. } => from == a && to != a,
        Step::Pay { .. } => false,
    }
}

pub open spec fn denom_of(st: Step) -> Denom {
    match st {
        Step::Pay { denom, .. } => denom,
        Step::Sweep { denom, .. } => denom,
    }
}

pub proof fn lemma_run_total(m: Balances, steps: Seq<Step>)
    requires
        total_map(m),
    ensures
        total_map(run(m, steps)),
    decreases steps.len(),
{
    if steps.len() > 0 {
        lemma_run_total(m, steps.drop_last());
    }
}

/// Sweeps out of `a` leave an empty holding of `a` empty.
proof fn lemma_sweeps_keep_empty(m: Balances, steps: Seq<Step>, a: AccountId, d: Denom)
    requires
        total_map(m),
        m[(a, d)] == 0,
        forall|k: int| 0 <= k < steps.len() ==> sweeps_away(#[trigger] steps[k], a),
    ensures
        run(m, steps)[(a, d)] == 0,
    decreases steps.len(),
{
    if steps.len() > 0 {
        let init = steps.drop_last();
        assert forall|k: int| 0 <= k < init.len() implies sweeps_away(#[trigger] init[k], a) by {
            assert(init[k] == steps[k]);
        }
        lemma_sweeps_keep_empty(m, init, a, d);
        lemma_run_total(m, init);
        assert(sweeps_away(steps[steps.len() - 1], a));
    }
}

/// After a run of sweeps out of `a` that sweeps `d` somewhere, `a` holds none of `d`.
proof fn lemma_swept_empty(m: Balances, steps: Seq<Step>, a: AccountId, k: int)
    requires
        total_map(m),
        0 <= k < steps.len(),
        forall|j: int| 0 <= j < steps.len() ==> sweeps_away(#[trigger] steps[j], a),
    ensures
        run(m, steps)[(a, denom_of(steps[k]))] == 0,
{
    let d = denom_of(steps[k]);
    let head = steps.take(k + 1);
    let tail = steps.skip(k + 1);
    assert(head + tail =~= steps);
    lemma_run_append(m, head, tail);
    lemma_run_step(m, steps, k);
    assert(steps.take(k + 1) == head);
    lemma_run_total(m, steps.take(k));
    assert(sweeps_away(steps[k], a));
    assert(run(m, head)[(a, d)] == 0);
    lemma_run_total(m, head);
    assert forall|j: int| 0 <= j < tail.len() implies sweeps_away(#[trigger] tail[j], a) by {
        assert(tail[j] == steps[j + k + 1]);
    }
    lemma_sweeps_keep_empty(run(m, head), tail, a, d);
}

/// After the closing sweep the escrow holds nothing of the native currency, of the raised
/// asset, or of any share asset, whatever it held before.
pub proof fn lemma_sweeps_empty_escrow(m: Balances, s: SimpleCrowdfunding)
    requires
        total_map(m),
        s.creator != s.account,
    ensures
        run(m, sweeps(s))[(s.account, Denom::Native)] == 0,
        run(m, sweeps(s))[(s.account, Denom::Token(s.asset_id))] == 0,
        forall|k: int|
            0 <= k < s.shares@.len() ==> run(m, sweeps(s))[(
                s.account,
                Denom::Token((#[trigger] s.shares@[k]).id),
            )] == 0,
{
    let w = sweeps(s);
    let n = s.shares@.len() as int;
    let mid = s.shares@.map_values(
        |a: Asset| Step::Sweep { from: s.account, to: s.creator, denom: Denom::Token(a.id) },
    );
    assert forall|j: int| 0 <= j < w.len() implies sweeps_away(#[trigger] w[j], s.account) by {
        if 1 <= j <= n {
            assert(w[j] == mid[j - 1]);
        }
    }
    lemma_swept_empty(m, w, s.account, 0);
    lemma_swept_empty(m, w, s.account, n + 1);
    assert forall|k: int| 0 <= k < s.shares@.len() implies run(m, w)[(
        s.account,
        Denom::Token((#[trigger] s.shares@[k]).id),
    )] == 0 by {
        assert(w[k + 1] == mid[k]);
        lemma_swept_empty(m, w, s.account, k + 1);
    }
}

/// The escrow account of `s` holds nothing of the native currency, the raised asset, or any
/// share asset.
pub open spec fn escrow_emptied(m: Balances, s: SimpleCrowdfunding) -> bool {
    &&& m[(s.account, Denom::Native)] == 0
    &&& m[(s.account, Denom::Token(s.asset_id))] == 0
    &&& forall|k: int|
        0 <= k < s.shares@.len() ==> m[(s.account, Denom::Token((#[trigger] s.shares@[k]).id))] == 0
}

/// After either settlement, the escrow account holds nothing of the native currency, the
/// raised asset, or any share asset: every asset that was moved into it.
pub proof fn lemma_settlement_empties_escrow(m: Balances, s: SimpleCrowdfunding, cs: Seq<Contribution>)
    requires
        total_map(m),
        s.creator != s.account,
    ensures
        escrow_emptied(run(m, expiry_plan(s, cs)), s),
        escrow_emptied(run(m, finish_plan(s, cs)), s),
{
    let r = refunds(s, cs);
    let d = distribution(s, cs, s.shares@);
    lemma_run_append(m, r, sweeps(s));
    lemma_run_append(m, d, sweeps(s));
    lemma_run_total(m, r);
    lemma_run_total(m, d);
    lemma_sweeps_empty_escrow(run(m, r), s);
    lemma_sweeps_empty_escrow(run(m, d), s);
}

/// Whether `st` moves value out of or into `a`.
pub open spec fn touches(st: Step, a: AccountId) -> bool {
    match st {
        Step::Pay { from, to, .. } => from == a || to == a,
        Step::Sweep { from, to, .. } => from == a || to == a,
    }
}

/// Steps that neither touch the account of `key` nor move its denomination leave it as it
/// was.
proof fn lemma_run_frame(m: Balances, steps: Seq<Step>, key: (AccountId, Denom))
    requires
        total_map(m),
        forall|k: int|
            0 <= k < steps.len() ==> !touches(#[trigger] steps[k], key.0) || denom_of(steps[k])
                != key.1,
    ensures
        run(m, steps)[key] == m[key],
    decreases steps.len(),
{
    if steps.len() > 0 {
        let init = steps.drop_last();
        assert forall|k: int| 0 <= k < init.len() implies !touches(#[trigger] init[k], key.0)
            || denom_of(init[k]) != key.1 by {
            assert(init[k] == steps[k]);
        }
        lemma_run_frame(m, init, key);
        lemma_run_total(m, init);
        let l = steps[steps.len() - 1];
        assert(!touches(l, key.0) || denom_of(l) != key.1);
    }
}

proof fn lemma_sum_prefix(xs: Seq<nat>, t: int)
    requires
        0 <= t <= xs.len(),
    ensures
        sum_of(xs.take(t)) <= sum_of(xs),
    decreases xs.len() - t,
{
    if t < xs.len() {
        lemma_sum_prefix(xs, t + 1);
        assert(xs.take(t + 1).drop_last() =~= xs.take(t));
    } else {
        assert(xs.take(t) =~= xs);
    }
}

/// The first `t` refunds: the escrow paid out the first `t` contributions, each to its
/// investor, and nothing else moved.
proof fn lemma_refunds_prefix(m: Balances, s: SimpleCrowdfunding, cs: Seq<Contribution>, t: int)
    requires
        total_map(m),
        0 <= t <= cs.len(),
        owners_sorted(cs),
        forall|j: int| 0 <= j < cs.len() ==> (#[trigger] cs[j]).owner != s.account,
        m[(s.account, Denom::Token(s.asset_id))] >= total_of(cs),
    ensures
        total_map(run(m, refunds(s, cs).take(t))),
        run(m, refunds(s, cs).take(t))[(s.account, Denom::Token(s.asset_id))] + sum_of(
            amounts(cs).take(t),
        ) == m[(s.account, Denom::Token(s.asset_id))],
        forall|j: int|
            0 <= j < t ==> run(m, refunds(s, cs).take(t))[((#[trigger] cs[j]).owner, Denom::Token(
                s.asset_id,
            ))] == m[(cs[j].owner, Denom::Token(s.asset_id))] + cs[j].amount,
        forall|j: int|
            t <= j < cs.len() ==> run(m, refunds(s, cs).take(t))[((#[trigger] cs[j]).owner, Denom::Token(
                s.asset_id,
            ))] == m[(cs[j].owner, Denom::Token(s.asset_id))],
    decreases t,
{
    let r = refunds(s, cs);
    let raise = Denom::Token(s.asset_id);
    let e = s.account;
    if t == 0 {
        assert(r.take(0) =~= Seq::<Step>::empty());
        assert(amounts(cs).take(0) =~= Seq::<nat>::empty());
    } else {
        let u = t - 1;
        lemma_refunds_prefix(m, s, cs, u);
        let mu = run(m, r.take(u));
        lemma_run_step(m, r, u);
        assert(amounts(cs).take(t).drop_last() =~= amounts(cs).take(u));
        lemma_sum_prefix(amounts(cs), t);
        let c = cs[u];
        assert(r[u] == Step::Pay { from: e, to: c.owner, denom: raise, amount: c.amount });
        assert(sum_of(amounts(cs).take(t)) == sum_of(amounts(cs).take(u)) + c.amount);
        assert(c.amount <= mu[(e, raise)]);
        let mt = run(m, r.take(t));
        assert(mt == moved(mu, e, c.owner, raise, c.amount as nat));
        assert forall|j: int| 0 <= j < t implies mt[((#[trigger] cs[j]).owner, raise)] == m[(
            cs[j].owner,
            raise,
        )] + cs[j].amount by {
            if j < u {
                assert(cs[j].owner < c.owner);
            }
        }
        assert forall|j: int| t <= j < cs.len() implies mt[((#[trigger] cs[j]).owner, raise)]
            == m[(cs[j].owner, raise)] by {
            assert(c.owner < cs[j].owner);
        }
    }
}

/// From `m0` to `m1`, every investor other than the creator got back exactly what they
/// contributed, and the creator got at least every share of `s`.
pub open spec fn returned(m0: Balances, m1: Balances, s: SimpleCrowdfunding, cs: Seq<Contribution>) -> bool {
    &&& forall|j: int|
        0 <= j < cs.len() && (#[trigger] cs[j]).owner != s.creator ==> m1[(
            cs[j].owner,
            Denom::Token(s.asset_id),
        )] == m0[(cs[j].owner, Denom::Token(s.asset_id))] + cs[j].amount
    &&& forall|k: int|
        0 <= k < s.shares@.len() ==> m1[(s.creator, Denom::Token((#[trigger] s.shares@[k]).id))]
            >= m0[(s.creator, Denom::Token(s.shares@[k].id))] + s.shares@[k].amount
}

/// Expiry pays every investor other than the creator back exactly what they contributed, and
/// hands the creator at least every share that it locked.
pub proof fn lemma_expiry_returns(m: Balances, s: SimpleCrowdfunding, cs: Seq<Contribution>)
    requires
        total_map(m),
        owners_sorted(cs),
        forall|j: int| 0 <= j < cs.len() ==> (#[trigger] cs[j]).owner != s.account,
        s.creator != s.account,
        m[(s.account, Denom::Token(s.asset_id))] >= total_of(cs),
        forall|k: int| 0 <= k < s.shares@.len() ==> (#[trigger] s.shares@[k]).id != s.asset_id,
        forall|k: int, l: int|
            0 <= k < l < s.shares@.len() ==> (#[trigger] s.shares@[k]).id != (#[trigger] s.shares@[l]).id,
        forall|k: int|
            0 <= k < s.shares@.len() ==> m[(s.account, Denom::Token((#[trigger] s.shares@[k]).id))]
                >= s.shares@[k].amount,
    ensures
        returned(m, run(m, expiry_plan(s, cs)), s, cs),
{
    let r = refunds(s, cs);
    let w = sweeps(s);
    let e = s.account;
    let raise = Denom::Token(s.asset_id);
    let n = s.shares@.len() as int;
    let mid = s.shares@.map_values(
        |a: Asset| Step::Sweep { from: s.account, to: s.creator, denom: Denom::Token(a.id) },
    );
    lemma_refunds_prefix(m, s, cs, cs.len() as int);
    assert(r.take(cs.len() as int) =~= r);
    let mr = run(m, r);
    lemma_run_append(m, r, w);
    assert forall|j: int| 0 <= j < w.len() implies (#[trigger] w[j] == Step::Sweep {
        from: e,
        to: s.creator,
        denom: denom_of(w[j]),
    }) by {
        if 1 <= j <= n {
            assert(w[j] == mid[j - 1]);
        }
    }
    assert forall|j: int|
        0 <= j < cs.len() && (#[trigger] cs[j]).owner != s.creator implies run(mr, w)[(
        cs[j].owner,
        raise,
    )] == m[(cs[j].owner, raise)] + cs[j].amount by {
        let o = cs[j].owner;
        assert forall|k: int| 0 <= k < w.len() implies !touches(#[trigger] w[k], o) || denom_of(w[k])
            != raise by {
            assert(w[k] == Step::Sweep { from: e, to: s.creator, denom: denom_of(w[k]) });
        }
        lemma_run_frame(mr, w, (o, raise));
    }
    assert forall|k: int| 0 <= k < s.shares@.len() implies run(mr, w)[(
        s.creator,
        Denom::Token((#[trigger] s.shares@[k]).id),
    )] >= m[(s.creator, Denom::Token(s.shares@[k].id))] + s.shares@[k].amount by {
        let d = Denom::Token(s.shares@[k].id);
        assert forall|q: int| 0 <= q < r.len() implies !touches(#[trigger] r[q], e) || denom_of(r[q])
            != d by {
            assert(denom_of(r[q]) == raise);
        }
        assert forall|q: int| 0 <= q < r.len() implies !touches(#[trigger] r[q], s.creator)
            || denom_of(r[q]) != d by {
            assert(denom_of(r[q]) == raise);
        }
        lemma_run_frame(m, r, (e, d));
        lemma_run_frame(m, r, (s.creator, d));
        let head = w.take(k + 1);
        assert forall|q: int| 0 <= q < head.len() implies !touches(#[trigger] head[q], e)
            || denom_of(head[q]) != d by {
            assert(head[q] == w[q]);
            if q >= 1 {
                assert(w[q] == mid[q - 1]);
            }
        }
        assert forall|q: int| 0 <= q < head.len() implies !touches(#[trigger] head[q], s.creator)
            || denom_of(head[q]) != d by {
            assert(head[q] == w[q]);
            if q >= 1 {
                assert(w[q] == mid[q - 1]);
            }
        }
        lemma_run_total(m, r);
        lemma_run_frame(mr, head, (e, d));
        lemma_run_frame(mr, head, (s.creator, d));
        lemma_run_step(mr, w, k + 1);
        assert(w[k + 1] == mid[k]);
        let after = run(mr, w.take(k + 2));
        lemma_run_total(mr, head);
        assert(after[(s.creator, d)] == m[(s.creator, d)] + m[(e, d)]);
        let tail = w.skip(k + 2);
        assert(w.take(k + 2) + tail =~= w);
        lemma_run_append(mr, w.take(k + 2), tail);
        lemma_run_total(mr, w.take(k + 2));
        assert forall|q: int| 0 <= q < tail.len() implies source_of(#[trigger] tail[q]) == e by {
            assert(tail[q] == w[q + k + 2]);
        }
        lemma_run_only_debits(after, tail, e);
    }
}

/// The first `t` payouts of `share`: the escrow paid the first `t` investors their parts,
/// and nothing else moved.
proof fn lemma_payouts_prefix(
    m: Balances,
    s: SimpleCrowdfunding,
    cs: Seq<Contribution>,
    share: Asset,
    t: int,
)
    requires
        total_map(m),
        0 <= t <= cs.len(),
        owners_sorted(cs),
        forall|j: int| 0 <= j < cs.len() ==> (#[trigger] cs[j]).owner != s.account,
        total_of(cs) == s.total_amount,
        m[(s.account, Denom::Token(share.id))] >= share.amount,
    ensures
        total_map(run(m, payouts(s, cs, share).take(t))),
        run(m, payouts(s, cs, share).take(t))[(s.account, Denom::Token(share.id))] + allotted(
            amounts(cs).take(t),
            share.amount as nat,
            s.total_amount as nat,
        ) == m[(s.account, Denom::Token(share.id))],
        forall|j: int|
            0 <= j < t ==> run(m, payouts(s, cs, share).take(t))[((#[trigger] cs[j]).owner, Denom::Token(
                share.id,
            ))] == m[(cs[j].owner, Denom::Token(share.id))] + pro_rata(
                cs[j].amount as nat,
                share.amount as nat,
                s.total_amount as nat,
            ),
        forall|j: int|
            t <= j < cs.len() ==> run(m, payouts(s, cs, share).take(t))[((#[trigger] cs[j]).owner, Denom::Token(
                share.id,
            ))] == m[(cs[j].owner, Denom::Token(share.id))],
    decreases t,
{
    let p = payouts(s, cs, share);
    let d = Denom::Token(share.id);
    let e = s.account;
    let xs = amounts(cs);
    let total = s.total_amount as nat;
    if t == 0 {
        assert(p.take(0) =~= Seq::<Step>::empty());
        assert(xs.take(0) =~= Seq::<nat>::empty());
    } else {
        let u = t - 1;
        lemma_payouts_prefix(m, s, cs, share, u);
        let mu = run(m, p.take(u));
        lemma_run_step(m, p, u);
        assert(xs.take(t).drop_last() =~= xs.take(u));
        lemma_sum_prefix(xs, t);
        lemma_allotted_le_share(xs.take(t), share.amount as nat, total);
        let c = cs[u];
        let part = pro_rata(c.amount as nat, share.amount as nat, total);
        assert(allotted(xs.take(t), share.amount as nat, total) == allotted(
            xs.take(u),
            share.amount as nat,
            total,
        ) + part);
        assert(p[u] == Step::Pay { from: e, to: c.owner, denom: d, amount: part as Balance });
        assert(part <= mu[(e, d)]);
        let mt = run(m, p.take(t));
        assert(mt == moved(mu, e, c.owner, d, part));
        assert forall|j: int| 0 <= j < t implies mt[((#[trigger] cs[j]).owner, d)] == m[(cs[j].owner, d)]
            + pro_rata(cs[j].amount as nat, share.amount as nat, total) by {
            if j < u {
                assert(cs[j].owner < c.owner);
            }
        }
        assert forall|j: int| t <= j < cs.len() implies mt[((#[trigger] cs[j]).owner, d)] == m[(
            cs[j].owner,
            d,
        )] by {
            assert(c.owner < cs[j].owner);
        }
    }
}

/// The payouts of `shares`: each investor got its part of each share, the escrow gave up
/// what was allotted of each, and no other holding moved.
proof fn lemma_distribution_effect(m: Balances, s: SimpleCrowdfunding, cs: Seq<Contribution>, shares: Seq<Asset>)
    requires
        total_map(m),
        owners_sorted(cs),
        forall|j: int| 0 <= j < cs.len() ==> (#[trigger] cs[j]).owner != s.account,
        total_of(cs) == s.total_amount,
        forall|k: int, l: int|
            0 <= k < l < shares.len() ==> (#[trigger] shares[k]).id != (#[trigger] shares[l]).id,
        forall|k: int|
            0 <= k < shares.len() ==> m[(s.account, Denom::Token((#[trigger] shares[k]).id))]
                >= shares[k].amount,
    ensures
        total_map(run(m, distribution(s, cs, shares))),
        forall|j: int, k: int|
            0 <= j < cs.len() && 0 <= k < shares.len() ==> run(m, distribution(s, cs, shares))[(
                (#[trigger] cs[j]).owner,
                Denom::Token((#[trigger] shares[k]).id),
            )] == m[(cs[j].owner, Denom::Token(shares[k].id))] + pro_rata(
                cs[j].amount as nat,
                shares[k].amount as nat,
                s.total_amount as nat,
            ),
        forall|k: int|
            0 <= k < shares.len() ==> run(m, distribution(s, cs, shares))[(
                s.account,
                Denom::Token((#[trigger] shares[k]).id),
            )] + allotted(amounts(cs), shares[k].amount as nat, s.total_amount as nat) == m[(
                s.account,
                Denom::Token(shares[k].id),
            )],
        forall|key: (AccountId, Denom)|
            (forall|k: int| 0 <= k < shares.len() ==> key.1 != Denom::Token((#[trigger] shares[k]).id))
                ==> #[trigger] run(m, distribution(s, cs, shares))[key] == m[key],
        forall|key: (AccountId, Denom)|
            key.0 != s.account && !has_owner(cs, key.0) ==> #[trigger] run(
                m,
                distribution(s, cs, shares),
            )[key] == m[key],
    decreases shares.len(),
{
    let total = s.total_amount as nat;
    if shares.len() == 0 {
        assert(distribution(s, cs, shares) =~= Seq::<Step>::empty());
    } else {
        let init = shares.drop_last();
        let last = shares.last();
        let n = shares.len() - 1;
        let dl = Denom::Token(last.id);
        let p = payouts(s, cs, last);
        lemma_distribution_effect(m, s, cs, init);
        let m1 = run(m, distribution(s, cs, init));
        lemma_run_append(m, distribution(s, cs, init), p);
        assert(distribution(s, cs, shares) == distribution(s, cs, init) + p);
        assert forall|k: int| 0 <= k < init.len() implies dl != Denom::Token((#[trigger] init[k]).id) by {
            assert(init[k] == shares[k]);
        }
        assert(m1[(s.account, dl)] == m[(s.account, dl)]);
        lemma_payouts_prefix(m1, s, cs, last, cs.len() as int);
        assert(p.take(cs.len() as int) =~= p);
        let m2 = run(m1, p);
        assert forall|key: (AccountId, Denom)| key.1 != dl implies #[trigger] m2[key] == m1[key] by {
            assert forall|q: int| 0 <= q < p.len() implies !touches(#[trigger] p[q], key.0)
                || denom_of(p[q]) != key.1 by {
            }
            lemma_run_frame(m1, p, key);
        }
        assert forall|key: (AccountId, Denom)|
            key.0 != s.account && !has_owner(cs, key.0) implies #[trigger] m2[key] == m1[key] by {
            assert forall|q: int| 0 <= q < p.len() implies !touches(#[trigger] p[q], key.0)
                || denom_of(p[q]) != key.1 by {
                assert(cs[q].owner != key.0);
            }
            lemma_run_frame(m1, p, key);
        }
        assert forall|j: int, k: int| 0 <= j < cs.len() && 0 <= k < shares.len() implies m2[(
            (#[trigger] cs[j]).owner,
            Denom::Token((#[trigger] shares[k]).id),
        )] == m[(cs[j].owner, Denom::Token(shares[k].id))] + pro_rata(
            cs[j].amount as nat,
            shares[k].amount as nat,
            total,
        ) by {
            if k < n {
                assert(init[k] == shares[k]);
                assert(shares[k].id != last.id);
            } else {
                assert(m1[(cs[j].owner, dl)] == m[(cs[j].owner, dl)]);
            }
        }
        assert forall|k: int| 0 <= k < shares.len() implies m2[(
            s.account,
            Denom::Token((#[trigger] shares[k]).id),
        )] + allotted(amounts(cs), shares[k].amount as nat, total) == m[(
            s.account,
            Denom::Token(shares[k].id),
        )] by {
            assert(amounts(cs).take(cs.len() as int) =~= amounts(cs));
            if k < n {
                assert(init[k] == shares[k]);
                assert(shares[k].id != last.id);
            }
        }
        assert forall|key: (AccountId, Denom)|
            (forall|k: int| 0 <= k < shares.len() ==> key.1 != Denom::Token((#[trigger] shares[k]).id))
                implies #[trigger] m2[key] == m[key] by {
            assert(key.1 != Denom::Token(shares[n].id));
            assert forall|k: int| 0 <= k < init.len() implies key.1 != Denom::Token(
                (#[trigger] init[k]).id,
            ) by {
                assert(init[k] == shares[k]);
            }
        }
    }
}

proof fn lemma_sweeps_shape(s: SimpleCrowdfunding)
    ensures
        sweeps(s).len() == s.shares@.len() + 2,
        sweeps(s)[0] == (Step::Sweep {
            from: s.account,
            to: s.creator,
            denom: Denom::Token(s.asset_id),
        }),
        forall|k: int|
            0 <= k < s.shares@.len() ==> sweeps(s)[k + 1] == (Step::Sweep {
                from: s.account,
                to: s.creator,
                denom: Denom::Token((#[trigger] s.shares@[k]).id),
            }),
        sweeps(s)[s.shares@.len() as int + 1] == (Step::Sweep {
            from: s.account,
            to: s.creator,
            denom: Denom::Native,
        }),
{
    let mid = s.shares@.map_values(
        |a: Asset| Step::Sweep { from: s.account, to: s.creator, denom: Denom::Token(a.id) },
    );
    assert forall|k: int| 0 <= k < s.shares@.len() implies sweeps(s)[k + 1] == (Step::Sweep {
        from: s.account,
        to: s.creator,
        denom: Denom::Token((#[trigger] s.shares@[k]).id),
    }) by {
        assert(sweeps(s)[k + 1] == mid[k]);
    }
}

/// Where one sweep alone moves `d`, the account swept to gains all that the swept account
/// held of `d`.
proof fn lemma_single_sweep(m: Balances, w: Seq<Step>, q: int, e: AccountId, c: AccountId, d: Denom)
    requires
        total_map(m),
        e != c,
        0 <= q < w.len(),
        w[q] == (Step::Sweep { from: e, to: c, denom: d }),
        forall|p: int| 0 <= p < w.len() && p != q ==> denom_of(#[trigger] w[p]) != d,
    ensures
        run(m, w)[(c, d)] == m[(c, d)] + m[(e, d)],
{
    let head = w.take(q);
    let tail = w.skip(q + 1);
    assert forall|p: int| 0 <= p < head.len() implies !touches(#[trigger] head[p], c) || denom_of(
        head[p],
    ) != d by {
        assert(head[p] == w[p]);
    }
    assert forall|p: int| 0 <= p < head.len() implies !touches(#[trigger] head[p], e) || denom_of(
        head[p],
    ) != d by {
        assert(head[p] == w[p]);
    }
    lemma_run_frame(m, head, (c, d));
    lemma_run_frame(m, head, (e, d));
    lemma_run_total(m, head);
    lemma_run_step(m, w, q);
    let mid = run(m, w.take(q + 1));
    assert(mid[(c, d)] == m[(c, d)] + m[(e, d)]);
    lemma_run_total(m, w.take(q + 1));
    assert(w.take(q + 1) + tail =~= w);
    lemma_run_append(m, w.take(q + 1), tail);
    assert forall|p: int| 0 <= p < tail.len() implies !touches(#[trigger] tail[p], c) || denom_of(
        tail[p],
    ) != d by {
        assert(tail[p] == w[p + q + 1]);
    }
    lemma_run_frame(mid, tail, (c, d));
}

/// From `m0` to `m1`, each investor other than the creator got its pro-rata part of every
/// share; the creator got all that the escrow held of the raised asset and, where it did not
/// invest itself, all that was left of each share once the parts were handed out.
pub open spec fn distributed(m0: Balances, m1: Balances, s: SimpleCrowdfunding, cs: Seq<Contribution>) -> bool {
    &&& forall|j: int, k: int|
        0 <= j < cs.len() && 0 <= k < s.shares@.len() && cs[j].owner != s.creator ==> m1[(
            (#[trigger] cs[j]).owner,
            Denom::Token((#[trigger] s.shares@[k]).id),
        )] == m0[(cs[j].owner, Denom::Token(s.shares@[k].id))] + pro_rata(
            cs[j].amount as nat,
            s.shares@[k].amount as nat,
            s.total_amount as nat,
        )
    &&& m1[(s.creator, Denom::Token(s.asset_id))] == m0[(s.creator, Denom::Token(s.asset_id))]
        + m0[(s.account, Denom::Token(s.asset_id))]
    &&& !has_owner(cs, s.creator) ==> forall|k: int|
        0 <= k < s.shares@.len() ==> m1[(s.creator, Denom::Token((#[trigger] s.shares@[k]).id))]
            + allotted(amounts(cs), s.shares@[k].amount as nat, s.total_amount as nat) == m0[(
            s.creator,
            Denom::Token(s.shares@[k].id),
        )] + m0[(s.account, Denom::Token(s.shares@[k].id))]
}

/// Finishing pays each investor exactly its rounded-down part of every share and hands
/// the rest, with the raised funds, to the creator.
pub proof fn lemma_finish_distributes(m: Balances, s: SimpleCrowdfunding, cs: Seq<Contribution>)
    requires
        total_map(m),
        owners_sorted(cs),
        forall|j: int| 0 <= j < cs.len() ==> (#[trigger] cs[j]).owner != s.account,
        s.creator != s.account,
        total_of(cs) == s.total_amount,
        forall|k: int| 0 <= k < s.shares@.len() ==> (#[trigger] s.shares@[k]).id != s.asset_id,
        forall|k: int, l: int|
            0 <= k < l < s.shares@.len() ==> (#[trigger] s.shares@[k]).id != (#[trigger] s.shares@[l]).id,
        forall|k: int|
            0 <= k < s.shares@.len() ==> m[(s.account, Denom::Token((#[trigger] s.shares@[k]).id))]
                >= s.shares@[k].amount,
    ensures
        distributed(m, run(m, finish_plan(s, cs)), s, cs),
{
    let e = s.account;
    let c = s.creator;
    let raise = Denom::Token(s.asset_id);
    let shares = s.shares@;
    let n = shares.len() as int;
    let d = distribution(s, cs, shares);
    let w = sweeps(s);
    lemma_distribution_effect(m, s, cs, shares);
    let m1 = run(m, d);
    lemma_run_append(m, d, w);
    lemma_sweeps_shape(s);
    let mf = run(m1, w);
    assert forall|p: int| 0 <= p < w.len() implies (#[trigger] w[p] == Step::Sweep {
        from: e,
        to: c,
        denom: denom_of(w[p]),
    }) by {
        if 1 <= p <= n {
            assert(w[(p - 1) + 1] == w[p]);
        }
    }
    assert forall|j: int, k: int|
        0 <= j < cs.len() && 0 <= k < shares.len() && cs[j].owner != c implies mf[(
        (#[trigger] cs[j]).owner,
        Denom::Token((#[trigger] shares[k]).id),
    )] == m[(cs[j].owner, Denom::Token(shares[k].id))] + pro_rata(
        cs[j].amount as nat,
        shares[k].amount as nat,
        s.total_amount as nat,
    ) by {
        let key = (cs[j].owner, Denom::Token(shares[k].id));
        assert forall|p: int| 0 <= p < w.len() implies !touches(#[trigger] w[p], key.0) || denom_of(
            w[p],
        ) != key.1 by {
            assert(w[p] == Step::Sweep { from: e, to: c, denom: denom_of(w[p]) });
        }
        lemma_run_frame(m1, w, key);
    }
    assert forall|k: int| 0 <= k < shares.len() implies raise != Denom::Token((#[trigger] shares[k]).id) by {
    }
    assert(m1[(c, raise)] == m[(c, raise)]);
    assert(m1[(e, raise)] == m[(e, raise)]);
    assert forall|p: int| 0 <= p < w.len() && p != 0 implies denom_of(#[trigger] w[p]) != raise by {
        if p <= n {
            assert(w[(p - 1) + 1] == w[p]);
            assert(shares[p - 1].id != s.asset_id);
        }
    }
    lemma_single_sweep(m1, w, 0, e, c, raise);
    if !has_owner(cs, c) {
        assert forall|k: int| 0 <= k < shares.len() implies mf[(c, Denom::Token((#[trigger] shares[k]).id))]
            + allotted(amounts(cs), shares[k].amount as nat, s.total_amount as nat) == m[(
            c,
            Denom::Token(shares[k].id),
        )] + m[(e, Denom::Token(shares[k].id))] by {
            let dk = Denom::Token(shares[k].id);
            assert(m1[(c, dk)] == m[(c, dk)]);
            assert forall|p: int| 0 <= p < w.len() && p != k + 1 implies denom_of(#[trigger] w[p])
                != dk by {
                if p == 0 {
                } else if p <= n {
                    assert(w[(p - 1) + 1] == w[p]);
                    if p - 1 < k {
                        assert(shares[p - 1].id != shares[k].id);
                    } else {
                        assert(shares[k].id != shares[p - 1].id);
                    }
                }
            }
            lemma_single_sweep(m1, w, k + 1, e, c, dk);
        }
    }
}

} // verus!

use vstd::prelude::*;
use vstd::arithmetic::div_mod::{lemma_fundamental_div_mod, lemma_mod_bound};
use crate::types::Balance;

verus! {

/// The part of a share of `share` units owed to an investment of `investment` out of
/// `total` raised: `floor(investment * share / total)`, and zero when nothing was raised.
pub open spec fn pro_rata(investment: nat, share: nat, total: nat) -> nat {
    if total == 0 {
        0
    } else {
        (investment * share) / total
    }
}

/// The sum of the pro-rata parts of `share` over the investments `xs`.
pub open spec fn allotted(xs: Seq<nat>, share: nat, total: nat) -> nat
    decreases xs.len(),
{
    if xs.len() == 0 {
        0
    } else {
        allotted(xs.drop_last(), share, total) + pro_rata(xs.last(), share, total)
    }
}

/// The sum of the investments `xs`.
pub open spec fn sum_of(xs: Seq<nat>) -> nat
    decreases xs.len(),
{
    if xs.len() == 0 {
        0
    } else {
        sum_of(xs.drop_last()) + xs.last()
    }
}

/// Operands of the pro-rata computation, widened to 128 bits.
pub struct TokenAmount {
    pub investment_amount: u128,
    pub share_amount: u128,
    pub sale_amount: u128,
}

impl TokenAmount {
    pub fn new(investment: Balance, share: Balance, total: Balance) -> (r: TokenAmount)
        ensures
            r.investment_amount == investment,
            r.share_amount == share,
            r.sale_amount == total,
    {
        TokenAmount {
            investment_amount: investment as u128,
            share_amount: share as u128,
            sale_amount: total as u128,
        }
    }

    /// `investment_amount * share_amount / sale_amount`, rounded down, and zero when
    /// `sale_amount` is zero. The operands are balances, so the 128-bit product is exact.
    pub fn calc(&self) -> (r: u128)
        requires
            self.investment_amount <= u64::MAX,
            self.share_amount <= u64::MAX,
            self.sale_amount <= u64::MAX,
        ensures
            r == pro_rata(
                self.investment_amount as nat,
                self.share_amount as nat,
                self.sale_amount as nat,
            ),
    {
        if self.sale_amount == 0 {
            return 0;
        }
        proof {
            let (a, b) = (self.investment_amount, self.share_amount);
            assert(a * b <= u64::MAX * u64::MAX) by (nonlinear_arith)
                requires
                    a <= u64::MAX,
                    b <= u64::MAX,
            ;
        }
        self.investment_amount * self.share_amount / self.sale_amount
    }
}

/// The pro-rata part of `share` owed to `investment` out of `total`.
pub fn token_amount(investment: Balance, share: Balance, total: Balance) -> (r: Balance)
    requires
        investment <= total,
    ensures
        r == pro_rata(investment as nat, share as nat, total as nat),
        r <= share,
{
    let t = TokenAmount::new(investment, share, total);
    proof {
        assert(investment * share <= u64::MAX * u64::MAX) by (nonlinear_arith)
            requires
                investment <= u64::MAX,
                share <= u64::MAX,
        ;
    }
    let x = t.calc();
    proof {
        if total != 0 {
            lemma_part_le_share(investment as nat, share as nat, total as nat);
        }
    }
    x as Balance
}

pub proof fn lemma_part_le_share(investment: nat, share: nat, total: nat)
    requires
        investment <= total,
        total > 0,
    ensures
        pro_rata(investment, share, total) <= share,
{
    lemma_part_times_total(investment, share, total);
    let p = pro_rata(investment, share, total);
    assert(p * total <= investment * share);
    assert(investment * share <= total * share) by (nonlinear_arith)
        requires
            investment <= total,
    ;
    assert(p <= share) by (nonlinear_arith)
        requires
            p * total <= total * share,
            total > 0,
    ;
}

proof fn lemma_part_times_total(investment: nat, share: nat, total: nat)
    requires
        total > 0,
    ensures
        pro_rata(investment, share, total) * total <= investment * share,
{
    let x = (investment * share) as int;
    lemma_fundamental_div_mod(x, total as int);
    lemma_mod_bound(x, total as int);
    let q = x / (total as int);
    assert(pro_rata(investment, share, total) == q);
    assert(q * total == total * q) by (nonlinear_arith);
}

/// Rounding down never hands out more than the share: where the investments sum to at
/// most `total`, their pro-rata parts of `share` sum to at most `share`.
pub proof fn lemma_allotted_le_share(xs: Seq<nat>, share: nat, total: nat)
    requires
        sum_of(xs) <= total,
    ensures
        allotted(xs, share, total) <= share,
{
    if total == 0 {
        lemma_allotted_zero_total(xs, share);
    } else {
        lemma_allotted_scaled(xs, share, total);
        let a = allotted(xs, share, total);
        let s = sum_of(xs);
        assert(s * share <= total * share) by (nonlinear_arith)
            requires
                s <= total,
        ;
        assert(a <= share) by (nonlinear_arith)
            requires
                a * total <= s * share,
                s * share <= total * share,
                total > 0,
        ;
    }
}

proof fn lemma_allotted_zero_total(xs: Seq<nat>, share: nat)
    ensures
        allotted(xs, share, 0) == 0,
    decreases xs.len(),
{
    if xs.len() > 0 {
        lemma_allotted_zero_total(xs.drop_last(), share);
    }
}

proof fn lemma_allotted_scaled(xs: Seq<nat>, share: nat, total: nat)
    requires
        total > 0,
    ensures
        allotted(xs, share, total) * total <= sum_of(xs) * share,
    decreases xs.len(),
{
    if xs.len() > 0 {
        lemma_allotted_scaled(xs.drop_last(), share, total);
        lemma_part_times_total(xs.last(), share, total);
        let a = allotted(xs.drop_last(), share, total);
        let p = pro_rata(xs.last(), share, total);
        let s = sum_of(xs.drop_last());
        assert(allotted(xs, share, total) == a + p);
        assert(sum_of(xs) == s + xs.last());
        let l = xs.last();
        assert((a + p) * total <= (s + l) * share) by (nonlinear_arith)
            requires
                a * total <= s * share,
                p * total <= l * share,
        ;
        assert(allotted(xs, share, total) * total <= sum_of(xs) * share);
    } else {
        assert(allotted(xs, share, total) == 0);
        assert(sum_of(xs) == 0);
    }
}

} // verus!

use vstd::prelude::*;
use crate::types::{AccountId, AssetId, Balance};

verus! {

/// What a balance is held in: the ledger's native currency, or a fungible asset.
#[derive(Clone, Copy, Debug, PartialEq, Eq, Structural)]
pub enum Denom {
    Native,
    Token(AssetId),
}

/// One account's balance in one denomination.
#[derive(Clone, Copy, Debug)]
pub struct Holding {
    pub account: AccountId,
    pub denom: Denom,
    pub amount: Balance,
}

/// Every account's balance in every denomination; absent holdings are zero.
pub type Balances = Map<(AccountId, Denom), nat>;

pub open spec fn key_of(h: Holding) -> (AccountId, Denom) {
    (h.account, h.denom)
}

/// What a holding adds to the supply of `d`.
pub open spec fn share_of(h: Holding, d: Denom) -> nat {
    if h.denom == d {
        h.amount as nat
    } else {
        0
    }
}

/// The total amount of `d` held over all holdings of `s`.
pub open spec fn supply_of(s: Seq<Holding>, d: Denom) -> nat
    decreases s.len(),
{
    if s.len() == 0 {
        0
    } else {
        supply_of(s.drop_last(), d) + share_of(s.last(), d)
    }
}

/// The amount held under key `k` in `s`, zero where no holding has that key.
pub open spec fn lookup(s: Seq<Holding>, k: (AccountId, Denom)) -> nat {
    if exists|i: int| 0 <= i < s.len() && key_of(#[trigger] s[i]) == k {
        s[choose|i: int| 0 <= i < s.len() && key_of(#[trigger] s[i]) == k].amount as nat
    } else {
        0
    }
}

pub open spec fn keys_unique(s: Seq<Holding>) -> bool {
    forall|i: int, j: int|
        0 <= i < s.len() && 0 <= j < s.len() && i != j ==> key_of(#[trigger] s[i]) != key_of(
            #[trigger] s[j],
        )
}

/// The balances after `amt` of `d` moved from `from` to `to`.
pub open spec fn moved(m: Balances, from: AccountId, to: AccountId, d: Denom, amt: nat) -> Balances {
    let m1 = m.insert((from, d), (m[(from, d)] - amt) as nat);
    m1.insert((to, d), m1[(to, d)] + amt)
}

/// The balances after `amt` of `d` was credited to `a`.
pub open spec fn credited(m: Balances, a: AccountId, d: Denom, amt: nat) -> Balances {
    m.insert((a, d), m[(a, d)] + amt)
}

proof fn lemma_lookup_at(s: Seq<Holding>, i: int)
    requires
        keys_unique(s),
        0 <= i < s.len(),
    ensures
        lookup(s, key_of(s[i])) == s[i].amount as nat,
{
}

proof fn lemma_supply_update(s: Seq<Holding>, i: int, h: Holding, d: Denom)
    requires
        0 <= i < s.len(),
    ensures
        supply_of(s.update(i, h), d) + share_of(s[i], d) == supply_of(s, d) + share_of(h, d),
    decreases s.len(),
{
    let t = s.update(i, h);
    if i == s.len() - 1 {
        assert(t.drop_last() =~= s.drop_last());
    } else {
        assert(t.drop_last() =~= s.drop_last().update(i, h));
        lemma_supply_update(s.drop_last(), i, h, d);
    }
}

proof fn lemma_supply_push(s: Seq<Holding>, h: Holding, d: Denom)
    ensures
        supply_of(s.push(h), d) == supply_of(s, d) + share_of(h, d),
{
    assert(s.push(h).drop_last() =~= s);
}

proof fn lemma_share_le_supply(s: Seq<Holding>, i: int, d: Denom)
    requires
        0 <= i < s.len(),
    ensures
        share_of(s[i], d) <= supply_of(s, d),
    decreases s.len(),
{
    if i < s.len() - 1 {
        lemma_share_le_supply(s.drop_last(), i, d);
    }
}

proof fn lemma_supply_prefix(s: Seq<Holding>, i: int, d: Denom)
    requires
        0 <= i <= s.len(),
    ensures
        supply_of(s.take(i), d) <= supply_of(s, d),
    decreases s.len() - i,
{
    if i < s.len() {
        lemma_supply_prefix(s, i + 1, d);
        assert(s.take(i + 1).drop_last() =~= s.take(i));
    } else {
        assert(s.take(i) =~= s);
    }
}

/// A table of balances in which no denomination's supply exceeds `u64::MAX`.
pub struct Ledger {
    holdings: Vec<Holding>,
}

impl Ledger {
    pub closed spec fn view(&self) -> Balances {
        Map::new(|k: (AccountId, Denom)| true, |k: (AccountId, Denom)| lookup(self.holdings@, k))
    }

    /// The total amount of `d` in existence.
    pub closed spec fn supply(&self, d: Denom) -> nat {
        supply_of(self.holdings@, d)
    }

    pub closed spec fn wf(&self) -> bool {
        &&& keys_unique(self.holdings@)
        &&& forall|d: Denom| #[trigger] supply_of(self.holdings@, d) <= u64::MAX
    }

    /// Every account has a balance in every denomination, zero where it holds none.
    pub proof fn lemma_total(&self)
        ensures
            forall|k: (AccountId, Denom)| #[trigger] self@.dom().contains(k),
    {
    }

    /// Every balance is bounded by its denomination's supply.
    pub proof fn lemma_balance_le_supply(&self, a: AccountId, d: Denom)
        requires
            self.wf(),
        ensures
            self@[(a, d)] <= self.supply(d),
            self.supply(d) <= u64::MAX,
    {
        let s = self.holdings@;
        assert(supply_of(s, d) <= u64::MAX);
        if exists|i: int| 0 <= i < s.len() && key_of(#[trigger] s[i]) == (a, d) {
            let i = choose|i: int| 0 <= i < s.len() && key_of(#[trigger] s[i]) == (a, d);
            lemma_share_le_supply(s, i, d);
        }
    }

    /// Two distinct accounts hold together no more than the supply.
    proof fn lemma_pair_le_supply(&self, a: AccountId, b: AccountId, d: Denom)
        requires
            self.wf(),
            a != b,
        ensures
            self@[(a, d)] + self@[(b, d)] <= self.supply(d),
    {
        let s = self.holdings@;
        let ka = (a, d);
        let kb = (b, d);
        if exists|i: int| 0 <= i < s.len() && key_of(#[trigger] s[i]) == ka {
            let i = choose|i: int| 0 <= i < s.len() && key_of(#[trigger] s[i]) == ka;
            if exists|j: int| 0 <= j < s.len() && key_of(#[trigger] s[j]) == kb {
                let j = choose|j: int| 0 <= j < s.len() && key_of(#[trigger] s[j]) == kb;
                let t = s.update(i, Holding { account: a, denom: d, amount: 0 });
                lemma_supply_update(s, i, Holding { account: a, denom: d, amount: 0 }, d);
                lemma_share_le_supply(t, j, d);
            } else {
                lemma_share_le_supply(s, i, d);
            }
        } else {
            self.lemma_balance_le_supply(b, d);
        }
    }

    pub fn new() -> (r: Ledger)
        ensures
            r.wf(),
            forall|k: (AccountId, Denom)| #[trigger] r@[k] == 0,
            forall|d: Denom| #[trigger] r.supply(d) == 0,
    {
        Ledger { holdings: Vec::new() }
    }

    fn find(&self, a: AccountId, d: Denom) -> (r: Option<usize>)
        requires
            self.wf(),
        ensures
            match r {
                Some(i) => i < self.holdings@.len() && key_of(self.holdings@[i as int]) == (a, d),
                None => forall|i: int|
                    0 <= i < self.holdings@.len() ==> key_of(#[trigger] self.holdings@[i]) != (a, d),
            },
            self@[(a, d)] == match r {
                Some(i) => self.holdings@[i as int].amount as nat,
                None => 0,
            },
    {
        let mut i: usize = 0;
        while i < self.holdings.len()
            invariant
                self.wf(),
                i <= self.holdings@.len(),
                forall|j: int| 0 <= j < i ==> key_of(#[trigger] self.holdings@[j]) != (a, d),
            decreases self.holdings@.len() - i,
        {
            let h = self.holdings[i];
            if h.account == a && h.denom == d {
                proof {
                    lemma_lookup_at(self.holdings@, i as int);
                }
                return Some(i);
            }
            i = i + 1;
        }
        None
    }

    /// The balance of `a` in `d`.
    pub fn balance(&self, a: AccountId, d: Denom) -> (r: Balance)
        requires
            self.wf(),
        ensures
            r == self@[(a, d)],
    {
        match self.find(a, d) {
            Some(i) => self.holdings[i].amount,
            None => 0,
        }
    }

    /// The supply of `d`.
    pub fn total_supply(&self, d: Denom) -> (r: Balance)
        requires
            self.wf(),
        ensures
            r == self.supply(d),
    {
        let s = Ghost(self.holdings@);
        let mut sum: u64 = 0;
        let mut i: usize = 0;
        while i < self.holdings.len()
            invariant
                s@ == self.holdings@,
                i <= s@.len(),
                sum == supply_of(s@.take(i as int), d),
                supply_of(s@, d) <= u64::MAX,
            decreases s@.len() - i,
        {
            proof {
                assert(s@.take(i + 1).drop_last() =~= s@.take(i as int));
                lemma_supply_prefix(s@, i + 1, d);
            }
            let h = self.holdings[i];
            if h.denom == d {
                sum = sum + h.amount;
            }
            i = i + 1;
        }
        proof {
            assert(s@.take(i as int) =~= s@);
        }
        sum
    }

    /// Adds `amount` to the holding under `(a, d)`, creating it where it is missing.
    fn add_to(&mut self, a: AccountId, d: Denom, amount: Balance)
        requires
            old(self).wf(),
            old(self).supply(d) + amount <= u64::MAX,
        ensures
            final(self).wf(),
            final(self)@ == credited(old(self)@, a, d, amount as nat),
            final(self).supply(d) == old(self).supply(d) + amount,
            forall|e: Denom| e != d ==> #[trigger] final(self).supply(e) == old(self).supply(e),
    {
        let ghost s = self.holdings@;
        match self.find(a, d) {
            Some(i) => {
                proof {
                    lemma_share_le_supply(s, i as int, d);
                }
                let h = Holding { account: a, denom: d, amount: self.holdings[i].amount + amount };
                self.holdings.set(i, h);
                proof {
                    let t = self.holdings@;
                    assert(t == s.update(i as int, h));
                    assert forall|e: Denom| true implies #[trigger] supply_of(t, e) + share_of(s[i as int], e)
                        == supply_of(s, e) + share_of(h, e) by {
                        lemma_supply_update(s, i as int, h, e);
                    }
                    assert forall|k: (AccountId, Denom)| #[trigger]
                        lookup(t, k) == credited(lookup_map(s), a, d, amount as nat)[k] by {
                        if k == (a, d) {
                            lemma_lookup_at(t, i as int);
                        } else {
                            lemma_lookup_other(s, i as int, h, k);
                        }
                    }
                    assert(lookup_map(t) =~= credited(lookup_map(s), a, d, amount as nat));
                }
            },
            None => {
                let h = Holding { account: a, denom: d, amount };
                self.holdings.push(h);
                proof {
                    let t = self.holdings@;
                    assert(t == s.push(h));
                    assert forall|e: Denom| true implies #[trigger] supply_of(t, e) == supply_of(s, e)
                        + share_of(h, e) by {
                        lemma_supply_push(s, h, e);
                    }
                    assert forall|k: (AccountId, Denom)| #[trigger]
                        lookup(t, k) == credited(lookup_map(s), a, d, amount as nat)[k] by {
                        if k == (a, d) {
                            lemma_lookup_at(t, s.len() as int);
                        } else {
                            lemma_lookup_pushed(s, h, k);
                        }
                    }
                    assert(lookup_map(t) =~= credited(lookup_map(s), a, d, amount as nat));
                }
            },
        }
    }

    /// Takes `amount` from the holding under `(a, d)`, which holds at least that much.
    fn take_from(&mut self, a: AccountId, d: Denom, amount: Balance)
        requires
            old(self).wf(),
            amount <= old(self)@[(a, d)],
        ensures
            final(self).wf(),
            final(self)@ == old(self)@.insert((a, d), (old(self)@[(a, d)] - amount) as nat),
            final(self).supply(d) + amount == old(self).supply(d),
            forall|e: Denom| e != d ==> #[trigger] final(self).supply(e) == old(self).supply(e),
    {
        let ghost s = self.holdings@;
        match self.find(a, d) {
            Some(i) => {
                let h = Holding { account: a, denom: d, amount: self.holdings[i].amount - amount };
                self.holdings.set(i, h);
                proof {
                    let t = self.holdings@;
                    assert(t == s.update(i as int, h));
                    assert forall|e: Denom| true implies #[trigger] supply_of(t, e) + share_of(s[i as int], e)
                        == supply_of(s, e) + share_of(h, e) by {
                        lemma_supply_update(s, i as int, h, e);
                    }
                    let m = lookup_map(s).insert((a, d), (lookup_map(s)[(a, d)] - amount) as nat);
                    assert forall|k: (AccountId, Denom)| #[trigger] lookup(t, k) == m[k] by {
                        if k == (a, d) {
                            lemma_lookup_at(t, i as int);
                        } else {
                            lemma_lookup_other(s, i as int, h, k);
                        }
                    }
                    assert(lookup_map(t) =~= m);
                }
            },
            None => {
                assert(self@ =~= old(self)@.insert((a, d), (old(self)@[(a, d)] - amount) as nat));
            },
        }
    }

    /// Creates `amount` of `d` in the account `a`; refused where the supply would pass
    /// `u64::MAX`.
    pub fn deposit(&mut self, a: AccountId, d: Denom, amount: Balance) -> (ok: bool)
        requires
            old(self).wf(),
        ensures
            final(self).wf(),
            ok == (old(self).supply(d) + amount <= u64::MAX),
            ok ==> final(self)@ == credited(old(self)@, a, d, amount as nat),
            ok ==> final(self).supply(d) == old(self).supply(d) + amount,
            forall|e: Denom| e != d ==> #[trigger] final(self).supply(e) == old(self).supply(e),
            !ok ==> *final(self) == *old(self),
    {
        let total = self.total_supply(d);
        if amount > u64::MAX - total {
            return false;
        }
        self.add_to(a, d, amount);
        true
    }

    /// Moves `amount` of `d` from `from` to `to`; refused, with nothing changed, where
    /// `from` holds less than `amount`.
    pub fn transfer(&mut self, from: AccountId, to: AccountId, d: Denom, amount: Balance) -> (ok:
        bool)
        requires
            old(self).wf(),
        ensures
            final(self).wf(),
            ok == (amount <= old(self)@[(from, d)]),
            ok ==> final(self)@ == moved(old(self)@, from, to, d, amount as nat),
            !ok ==> *final(self) == *old(self),
            forall|e: Denom| #[trigger] final(self).supply(e) == old(self).supply(e),
    {
        let have = self.balance(from, d);
        if have < amount {
            return false;
        }
        proof {
            old(self).lemma_balance_le_supply(from, d);
            if from != to {
                old(self).lemma_pair_le_supply(from, to, d);
            }
        }
        self.take_from(from, d, amount);
        proof {
            if from == to {
                assert(self@[(to, d)] + amount <= old(self).supply(d));
            } else {
                assert(self@[(to, d)] == old(self)@[(to, d)]);
            }
        }
        self.add_to(to, d, amount);
        proof {
            assert(self@ =~= moved(old(self)@, from, to, d, amount as nat));
        }
        true
    }
}

spec fn lookup_map(s: Seq<Holding>) -> Balances {
    Map::new(|k: (AccountId, Denom)| true, |k: (AccountId, Denom)| lookup(s, k))
}

proof fn lemma_lookup_other(s: Seq<Holding>, i: int, h: Holding, k: (AccountId, Denom))
    requires
        keys_unique(s),
        0 <= i < s.len(),
        key_of(h) == key_of(s[i]),
        k != key_of(h),
    ensures
        lookup(s.update(i, h), k) == lookup(s, k),
        keys_unique(s.update(i, h)),
{
    let t = s.update(i, h);
    assert forall|a: int, b: int|
        0 <= a < t.len() && 0 <= b < t.len() && a != b implies key_of(#[trigger] t[a]) != key_of(
        #[trigger] t[b],
    ) by {
        assert(key_of(t[a]) == key_of(s[a]));
        assert(key_of(t[b]) == key_of(s[b]));
    }
    if exists|j: int| 0 <= j < s.len() && key_of(#[trigger] s[j]) == k {
        let j = choose|j: int| 0 <= j < s.len() && key_of(#[trigger] s[j]) == k;
        lemma_lookup_at(s, j);
        lemma_lookup_at(t, j);
    } else {
        assert forall|j: int| 0 <= j < t.len() implies key_of(#[trigger] t[j]) != k by {
            assert(key_of(t[j]) == key_of(s[j]));
        }
    }
}

proof fn lemma_lookup_pushed(s: Seq<Holding>, h: Holding, k: (AccountId, Denom))
    requires
        keys_unique(s),
        forall|i: int| 0 <= i < s.len() ==> key_of(#[trigger] s[i]) != key_of(h),
        k != key_of(h),
    ensures
        lookup(s.push(h), k) == lookup(s, k),
        keys_unique(s.push(h)),
{
    let t = s.push(h);
    assert forall|a: int, b: int|
        0 <= a < t.len() && 0 <= b < t.len() && a != b implies key_of(#[trigger] t[a]) != key_of(
        #[trigger] t[b],
    ) by {
        if a < s.len() {
            assert(t[a] == s[a]);
        }
        if b < s.len() {
            assert(t[b] == s[b]);
        }
    }
    if exists|j: int| 0 <= j < s.len() && key_of(#[trigger] s[j]) == k {
        let j = choose|j: int| 0 <= j < s.len() && key_of(#[trigger] s[j]) == k;
        lemma_lookup_at(s, j);
        assert(t[j] == s[j]);
        lemma_lookup_at(t, j);
    } else {
        assert forall|j: int| 0 <= j < t.len() implies key_of(#[trigger] t[j]) != k by {
            if j < s.len() {
                assert(t[j] == s[j]);
            }
        }
    }
}

} // verus!

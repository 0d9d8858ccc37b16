use vstd::prelude::*;
use crate::types::{AccountId, AssetId, Balance};
use crate::ledger::{Denom, Ledger, moved};

verus! {

/// A value that can move itself between two accounts of a ledger.
pub trait TransferUnitT: Sized {
    /// The denomination the value is held in.
    spec fn denom(&self) -> Denom;

    /// How much of it there is.
    spec fn quantity(&self) -> Balance;

    /// Moves the value from `from` to `to`; refused, with nothing changed, where `from`
    /// holds less.
    fn transfer(self, ledger: &mut Ledger, from: AccountId, to: AccountId) -> (ok: bool)
        requires
            old(ledger).wf(),
        ensures
            final(ledger).wf(),
            ok == (self.quantity() <= old(ledger)@[(from, self.denom())]),
            ok ==> final(ledger)@ == moved(old(ledger)@, from, to, self.denom(), self.quantity() as nat),
            !ok ==> *final(ledger) == *old(ledger),
    ;
}

/// An asset identifier paired with a payload, movable as a whole.
pub trait GenericAssetT: TransferUnitT {
    spec fn spec_id(&self) -> AssetId;

    spec fn spec_payload(&self) -> Balance;

    fn new(id: AssetId, payload: Balance) -> (r: Self)
        ensures
            r.spec_id() == id,
            r.spec_payload() == payload,
    ;

    fn id(&self) -> (r: &AssetId)
        ensures
            *r == self.spec_id(),
    ;

    fn payload(&self) -> (r: &Balance)
        ensures
            *r == self.spec_payload(),
    ;
}

/// A fungible token: its payload is an amount, and an account's whole holding can be taken
/// as one value.
pub trait FTokenT: GenericAssetT {
    fn balance(id: AssetId, ledger: &Ledger, account: AccountId) -> (r: Self)
        requires
            ledger.wf(),
        ensures
            r.spec_id() == id,
            r.spec_payload() == ledger@[(account, Denom::Token(id))],
    ;
}

/// An amount of one asset.
#[derive(Clone, Copy, Debug, PartialEq, Eq, Structural)]
pub struct Asset {
    pub id: AssetId,
    pub amount: Balance,
}

impl Asset {
    pub fn new(id: AssetId, amount: Balance) -> (r: Asset)
        ensures
            r.id == id,
            r.amount == amount,
    {
        Asset { id, amount }
    }

    pub fn id(&self) -> (r: &AssetId)
        ensures
            *r == self.id,
    {
        &self.id
    }

    pub fn amount(&self) -> (r: &Balance)
        ensures
            *r == self.amount,
    {
        &self.amount
    }
}

impl TransferUnitT for Asset {
    open spec fn denom(&self) -> Denom {
        Denom::Token(self.id)
    }

    open spec fn quantity(&self) -> Balance {
        self.amount
    }

    fn transfer(self, ledger: &mut Ledger, from: AccountId, to: AccountId) -> (ok: bool) {
        ledger.transfer(from, to, Denom::Token(self.id), self.amount)
    }
}

impl GenericAssetT for Asset {
    open spec fn spec_id(&self) -> AssetId {
        self.id
    }

    open spec fn spec_payload(&self) -> Balance {
        self.amount
    }

    fn new(id: AssetId, payload: Balance) -> (r: Self) {
        Asset { id, amount: payload }
    }

    fn id(&self) -> (r: &AssetId) {
        &self.id
    }

    fn payload(&self) -> (r: &Balance) {
        &self.amount
    }
}

impl FTokenT for Asset {
    fn balance(id: AssetId, ledger: &Ledger, account: AccountId) -> (r: Self) {
        Asset { id, amount: ledger.balance(account, Denom::Token(id)) }
    }
}

/// A movement from one account to another, carried out by whatever value is handed to it.
pub struct Transfer {
    pub from: AccountId,
    pub to: AccountId,
}

impl Transfer {
    pub fn new(from: AccountId, to: AccountId) -> (r: Transfer)
        ensures
            r.from == from,
            r.to == to,
    {
        Transfer { from, to }
    }

    /// Moves `unit` from `from` to `to`; refused, with nothing changed, where `from` holds
    /// less than it.
    pub fn transfer<U: TransferUnitT>(self, unit: U, ledger: &mut Ledger) -> (ok: bool)
        requires
            old(ledger).wf(),
        ensures
            final(ledger).wf(),
            ok == (unit.quantity() <= old(ledger)@[(self.from, unit.denom())]),
            ok ==> final(ledger)@ == moved(
                old(ledger)@,
                self.from,
                self.to,
                unit.denom(),
                unit.quantity() as nat,
            ),
            !ok ==> *final(ledger) == *old(ledger),
    {
        unit.transfer(ledger, self.from, self.to)
    }
}

} // verus!

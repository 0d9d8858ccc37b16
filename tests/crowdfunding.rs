use deip_investment_opportunity::asset::{Asset, FTokenT, GenericAssetT, Transfer, TransferUnitT};
use deip_investment_opportunity::crowdfunding::{
    correct_hard_cap, hard_cap_overflows, Contribution, Error, FundingModel, SimpleCrowdfundingStatus,
};
use deip_investment_opportunity::scheduler::{due_action, Action};
use deip_investment_opportunity::settlement::ContributionAccept;
use deip_investment_opportunity::escrow::{investment_account, same_id};
use deip_investment_opportunity::ledger::{Denom, Ledger};
use deip_investment_opportunity::platform::Platform;
use deip_investment_opportunity::prorata::{token_amount, TokenAmount};

const CREATOR: u64 = 1;
const ALICE: u64 = 2;
const BOB: u64 = 3;
const CAROL: u64 = 4;
const RAISE: u64 = 7;
const X: u64 = 100;
const Y: u64 = 101;
const ED: u64 = 5;

fn id(n: u8) -> [u8; 20] {
    [n; 20]
}

fn terms(start: u64, end: u64, soft: u64, hard: u64) -> FundingModel {
    FundingModel::SimpleCrowdfunding { start_time: start, end_time: end, soft_cap: soft, hard_cap: hard }
}

/// A platform where the creator holds 1000 of X and Y and some native currency, and each
/// investor holds 1000 of the raised asset.
fn funded_platform() -> Platform {
    let mut p = Platform::new(10, ED);
    assert!(p.deposit(CREATOR, Denom::Native, 50));
    assert!(p.deposit(CREATOR, Denom::Token(X), 1000));
    assert!(p.deposit(CREATOR, Denom::Token(Y), 1000));
    for who in [ALICE, BOB, CAROL] {
        assert!(p.deposit(who, Denom::Token(RAISE), 1000));
    }
    p
}

fn active_campaign(p: &mut Platform, n: u8, shares: Vec<Asset>, soft: u64, hard: u64) {
    assert_eq!(p.create_campaign(10, CREATOR, id(n), shares, RAISE, terms(20, 30, soft, hard)), Ok(()));
    assert_eq!(p.activate(20, &id(n)), Ok(()));
}

#[test]
fn escrow_account_is_derived_from_the_id() {
    assert_eq!(investment_account(&[0u8; 20]), 14479414637598914837);
    assert_eq!(investment_account(&[1u8; 20]), 11066506207095069737);
    let mut counting = [0u8; 20];
    for (i, b) in counting.iter_mut().enumerate() {
        *b = i as u8;
    }
    assert_eq!(investment_account(&counting), 14977343871442732609);
    assert_ne!(investment_account(&[0u8; 20]), investment_account(&[1u8; 20]));
}

#[test]
fn ids_compare_bytewise() {
    assert!(same_id(&id(3), &id(3)));
    let mut other = id(3);
    other[19] = 4;
    assert!(!same_id(&id(3), &other));
}

#[test]
fn pro_rata_rounds_down() {
    assert_eq!(token_amount(30, 100, 100), 30);
    assert_eq!(token_amount(33, 10, 100), 3);
    assert_eq!(token_amount(34, 10, 100), 3);
    assert_eq!(token_amount(0, 10, 0), 0);
    assert_eq!(TokenAmount::new(1, 7, 2).calc(), 3);
    assert_eq!(TokenAmount::new(5, 5, 0).calc(), 0);
    let big = TokenAmount::new(u64::MAX, u64::MAX, u64::MAX);
    assert_eq!(big.calc(), u64::MAX as u128);
    let wide = TokenAmount::new(u64::MAX, 4, 2);
    assert_eq!(wide.calc(), (u64::MAX as u128) * 2);
}

#[test]
fn ledger_transfer_moves_value() {
    let mut l = Ledger::new();
    assert!(l.deposit(1, Denom::Token(9), 10));
    assert!(!l.transfer(1, 2, Denom::Token(9), 11));
    assert!(l.transfer(1, 2, Denom::Token(9), 4));
    assert_eq!(l.balance(1, Denom::Token(9)), 6);
    assert_eq!(l.balance(2, Denom::Token(9)), 4);
    assert_eq!(l.total_supply(Denom::Token(9)), 10);
    assert!(!l.deposit(3, Denom::Token(9), u64::MAX));
    assert!(l.deposit(3, Denom::Native, u64::MAX));
}

#[test]
fn creation_locks_shares_in_escrow() {
    let mut p = funded_platform();
    let shares = vec![Asset::new(X, 100), Asset::new(Y, 40)];
    assert_eq!(p.create_campaign(10, CREATOR, id(1), shares, RAISE, terms(20, 30, 50, 100)), Ok(()));
    let escrow = investment_account(&id(1));
    assert_eq!(p.balance(escrow, Denom::Token(X)), 100);
    assert_eq!(p.balance(escrow, Denom::Token(Y)), 40);
    assert_eq!(p.balance(escrow, Denom::Native), ED);
    assert_eq!(p.balance(CREATOR, Denom::Token(X)), 900);
    assert_eq!(p.balance(CREATOR, Denom::Native), 50 - ED);
    let c = p.get_campaign(&id(1)).unwrap();
    assert_eq!(c.status, SimpleCrowdfundingStatus::Inactive);
    assert_eq!(c.account, escrow);
    assert_eq!(c.total_amount, 0);
    assert_eq!(c.shares.len(), 2);
}

#[test]
fn creation_rejects_bad_terms_without_change() {
    let mut p = funded_platform();
    let one = || vec![Asset::new(X, 100)];
    let cases: Vec<(Vec<Asset>, u64, FundingModel, Error)> = vec![
        (one(), RAISE, terms(5, 30, 50, 100), Error::StartTimeMustBeLaterOrEqualCurrentMoment),
        (one(), RAISE, terms(20, 20, 50, 100), Error::EndTimeMustBeLaterStartTime),
        (one(), RAISE, terms(20, 30, 0, 100), Error::SoftCapMustBeGreaterOrEqualMinimum),
        (one(), RAISE, terms(20, 30, 50, 40), Error::HardCapShouldBeGreaterOrEqualSoftCap),
        (vec![], RAISE, terms(20, 30, 50, 100), Error::SecurityTokenNotSpecified),
        (one(), X, terms(20, 30, 50, 100), Error::WrongAssetId),
        (vec![Asset::new(X, 0)], RAISE, terms(20, 30, 50, 100), Error::AssetAmountMustBePositive),
        (
            vec![Asset::new(X, 1), Asset::new(X, 2)],
            RAISE,
            terms(20, 30, 50, 100),
            Error::DuplicateAssetId,
        ),
        (vec![Asset::new(X, 1001)], RAISE, terms(20, 30, 50, 100), Error::BalanceIsNotEnough),
        (vec![Asset::new(X, 1); 11], RAISE, terms(20, 30, 50, 100), Error::TooMuchShares),
    ];
    for (shares, raise, model, err) in cases {
        assert_eq!(p.create_campaign(10, CREATOR, id(1), shares, raise, model), Err(err));
        assert!(p.get_campaign(&id(1)).is_none());
        assert_eq!(p.balance(CREATOR, Denom::Token(X)), 1000);
        assert_eq!(p.balance(CREATOR, Denom::Native), 50);
    }
}

#[test]
fn creation_needs_the_existential_deposit() {
    let mut p = Platform::new(10, ED);
    assert!(p.deposit(CREATOR, Denom::Native, ED - 1));
    assert!(p.deposit(CREATOR, Denom::Token(X), 1000));
    let r = p.create_campaign(10, CREATOR, id(1), vec![Asset::new(X, 1)], RAISE, terms(20, 30, 50, 100));
    assert_eq!(r, Err(Error::BalanceIsNotEnough));
    assert_eq!(p.balance(CREATOR, Denom::Token(X)), 1000);
}

#[test]
fn creation_refuses_a_taken_id() {
    let mut p = funded_platform();
    let shares = vec![Asset::new(X, 10)];
    assert_eq!(p.create_campaign(10, CREATOR, id(1), shares.clone(), RAISE, terms(20, 30, 5, 10)), Ok(()));
    assert_eq!(
        p.create_campaign(10, CREATOR, id(1), shares, RAISE, terms(20, 30, 5, 10)),
        Err(Error::AlreadyExists)
    );
}

#[test]
fn activation_waits_for_the_start() {
    let mut p = funded_platform();
    let shares = vec![Asset::new(X, 10)];
    assert_eq!(p.create_campaign(10, CREATOR, id(1), shares, RAISE, terms(20, 30, 5, 10)), Ok(()));
    assert_eq!(p.activate(19, &id(1)), Err(Error::ShouldBeStarted));
    assert_eq!(p.activate(20, &id(1)), Ok(()));
    assert_eq!(p.get_campaign(&id(1)).unwrap().status, SimpleCrowdfundingStatus::Active);
    assert_eq!(p.activate(21, &id(1)), Ok(()));
    assert_eq!(p.activate(21, &id(2)), Err(Error::NotFound));
}

#[test]
fn investing_checks_campaign_state() {
    let mut p = funded_platform();
    let shares = vec![Asset::new(X, 10)];
    assert_eq!(p.create_campaign(10, CREATOR, id(1), shares, RAISE, terms(20, 30, 50, 5000)), Ok(()));
    assert_eq!(p.invest(15, ALICE, &id(2), Asset::new(RAISE, 5)), Err(Error::InvestingNotFound));
    assert_eq!(p.invest(15, ALICE, &id(1), Asset::new(RAISE, 5)), Err(Error::InvestingNotActive));
    assert_eq!(p.activate(20, &id(1)), Ok(()));
    assert_eq!(p.invest(21, ALICE, &id(1), Asset::new(X, 5)), Err(Error::InvestingWrongAsset));
    assert_eq!(p.invest(21, ALICE, &id(1), Asset::new(RAISE, 1001)), Err(Error::InvestingNotEnoughFunds));
    let escrow = investment_account(&id(1));
    assert_eq!(p.invest(21, escrow, &id(1), Asset::new(RAISE, 1)), Err(Error::InvestingFromEscrow));
    assert_eq!(p.balance(ALICE, Denom::Token(RAISE)), 1000);
}

#[test]
fn repeated_investments_accumulate() {
    let mut p = funded_platform();
    active_campaign(&mut p, 1, vec![Asset::new(X, 100)], 50, 100);
    assert_eq!(p.invest(21, BOB, &id(1), Asset::new(RAISE, 10)), Ok(()));
    assert_eq!(p.invest(22, ALICE, &id(1), Asset::new(RAISE, 5)), Ok(()));
    assert_eq!(p.invest(23, BOB, &id(1), Asset::new(RAISE, 7)), Ok(()));
    let c = p.get_contribution(&id(1), BOB).unwrap();
    assert_eq!(c.amount, 17);
    assert_eq!(c.time, 21);
    assert_eq!(p.get_contribution(&id(1), ALICE).unwrap().amount, 5);
    assert!(p.get_contribution(&id(1), CAROL).is_none());
    assert_eq!(p.get_campaign(&id(1)).unwrap().total_amount, 22);
    assert_eq!(p.holds(BOB), 1);
    assert_eq!(p.holds(CAROL), 0);
    assert_eq!(p.balance(investment_account(&id(1)), Denom::Token(RAISE)), 22);
}

#[test]
fn investment_is_clamped_at_the_hard_cap() {
    let mut p = funded_platform();
    active_campaign(&mut p, 1, vec![Asset::new(X, 100)], 50, 100);
    assert_eq!(p.invest(21, ALICE, &id(1), Asset::new(RAISE, 60)), Ok(()));
    assert_eq!(p.invest(22, BOB, &id(1), Asset::new(RAISE, 70)), Ok(()));
    // Bob paid only what was left below the cap, and the campaign finished at once.
    assert_eq!(p.balance(BOB, Denom::Token(RAISE)), 960);
    assert!(p.get_campaign(&id(1)).is_none());
    assert_eq!(p.balance(ALICE, Denom::Token(X)), 60);
    assert_eq!(p.balance(BOB, Denom::Token(X)), 40);
    assert_eq!(p.balance(CREATOR, Denom::Token(RAISE)), 100);
    assert_eq!(p.holds(ALICE), 0);
}

#[test]
fn pro_rata_settlement_without_remainder() {
    let mut p = funded_platform();
    active_campaign(&mut p, 1, vec![Asset::new(X, 100)], 100, 100);
    assert_eq!(p.invest(21, ALICE, &id(1), Asset::new(RAISE, 30)), Ok(()));
    assert_eq!(p.invest(22, BOB, &id(1), Asset::new(RAISE, 70)), Ok(()));
    assert_eq!(p.balance(ALICE, Denom::Token(X)), 30);
    assert_eq!(p.balance(BOB, Denom::Token(X)), 70);
    assert_eq!(p.balance(CREATOR, Denom::Token(X)), 900);
    assert_eq!(p.balance(investment_account(&id(1)), Denom::Token(X)), 0);
}

#[test]
fn pro_rata_settlement_of_three_even_parts() {
    let mut p = funded_platform();
    active_campaign(&mut p, 1, vec![Asset::new(X, 100)], 100, 100);
    assert_eq!(p.invest(21, ALICE, &id(1), Asset::new(RAISE, 33)), Ok(()));
    assert_eq!(p.invest(21, BOB, &id(1), Asset::new(RAISE, 33)), Ok(()));
    assert_eq!(p.invest(21, CAROL, &id(1), Asset::new(RAISE, 34)), Ok(()));
    let given = p.balance(ALICE, Denom::Token(X)) + p.balance(BOB, Denom::Token(X))
        + p.balance(CAROL, Denom::Token(X));
    assert!(given <= 100);
    assert_eq!(given + p.balance(CREATOR, Denom::Token(X)), 1000);
}

#[test]
fn truncation_remainder_returns_to_creator() {
    let mut p = funded_platform();
    active_campaign(&mut p, 1, vec![Asset::new(X, 10)], 100, 100);
    assert_eq!(p.invest(21, ALICE, &id(1), Asset::new(RAISE, 33)), Ok(()));
    assert_eq!(p.invest(21, BOB, &id(1), Asset::new(RAISE, 33)), Ok(()));
    assert_eq!(p.invest(21, CAROL, &id(1), Asset::new(RAISE, 34)), Ok(()));
    assert_eq!(p.balance(ALICE, Denom::Token(X)), 3);
    assert_eq!(p.balance(BOB, Denom::Token(X)), 3);
    assert_eq!(p.balance(CAROL, Denom::Token(X)), 3);
    assert_eq!(p.balance(CREATOR, Denom::Token(X)), 991);
    assert_eq!(p.balance(investment_account(&id(1)), Denom::Token(X)), 0);
}

#[test]
fn expiry_refunds_everyone() {
    let mut p = funded_platform();
    active_campaign(&mut p, 1, vec![Asset::new(X, 100), Asset::new(Y, 50)], 80, 100);
    assert_eq!(p.invest(21, ALICE, &id(1), Asset::new(RAISE, 30)), Ok(()));
    assert_eq!(p.invest(22, BOB, &id(1), Asset::new(RAISE, 20)), Ok(()));
    assert_eq!(p.expire(29, &id(1)), Err(Error::ExpirationWrongState));
    assert_eq!(p.finish(&id(1)), Err(Error::SoftCapNotReached));
    assert_eq!(p.expire(30, &id(1)), Ok(()));
    assert_eq!(p.balance(ALICE, Denom::Token(RAISE)), 1000);
    assert_eq!(p.balance(BOB, Denom::Token(RAISE)), 1000);
    assert_eq!(p.balance(CREATOR, Denom::Token(X)), 1000);
    assert_eq!(p.balance(CREATOR, Denom::Token(Y)), 1000);
    assert_eq!(p.balance(CREATOR, Denom::Native), 50);
    assert!(p.get_campaign(&id(1)).is_none());
    assert!(p.get_contribution(&id(1), ALICE).is_none());
    assert_eq!(p.holds(ALICE), 0);
}

#[test]
fn escrow_is_empty_after_settlement() {
    let mut p = funded_platform();
    active_campaign(&mut p, 1, vec![Asset::new(X, 100), Asset::new(Y, 50)], 40, 100);
    assert_eq!(p.invest(21, ALICE, &id(1), Asset::new(RAISE, 30)), Ok(()));
    assert_eq!(p.invest(22, BOB, &id(1), Asset::new(RAISE, 20)), Ok(()));
    assert_eq!(p.finish(&id(1)), Ok(()));
    let escrow = investment_account(&id(1));
    for d in [Denom::Native, Denom::Token(RAISE), Denom::Token(X), Denom::Token(Y)] {
        assert_eq!(p.balance(escrow, d), 0);
    }
    assert_eq!(p.balance(ALICE, Denom::Token(X)), 60);
    assert_eq!(p.balance(BOB, Denom::Token(X)), 40);
    assert_eq!(p.balance(ALICE, Denom::Token(Y)), 30);
    assert_eq!(p.balance(BOB, Denom::Token(Y)), 20);
    assert_eq!(p.balance(CREATOR, Denom::Token(RAISE)), 50);
    assert_eq!(p.balance(CREATOR, Denom::Native), 50);
}

#[test]
fn settling_twice_is_refused() {
    let mut p = funded_platform();
    active_campaign(&mut p, 1, vec![Asset::new(X, 100)], 80, 100);
    assert_eq!(p.invest(21, ALICE, &id(1), Asset::new(RAISE, 30)), Ok(()));
    assert_eq!(p.expire(30, &id(1)), Ok(()));
    assert_eq!(p.expire(30, &id(1)), Err(Error::NotFound));
    assert_eq!(p.finish(&id(1)), Err(Error::NotFound));
    assert_eq!(p.balance(ALICE, Denom::Token(RAISE)), 1000);
    assert_eq!(p.balance(CREATOR, Denom::Token(X)), 1000);
}

#[test]
fn settlement_needs_an_active_campaign() {
    let mut p = funded_platform();
    let shares = vec![Asset::new(X, 10)];
    assert_eq!(p.create_campaign(10, CREATOR, id(1), shares, RAISE, terms(20, 30, 5, 10)), Ok(()));
    assert_eq!(p.expire(40, &id(1)), Err(Error::ShouldBeActive));
    assert_eq!(p.finish(&id(1)), Err(Error::ShouldBeActive));
}

#[test]
fn scheduler_drives_time_based_transitions() {
    let mut p = funded_platform();
    let shares = vec![Asset::new(X, 10)];
    assert_eq!(p.create_campaign(10, CREATOR, id(1), shares.clone(), RAISE, terms(20, 30, 5, 10)), Ok(()));
    assert_eq!(p.create_campaign(10, CREATOR, id(2), vec![Asset::new(Y, 10)], RAISE, terms(20, 30, 50, 100)), Ok(()));
    assert_eq!(p.tick(15), vec![]);
    assert_eq!(p.tick(20), vec![(id(1), Action::Activate), (id(2), Action::Activate)]);
    assert_eq!(p.invest(21, ALICE, &id(1), Asset::new(RAISE, 6)), Ok(()));
    assert_eq!(p.invest(21, BOB, &id(2), Asset::new(RAISE, 6)), Ok(()));
    assert_eq!(p.tick(30), vec![(id(1), Action::Finish), (id(2), Action::Expire)]);
    assert_eq!(p.count(), 0);
    assert_eq!(p.balance(ALICE, Denom::Token(X)), 10);
    assert_eq!(p.balance(BOB, Denom::Token(RAISE)), 1000);
    assert_eq!(p.tick(31), vec![]);
}

#[test]
fn status_defaults_to_inactive() {
    assert_eq!(SimpleCrowdfundingStatus::default(), SimpleCrowdfundingStatus::Inactive);
}

#[test]
fn contribution_accept_tracks_what_remains() {
    let mut p = funded_platform();
    let shares = vec![Asset::new(X, 10)];
    assert_eq!(p.create_campaign(10, CREATOR, id(1), shares, RAISE, terms(20, 30, 5, 100)), Ok(()));
    let sale = p.get_campaign(&id(1)).unwrap();
    let accept = ContributionAccept::new(&sale);
    assert_eq!(accept.sale_amount, 0);
    assert_eq!(accept.account, investment_account(&id(1)));
    let t = accept.token_amount(
        &Contribution { sale_id: id(1), owner: ALICE, amount: 0, time: 0 },
        &Asset::new(X, 10),
    );
    assert_eq!((t.investment_amount, t.share_amount, t.sale_amount), (0, 10, 0));

    let mut ledger = Ledger::new();
    let escrow = 50;
    assert!(ledger.deposit(escrow, Denom::Token(X), 10));
    let accept = ContributionAccept { sale_amount: 100, account: escrow };
    let share = Asset::new(X, 10);
    let a = Contribution { sale_id: id(1), owner: ALICE, amount: 33, time: 0 };
    let b = Contribution { sale_id: id(1), owner: BOB, amount: 67, time: 0 };
    let remains = accept.accept(&mut ledger, &a, &share, 10);
    assert_eq!(remains, 7);
    let remains = accept.accept(&mut ledger, &b, &share, remains);
    assert_eq!(remains, 1);
    assert_eq!(ledger.balance(ALICE, Denom::Token(X)), 3);
    assert_eq!(ledger.balance(BOB, Denom::Token(X)), 6);
    assert_eq!(ledger.balance(escrow, Denom::Token(X)), 1);
}

#[test]
fn transfer_units_move_through_the_ledger() {
    let mut ledger = Ledger::new();
    assert!(ledger.deposit(ALICE, Denom::Token(X), 10));
    let whole = <Asset as FTokenT>::balance(X, &ledger, ALICE);
    assert_eq!(*GenericAssetT::id(&whole), X);
    assert_eq!(*whole.payload(), 10);
    let part = <Asset as GenericAssetT>::new(X, 4);
    assert!(Transfer::new(ALICE, BOB).transfer(part, &mut ledger));
    assert!(!Asset::new(X, 7).transfer(&mut ledger, ALICE, BOB));
    assert!(Asset::new(X, 6).transfer(&mut ledger, ALICE, BOB));
    assert_eq!(ledger.balance(ALICE, Denom::Token(X)), 0);
    assert_eq!(ledger.balance(BOB, Denom::Token(X)), 10);
    assert_eq!(*Asset::new(Y, 3).amount(), 3);
    assert_eq!(*Asset::new(Y, 3).id(), Y);
}

#[test]
fn hard_cap_helpers_clamp_the_offer() {
    let mut p = funded_platform();
    active_campaign(&mut p, 1, vec![Asset::new(X, 10)], 50, 100);
    assert_eq!(p.invest(21, ALICE, &id(1), Asset::new(RAISE, 40)), Ok(()));
    let sale = p.get_campaign(&id(1)).unwrap();
    assert!(!hard_cap_overflows(&sale, 59));
    assert!(hard_cap_overflows(&sale, 60));
    assert!(hard_cap_overflows(&sale, u64::MAX));
    assert_eq!(correct_hard_cap(&sale, 59), 59);
    assert_eq!(correct_hard_cap(&sale, 61), 60);
    assert_eq!(correct_hard_cap(&sale, u64::MAX), 60);
    assert_eq!(sale.fund(5), Asset::new(RAISE, 5));
    assert_eq!(sale.status(), SimpleCrowdfundingStatus::Active);
    assert_eq!(*sale.id(), id(1));
}

#[test]
fn due_actions_follow_the_clock() {
    let mut p = funded_platform();
    let shares = vec![Asset::new(X, 10)];
    assert_eq!(p.create_campaign(10, CREATOR, id(1), shares, RAISE, terms(20, 30, 5, 10)), Ok(()));
    let pending = p.campaign_at(0);
    assert_eq!(due_action(&pending, 19), None);
    assert_eq!(due_action(&pending, 20), Some(Action::Activate));
    assert_eq!(due_action(&pending, 35), Some(Action::Activate));
    assert_eq!(p.activate(20, &id(1)), Ok(()));
    let active = p.campaign_at(0);
    assert_eq!(due_action(&active, 29), None);
    assert_eq!(due_action(&active, 30), Some(Action::Expire));
    assert_eq!(p.invest(21, ALICE, &id(1), Asset::new(RAISE, 5)), Ok(()));
    assert_eq!(due_action(&p.campaign_at(0), 30), Some(Action::Finish));
    assert_eq!(p.due_transitions(30), vec![(id(1), Action::Finish)]);
    assert_eq!(p.apply_action(30, &id(1), Action::Expire), Err(Error::ExpirationWrongState));
    assert_eq!(p.apply_action(30, &id(1), Action::Finish), Ok(()));
}

#[test]
fn escrow_collisions_are_refused() {
    let mut p = funded_platform();
    let escrow = investment_account(&id(1));
    assert!(p.deposit(escrow, Denom::Native, 50));
    assert!(p.deposit(escrow, Denom::Token(X), 50));
    let r = p.create_campaign(10, escrow, id(1), vec![Asset::new(X, 1)], RAISE, terms(20, 30, 5, 10));
    assert_eq!(r, Err(Error::EscrowAccountInUse));
    assert_eq!(p.create_campaign(10, CREATOR, id(1), vec![Asset::new(X, 1)], RAISE, terms(20, 30, 5, 10)), Ok(()));
    let r = p.create_campaign(10, escrow, id(2), vec![Asset::new(X, 1)], RAISE, terms(20, 30, 5, 10));
    assert_eq!(r, Err(Error::EscrowAccountInUse));
}

#[test]
fn deposits_respect_the_supply_bound() {
    let mut p = Platform::new(1, 0);
    assert!(p.deposit(ALICE, Denom::Token(X), u64::MAX - 1));
    assert!(!p.deposit(BOB, Denom::Token(X), 2));
    assert!(p.deposit(BOB, Denom::Token(X), 1));
    assert_eq!(p.balance(BOB, Denom::Token(X)), 1);
    assert_eq!(p.balance(CAROL, Denom::Token(X)), 0);
}

#[test]
fn share_errors_follow_list_order() {
    let mut p = funded_platform();
    let shares = vec![Asset::new(X, 0), Asset::new(RAISE, 5)];
    assert_eq!(
        p.create_campaign(10, CREATOR, id(1), shares, RAISE, terms(20, 30, 5, 10)),
        Err(Error::AssetAmountMustBePositive)
    );
    let shares = vec![Asset::new(RAISE, 5), Asset::new(X, 0)];
    assert_eq!(
        p.create_campaign(10, CREATOR, id(1), shares, RAISE, terms(20, 30, 5, 10)),
        Err(Error::WrongAssetId)
    );
    let shares = vec![Asset::new(X, 5), Asset::new(Y, 0), Asset::new(RAISE, 1)];
    assert_eq!(
        p.create_campaign(10, CREATOR, id(1), shares, RAISE, terms(20, 30, 5, 10)),
        Err(Error::AssetAmountMustBePositive)
    );
    assert!(p.get_campaign(&id(1)).is_none());
}

#[test]
fn tick_carries_out_what_is_due() {
    let mut p = funded_platform();
    active_campaign(&mut p, 1, vec![Asset::new(X, 10)], 5, 10);
    assert_eq!(p.create_campaign(10, CREATOR, id(2), vec![Asset::new(Y, 10)], RAISE, terms(25, 40, 5, 10)), Ok(()));
    assert_eq!(p.invest(21, ALICE, &id(1), Asset::new(RAISE, 3)), Ok(()));
    assert_eq!(p.tick(30), vec![(id(1), Action::Expire), (id(2), Action::Activate)]);
    assert!(p.get_campaign(&id(1)).is_none());
    assert_eq!(p.get_campaign(&id(2)).unwrap().status, SimpleCrowdfundingStatus::Active);
    assert_eq!(p.balance(ALICE, Denom::Token(RAISE)), 1000);
}

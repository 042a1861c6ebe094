use escrow_core::amm::{initialize, Config, Initialize, InitializeBumps};
use escrow_core::errors::EscrowError;
use escrow_core::escrow::{fund, World};
use escrow_core::ledger::{Holder, Ledger};
use escrow_core::settlement::{split, Purchase};

const SOL: u64 = 0;

#[test]
fn split_exact_values() {
    assert_eq!(split(10000, 250), Ok((250, 9750)));
    assert_eq!(split(0, 250), Ok((0, 0)));
    assert_eq!(split(7, 9999), Ok((6, 1)));
    assert_eq!(split(u64::MAX, 10000), Ok((u64::MAX, 0)));
    assert_eq!(split(1_000_000, 1), Ok((100, 999_900)));
    // The fee rounds down.
    assert_eq!(split(9999, 1), Ok((0, 9999)));
}

#[test]
fn split_sums_to_price() {
    let prices = [0u64, 1, 9999, 10000, 123_456_789, u64::MAX];
    let rates = [0u16, 1, 250, 9999, 10000];
    for &p in prices.iter() {
        for &r in rates.iter() {
            let (fee, proceeds) = split(p, r).unwrap();
            assert_eq!(fee as u128 + proceeds as u128, p as u128);
            assert_eq!(fee as u128, p as u128 * r as u128 / 10000);
        }
    }
}

#[test]
fn split_never_wraps() {
    // A rate above 10000 bps can push the fee past the price or past the
    // representable range; both fail with a named arithmetic error.
    assert_eq!(split(10, 20000), Err(EscrowError::ArithmeticUnderflow));
    assert_eq!(split(u64::MAX, 20000), Err(EscrowError::ArithmeticOverflow));
}

#[test]
fn purchase_pays_maker_and_treasury_atomically() {
    let mut ledger = Ledger::new();
    ledger.credit(Holder::User(3), SOL, 10000).unwrap();
    let p = Purchase { taker: 3, maker: 4, treasury: 5, price: 10000, fee: 250, pay_asset: SOL };
    p.send_sol(&mut ledger).unwrap();
    assert_eq!(ledger.balance(Holder::User(5), SOL), 250);
    assert_eq!(ledger.balance(Holder::User(4), SOL), 9750);
    assert_eq!(ledger.balance(Holder::User(3), SOL), 0);
}

#[test]
fn purchase_without_funds_changes_nothing() {
    let mut ledger = Ledger::new();
    ledger.credit(Holder::User(3), SOL, 9999).unwrap();
    let p = Purchase { taker: 3, maker: 4, treasury: 5, price: 10000, fee: 250, pay_asset: SOL };
    assert_eq!(p.send_sol(&mut ledger), Err(EscrowError::InsufficientFunds));
    assert_eq!(ledger.balance(Holder::User(3), SOL), 9999);
    assert_eq!(ledger.balance(Holder::User(4), SOL), 0);
    assert_eq!(ledger.balance(Holder::User(5), SOL), 0);
}

#[test]
fn purchase_with_bad_rate_reports_split_error() {
    let mut ledger = Ledger::new();
    ledger.credit(Holder::User(3), SOL, 10000).unwrap();
    let p = Purchase { taker: 3, maker: 4, treasury: 5, price: 10000, fee: 10001, pay_asset: SOL };
    assert_eq!(p.send_sol(&mut ledger), Err(EscrowError::ArithmeticUnderflow));
    assert_eq!(ledger.balance(Holder::User(3), SOL), 10000);
}

#[test]
fn transfer_is_exact_and_supply_neutral() {
    let mut ledger = Ledger::new();
    ledger.credit(Holder::User(1), 7, 100).unwrap();
    ledger.transfer(Holder::User(1), Holder::User(2), 7, 40).unwrap();
    assert_eq!(ledger.balance(Holder::User(1), 7), 60);
    assert_eq!(ledger.balance(Holder::User(2), 7), 40);
    assert_eq!(
        ledger.transfer(Holder::User(1), Holder::User(2), 7, 61),
        Err(EscrowError::InsufficientFunds)
    );
    ledger.credit(Holder::User(2), 7, u64::MAX - 40).unwrap();
    assert_eq!(
        ledger.transfer(Holder::User(1), Holder::User(2), 7, 1),
        Err(EscrowError::ArithmeticOverflow)
    );
    assert_eq!(ledger.balance(Holder::User(1), 7), 60);
}

#[test]
fn debit_below_balance_is_insufficient() {
    let mut ledger = Ledger::new();
    assert_eq!(ledger.debit(Holder::User(1), 7, 1), Err(EscrowError::InsufficientFunds));
    ledger.credit(Holder::User(1), 7, 5).unwrap();
    ledger.debit(Holder::User(1), 7, 5).unwrap();
    assert_eq!(ledger.balance(Holder::User(1), 7), 0);
}

#[test]
fn initialize_fills_config() {
    let mut accounts = Initialize { mint_x: 11, mint_y: 22, config: None };
    let bumps = InitializeBumps { config: 254, mint_lp: 251 };
    initialize(&mut accounts, 9, 30, Some(77), &bumps).unwrap();
    assert_eq!(
        accounts.config,
        Some(Config {
            seed: 9,
            authority: Some(77),
            mint_x: 11,
            mint_y: 22,
            fee: 30,
            locked: false,
            config_bump: 254,
            lp_bump: 251,
        })
    );
}

#[test]
fn initialize_without_authority() {
    let mut accounts = Initialize { mint_x: 1, mint_y: 2, config: None };
    let bumps = InitializeBumps { config: 200, mint_lp: 100 };
    accounts.initialize(0, 0, None, &bumps).unwrap();
    let c = accounts.config.unwrap();
    assert_eq!(c.authority, None);
    assert!(!c.locked);
    assert_eq!(c.fee, 0);
}

#[test]
fn world_fund_is_the_only_supply_change() {
    let mut w = World::new(vec![9u8; 32]);
    fund(&mut w, 1, 7, 123).unwrap();
    assert_eq!(w.balance(1, 7), 123);
    assert_eq!(w.balance(1, 8), 0);
    assert_eq!(w.balance(2, 7), 0);
}

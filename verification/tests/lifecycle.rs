use escrow_core::errors::EscrowError;
use escrow_core::escrow::{fund, make, refund, take, World};
use escrow_core::pda::derive_address;
use escrow_core::escrow::{escrow_tag_vec, vault_tag_vec};

const ASSET_X: u64 = 10;
const ASSET_Y: u64 = 20;
const MAKER: u64 = 1;
const TAKER: u64 = 2;

fn program_id() -> Vec<u8> {
    let mut v = Vec::new();
    let mut i: u8 = 0;
    while v.len() < 32 {
        v.push(i);
        i = i.wrapping_add(7);
    }
    v
}

fn world_with_standard_setup() -> World {
    let mut w = World::new(program_id());
    fund(&mut w, MAKER, ASSET_X, 1000).unwrap();
    fund(&mut w, TAKER, ASSET_Y, 500).unwrap();
    w
}

#[test]
fn scenario_take_settles_both_sides() {
    let mut w = world_with_standard_setup();
    make(&mut w, MAKER, 1, ASSET_X, ASSET_Y, 500, 1000).unwrap();
    assert_eq!(w.balance(MAKER, ASSET_X), 0);
    assert_eq!(w.vault_balance(MAKER, 1, ASSET_X), 1000);
    assert!(w.escrow_exists(MAKER, 1));

    take(&mut w, TAKER, MAKER, 1).unwrap();
    assert_eq!(w.balance(MAKER, ASSET_Y), 500);
    assert_eq!(w.balance(TAKER, ASSET_X), 1000);
    assert_eq!(w.balance(TAKER, ASSET_Y), 0);
    assert_eq!(w.vault_balance(MAKER, 1, ASSET_X), 0);
    assert_eq!(w.vault_balance(MAKER, 1, ASSET_Y), 0);
    assert!(!w.escrow_exists(MAKER, 1));
}

#[test]
fn scenario_refund_returns_deposit() {
    let mut w = world_with_standard_setup();
    make(&mut w, MAKER, 1, ASSET_X, ASSET_Y, 500, 1000).unwrap();
    refund(&mut w, MAKER, MAKER, 1).unwrap();
    assert_eq!(w.balance(MAKER, ASSET_X), 1000);
    assert_eq!(w.vault_balance(MAKER, 1, ASSET_X), 0);
    assert!(!w.escrow_exists(MAKER, 1));

    assert_eq!(take(&mut w, TAKER, MAKER, 1), Err(EscrowError::NotFound));
    assert_eq!(w.balance(TAKER, ASSET_Y), 500);
}

#[test]
fn conservation_of_supply() {
    let mut w = world_with_standard_setup();
    make(&mut w, MAKER, 1, ASSET_X, ASSET_Y, 500, 1000).unwrap();
    take(&mut w, TAKER, MAKER, 1).unwrap();
    let x_total = w.balance(MAKER, ASSET_X) as u128
        + w.balance(TAKER, ASSET_X) as u128
        + w.vault_balance(MAKER, 1, ASSET_X) as u128;
    let y_total = w.balance(MAKER, ASSET_Y) as u128
        + w.balance(TAKER, ASSET_Y) as u128
        + w.vault_balance(MAKER, 1, ASSET_Y) as u128;
    assert_eq!(x_total, 1000);
    assert_eq!(y_total, 500);
}

#[test]
fn take_then_refund_fails_not_found() {
    let mut w = world_with_standard_setup();
    make(&mut w, MAKER, 1, ASSET_X, ASSET_Y, 500, 1000).unwrap();
    take(&mut w, TAKER, MAKER, 1).unwrap();
    assert_eq!(refund(&mut w, MAKER, MAKER, 1), Err(EscrowError::NotFound));
    assert_eq!(take(&mut w, TAKER, MAKER, 1), Err(EscrowError::NotFound));
}

#[test]
fn refund_by_non_maker_is_unauthorized() {
    let mut w = world_with_standard_setup();
    make(&mut w, MAKER, 1, ASSET_X, ASSET_Y, 500, 1000).unwrap();
    assert_eq!(refund(&mut w, TAKER, MAKER, 1), Err(EscrowError::Unauthorized));
    assert!(w.escrow_exists(MAKER, 1));
    assert_eq!(w.vault_balance(MAKER, 1, ASSET_X), 1000);
}

#[test]
fn make_on_occupied_address_already_exists() {
    let mut w = world_with_standard_setup();
    make(&mut w, MAKER, 1, ASSET_X, ASSET_Y, 500, 400).unwrap();
    assert_eq!(
        make(&mut w, MAKER, 1, ASSET_X, ASSET_Y, 9, 9),
        Err(EscrowError::AlreadyExists)
    );
    assert_eq!(w.vault_balance(MAKER, 1, ASSET_X), 400);
    // A different seed derives a different address, so a second escrow opens.
    make(&mut w, MAKER, 2, ASSET_X, ASSET_Y, 500, 600).unwrap();
    assert_eq!(w.vault_balance(MAKER, 2, ASSET_X), 600);
}

#[test]
fn make_without_funds_is_insufficient() {
    let mut w = world_with_standard_setup();
    assert_eq!(
        make(&mut w, MAKER, 1, ASSET_X, ASSET_Y, 500, 1001),
        Err(EscrowError::InsufficientFunds)
    );
    assert!(!w.escrow_exists(MAKER, 1));
    assert_eq!(w.balance(MAKER, ASSET_X), 1000);
}

#[test]
fn take_without_funds_is_insufficient() {
    let mut w = world_with_standard_setup();
    make(&mut w, MAKER, 1, ASSET_X, ASSET_Y, 501, 1000).unwrap();
    assert_eq!(take(&mut w, TAKER, MAKER, 1), Err(EscrowError::InsufficientFunds));
    assert!(w.escrow_exists(MAKER, 1));
    assert_eq!(w.vault_balance(MAKER, 1, ASSET_X), 1000);
    assert_eq!(w.balance(TAKER, ASSET_Y), 500);
}

#[test]
fn take_overflowing_taker_balance_fails_cleanly() {
    let mut w = world_with_standard_setup();
    fund(&mut w, TAKER, ASSET_X, u64::MAX).unwrap();
    make(&mut w, MAKER, 1, ASSET_X, ASSET_Y, 500, 1000).unwrap();
    assert_eq!(take(&mut w, TAKER, MAKER, 1), Err(EscrowError::ArithmeticOverflow));
    assert!(w.escrow_exists(MAKER, 1));
    assert_eq!(w.vault_balance(MAKER, 1, ASSET_X), 1000);
    assert_eq!(w.balance(TAKER, ASSET_X), u64::MAX);
    assert_eq!(w.balance(TAKER, ASSET_Y), 500);
    assert_eq!(w.balance(MAKER, ASSET_Y), 0);
}

#[test]
fn fund_overflow_is_checked() {
    let mut w = World::new(program_id());
    fund(&mut w, MAKER, ASSET_X, u64::MAX).unwrap();
    assert_eq!(fund(&mut w, MAKER, ASSET_X, 1), Err(EscrowError::ArithmeticOverflow));
    assert_eq!(w.balance(MAKER, ASSET_X), u64::MAX);
}

#[test]
fn escrow_record_fields_and_salt() {
    let mut w = world_with_standard_setup();
    make(&mut w, MAKER, 1, ASSET_X, ASSET_Y, 500, 1000).unwrap();
    let e = w.get_escrow(MAKER, 1).unwrap();
    assert_eq!(e.seed, 1);
    assert_eq!(e.maker, MAKER);
    assert_eq!(e.mint_a, ASSET_X);
    assert_eq!(e.mint_b, ASSET_Y);
    assert_eq!(e.receive_amount, 500);
    let (_, bump) = derive_address(escrow_tag_vec(), MAKER, 1, &program_id()).unwrap();
    assert_eq!(e.bump, bump);
    assert_eq!(w.get_escrow(MAKER, 2), None);
}

#[test]
fn derived_addresses_are_deterministic_and_distinct() {
    let pid = program_id();
    let (addr1, bump1) = derive_address(escrow_tag_vec(), MAKER, 1, &pid).unwrap();
    let (addr1b, bump1b) = derive_address(escrow_tag_vec(), MAKER, 1, &pid).unwrap();
    assert_eq!(addr1, addr1b);
    assert_eq!(bump1, bump1b);
    assert_eq!(addr1.len(), 32);
    let (addr2, _) = derive_address(escrow_tag_vec(), MAKER, 2, &pid).unwrap();
    assert_ne!(addr1, addr2);
    let (addr3, _) = derive_address(escrow_tag_vec(), TAKER, 1, &pid).unwrap();
    assert_ne!(addr1, addr3);
    // The address is a digest of the seeds, not any seed handed back.
    assert_ne!(addr1, escrow_tag_vec());
}

#[test]
fn escrow_and_vault_addresses_derive_from_the_same_seed() {
    let pid = program_id();
    let (escrow_addr, _) = derive_address(escrow_tag_vec(), MAKER, 1, &pid).unwrap();
    let (vault_addr, _) = derive_address(vault_tag_vec(), MAKER, 1, &pid).unwrap();
    assert_eq!(escrow_addr.len(), 32);
    assert_eq!(vault_addr.len(), 32);
    assert_ne!(escrow_addr, vault_addr);
    // Re-derivation from the recorded maker and seed finds the same pair.
    let (escrow_again, _) = derive_address(escrow_tag_vec(), MAKER, 1, &pid).unwrap();
    let (vault_again, _) = derive_address(vault_tag_vec(), MAKER, 1, &pid).unwrap();
    assert_eq!(escrow_addr, escrow_again);
    assert_eq!(vault_addr, vault_again);
}

#[test]
fn take_overflowing_maker_balance_fails_cleanly() {
    let mut w = world_with_standard_setup();
    fund(&mut w, MAKER, ASSET_Y, u64::MAX).unwrap();
    make(&mut w, MAKER, 1, ASSET_X, ASSET_Y, 500, 1000).unwrap();
    assert_eq!(take(&mut w, TAKER, MAKER, 1), Err(EscrowError::ArithmeticOverflow));
    assert!(w.escrow_exists(MAKER, 1));
    assert_eq!(w.balance(MAKER, ASSET_Y), u64::MAX);
    assert_eq!(w.balance(TAKER, ASSET_Y), 500);
}

#[test]
fn refund_overflowing_maker_balance_fails_cleanly() {
    let mut w = world_with_standard_setup();
    make(&mut w, MAKER, 1, ASSET_X, ASSET_Y, 500, 1000).unwrap();
    fund(&mut w, MAKER, ASSET_X, u64::MAX).unwrap();
    assert_eq!(refund(&mut w, MAKER, MAKER, 1), Err(EscrowError::ArithmeticOverflow));
    assert!(w.escrow_exists(MAKER, 1));
    assert_eq!(w.vault_balance(MAKER, 1, ASSET_X), 1000);
}

#[test]
fn same_asset_escrow_settles() {
    let mut w = World::new(program_id());
    fund(&mut w, MAKER, ASSET_X, 100).unwrap();
    fund(&mut w, TAKER, ASSET_X, 40).unwrap();
    make(&mut w, MAKER, 1, ASSET_X, ASSET_X, 40, 100).unwrap();
    take(&mut w, TAKER, MAKER, 1).unwrap();
    assert_eq!(w.balance(MAKER, ASSET_X), 40);
    assert_eq!(w.balance(TAKER, ASSET_X), 100);
    assert_eq!(w.vault_balance(MAKER, 1, ASSET_X), 0);
}

#[test]
fn self_take_by_maker_settles() {
    let mut w = World::new(program_id());
    fund(&mut w, MAKER, ASSET_X, 1000).unwrap();
    fund(&mut w, MAKER, ASSET_Y, 500).unwrap();
    make(&mut w, MAKER, 1, ASSET_X, ASSET_Y, 500, 1000).unwrap();
    take(&mut w, MAKER, MAKER, 1).unwrap();
    assert_eq!(w.balance(MAKER, ASSET_X), 1000);
    assert_eq!(w.balance(MAKER, ASSET_Y), 500);
    assert!(!w.escrow_exists(MAKER, 1));
}

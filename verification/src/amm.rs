//! Liquidity-pool configuration setup, an external collaborator of the
//! escrow core: one-shot creation of a pool's `Config` record.

use vstd::prelude::*;

use crate::errors::EscrowError;

verus! {

/// Configuration record of one liquidity pool. The `authority` and `locked`
/// fields are reserved: no operation of this core reads or enforces them.
#[derive(Clone, Copy, Debug, PartialEq, Eq)]
pub struct Config {
    /// Caller-chosen nonce disambiguating pools.
    pub seed: u64,
    /// Optional administrative identity; reserved.
    pub authority: Option<u64>,
    /// Asset class of the pool's first side.
    pub mint_x: u64,
    /// Asset class of the pool's second side.
    pub mint_y: u64,
    /// Pool fee in basis points.
    pub fee: u16,
    /// Whether the pool is locked; reserved, created unlocked.
    pub locked: bool,
    /// Derivation salt of the config record's address.
    pub config_bump: u8,
    /// Derivation salt of the pool's liquidity-token address.
    pub lp_bump: u8,
}

/// Derivation salts under which the config record and the liquidity-token
/// mint were created.
#[derive(Clone, Copy, Debug, PartialEq, Eq, Structural)]
pub struct InitializeBumps {
    pub config: u8,
    pub mint_lp: u8,
}

/// The accounts a pool initialization works on: the two asset classes and
/// the config record it fills.
pub struct Initialize {
    /// Asset class of the pool's first side.
    pub mint_x: u64,
    /// Asset class of the pool's second side.
    pub mint_y: u64,
    /// The config record; `None` until initialized.
    pub config: Option<Config>,
}

impl Initialize {
    /// Fills the config record from the given parameters and the two asset
    /// classes, unlocked and with the given derivation salts recorded.
    pub fn initialize(&mut self, seed: u64, fee: u16, authority: Option<u64>, bump: &InitializeBumps)
        -> (r: Result<(), EscrowError>)
        ensures
            r == Ok::<(), EscrowError>(()),
            final(self).config == Some(Config {
                seed,
                authority,
                mint_x: old(self).mint_x,
                mint_y: old(self).mint_y,
                fee,
                locked: false,
                config_bump: bump.config,
                lp_bump: bump.mint_lp,
            }),
            final(self).mint_x == old(self).mint_x,
            final(self).mint_y == old(self).mint_y,
    {
        self.config = Some(
            Config {
                seed,
                authority,
                mint_x: self.mint_x,
                mint_y: self.mint_y,
                fee,
                locked: false,
                config_bump: bump.config,
                lp_bump: bump.mint_lp,
            },
        );
        Ok(())
    }
}

/// Creates a pool's `Config` record: the one-shot setup entry point.
pub fn initialize(
    accounts: &mut Initialize,
    seed: u64,
    fee: u16,
    authority: Option<u64>,
    bump: &InitializeBumps,
) -> (r: Result<(), EscrowError>)
    ensures
        r == Ok::<(), EscrowError>(()),
        final(accounts).config == Some(Config {
            seed,
            authority,
            mint_x: old(accounts).mint_x,
            mint_y: old(accounts).mint_y,
            fee,
            locked: false,
            config_bump: bump.config,
            lp_bump: bump.mint_lp,
        }),
        final(accounts).mint_x == old(accounts).mint_x,
        final(accounts).mint_y == old(accounts).mint_y,
{
    accounts.initialize(seed, fee, authority, bump)
}

} // verus!

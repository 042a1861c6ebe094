//! Marketplace settlement: fee/proceeds split and the paired payout.
//!
//! When a sale is intermediated by a marketplace, the buyer's payment is
//! split into a treasury fee of `floor(price * fee / 10000)` basis points and
//! the seller's proceeds. The two payouts are one atomic unit: either both
//! are paid or neither is.

use vstd::prelude::*;

use crate::BPS_DENOMINATOR;
use crate::errors::EscrowError;
use crate::ledger::Holder;
use crate::ledger::Ledger;
use crate::ledger::can_transfer;
use crate::ledger::transfer_delta;
use vstd::arithmetic::div_mod::lemma_div_is_ordered;
use vstd::arithmetic::div_mod::lemma_div_multiples_vanish;
use vstd::arithmetic::mul::lemma_mul_inequality;

verus! {

/// What `split` returns: the fee and the proceeds, or the exact error.
/// The fee is `floor(price * fee_bps / 10000)`; it exceeds the representable
/// range only for rates above 10000 bps, and then the split fails rather
/// than wrap.
pub open spec fn split_spec(price: u64, fee_bps: u16) -> Result<(u64, u64), EscrowError> {
    let fee = (price as int) * (fee_bps as int) / (BPS_DENOMINATOR as int);
    if fee > u64::MAX {
        Err(EscrowError::ArithmeticOverflow)
    } else if fee > price {
        Err(EscrowError::ArithmeticUnderflow)
    } else {
        Ok(((fee as u64), (price - fee) as u64))
    }
}

/// Splits a sale price into `(fee, proceeds)` with
/// `fee == floor(price * fee_bps / 10000)` and `fee + proceeds == price`,
/// using overflow-checked arithmetic throughout: a fee beyond the
/// representable range fails with `ArithmeticOverflow`, a fee above the
/// price with `ArithmeticUnderflow`, and nothing ever wraps.
pub fn split(price: u64, fee_bps: u16) -> (r: Result<(u64, u64), EscrowError>)
    ensures
        r == split_spec(price, fee_bps),
{
    proof {
        lemma_mul_inequality(price as int, u64::MAX as int, fee_bps as int);
        lemma_mul_inequality(fee_bps as int, u16::MAX as int, u64::MAX as int);
    }
    let prod: u128 = (price as u128) * (fee_bps as u128);
    let fee128: u128 = prod / (BPS_DENOMINATOR as u128);
    if fee128 > u64::MAX as u128 {
        Err(EscrowError::ArithmeticOverflow)
    } else {
        let fee = fee128 as u64;
        if fee > price {
            Err(EscrowError::ArithmeticUnderflow)
        } else {
            Ok((fee, price - fee))
        }
    }
}

/// Fee split exactness: for every price below 2^63 and every rate of at most
/// 10000 basis points, the split succeeds with
/// `fee == floor(price * fee_bps / 10000)` and `fee + proceeds == price`.
pub proof fn lemma_split_exact(price: u64, fee_bps: u16)
    requires
        price < 0x8000000000000000,
        fee_bps <= 10000,
    ensures
        ({
            let fee = (price as int) * (fee_bps as int) / (BPS_DENOMINATOR as int);
            &&& split_spec(price, fee_bps) matches Ok(p) && p.0 == fee && p.0 + p.1 == price
        }),
{
    let fee = (price as int) * (fee_bps as int) / (BPS_DENOMINATOR as int);
    lemma_mul_inequality(fee_bps as int, BPS_DENOMINATOR as int, price as int);
    assert((price as int) * (fee_bps as int) == (fee_bps as int) * (price as int))
        by (nonlinear_arith);
    lemma_div_is_ordered(
        (price as int) * (fee_bps as int),
        (BPS_DENOMINATOR as int) * (price as int),
        BPS_DENOMINATOR as int,
    );
    lemma_div_multiples_vanish(price as int, BPS_DENOMINATOR as int);
    assert(fee <= price);
    assert((price as int) * (fee_bps as int) >= 0) by (nonlinear_arith);
    vstd::arithmetic::div_mod::lemma_div_pos_is_pos(
        (price as int) * (fee_bps as int),
        BPS_DENOMINATOR as int,
    );
}

/// Overflow safety: a split whose fee would exceed the representable range
/// fails with `ArithmeticOverflow`; amounts never wrap.
pub proof fn lemma_split_overflow_safety(price: u64, fee_bps: u16)
    requires
        (price as int) * (fee_bps as int) / (BPS_DENOMINATOR as int) > u64::MAX,
    ensures
        split_spec(price, fee_bps) == Err::<(u64, u64), EscrowError>(
            EscrowError::ArithmeticOverflow,
        ),
{
}

/// One marketplace purchase to settle: who pays, who is paid, the listing
/// price, the marketplace's fee rate in basis points, and the asset class
/// the payment is made in.
pub struct Purchase {
    /// The buying party, who pays the full price.
    pub taker: u64,
    /// The selling party, who receives the proceeds.
    pub maker: u64,
    /// The marketplace's treasury, which receives the fee.
    pub treasury: u64,
    /// The listing price.
    pub price: u64,
    /// The marketplace's fee rate in basis points.
    pub fee: u16,
    /// Asset class the payment is made in.
    pub pay_asset: u64,
}

impl Purchase {
    /// Error `send_sol` reports, or `None` when it is owed success: the
    /// split fails, the taker cannot cover a payout, or a credited balance
    /// would overflow.
    pub open spec fn send_sol_err(self, l: Ledger) -> Option<EscrowError> {
        match split_spec(self.price, self.fee) {
            Err(e) => Some(e),
            Ok(p) => {
                let taker_h = Holder::User(self.taker);
                let maker_h = Holder::User(self.maker);
                match can_transfer(
                    l.bal(taker_h, self.pay_asset) as int,
                    l.bal(maker_h, self.pay_asset) as int,
                    self.taker != self.maker,
                    p.1 as int,
                ) {
                    Some(err) => Some(err),
                    None => {
                        let taker_after = l.bal(taker_h, self.pay_asset) + transfer_delta(
                            taker_h,
                            maker_h,
                            self.pay_asset,
                            p.1,
                            taker_h,
                            self.pay_asset,
                        );
                        let treasury_after = l.bal(Holder::User(self.treasury), self.pay_asset)
                            + transfer_delta(
                            taker_h,
                            maker_h,
                            self.pay_asset,
                            p.1,
                            Holder::User(self.treasury),
                            self.pay_asset,
                        );
                        can_transfer(
                            taker_after,
                            treasury_after,
                            self.taker != self.treasury,
                            p.0 as int,
                        )
                    },
                }
            },
        }
    }

    /// Settles the purchase: pays the seller the proceeds and the treasury
    /// the fee, both from the taker and as one atomic unit — either both
    /// payouts apply or the ledger is unchanged and the named error says
    /// why. Every asset's total supply is preserved.
    pub fn send_sol(&self, l: &mut Ledger) -> (r: Result<(), EscrowError>)
        requires
            old(l).wf(),
        ensures
            final(l).wf(),
            forall|a2: u64| #[trigger] final(l).supply(a2) == old(l).supply(a2),
            match self.send_sol_err(*old(l)) {
                Some(e) => r == Err::<(), EscrowError>(e) && *final(l) == *old(l),
                None => split_spec(self.price, self.fee) matches Ok(p) && {
                    &&& r == Ok::<(), EscrowError>(())
                    &&& forall|h2: Holder, a2: u64|
                        #[trigger] final(l).bal(h2, a2) == old(l).bal(h2, a2) + transfer_delta(
                            Holder::User(self.taker),
                            Holder::User(self.maker),
                            self.pay_asset,
                            p.1,
                            h2,
                            a2,
                        ) + transfer_delta(
                            Holder::User(self.taker),
                            Holder::User(self.treasury),
                            self.pay_asset,
                            p.0,
                            h2,
                            a2,
                        )
                },
            },
    {
        let (fee_amount, proceeds) = match split(self.price, self.fee) {
            Err(e) => {
                return Err(e);
            },
            Ok(p) => p,
        };
        let taker_h = Holder::User(self.taker);
        let maker_h = Holder::User(self.maker);
        let treasury_h = Holder::User(self.treasury);
        let bt = l.balance(taker_h, self.pay_asset);
        if bt < proceeds {
            return Err(EscrowError::InsufficientFunds);
        }
        if self.taker != self.maker {
            let bm = l.balance(maker_h, self.pay_asset);
            if proceeds > u64::MAX - bm {
                return Err(EscrowError::ArithmeticOverflow);
            }
        }
        let bt_after = if self.taker != self.maker {
            bt - proceeds
        } else {
            bt
        };
        if bt_after < fee_amount {
            return Err(EscrowError::InsufficientFunds);
        }
        if self.taker != self.treasury {
            let btr = l.balance(treasury_h, self.pay_asset);
            let btr_after = if self.treasury == self.maker && self.taker != self.maker {
                btr + proceeds
            } else {
                btr
            };
            if fee_amount > u64::MAX - btr_after {
                return Err(EscrowError::ArithmeticOverflow);
            }
        }
        let r1 = l.transfer(taker_h, maker_h, self.pay_asset, proceeds);
        proof {
            assert(r1 is Ok);
        }
        let r2 = l.transfer(taker_h, treasury_h, self.pay_asset, fee_amount);
        proof {
            assert(r2 is Ok);
        }
        Ok(())
    }
}

} // verus!

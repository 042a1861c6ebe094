//! Account-based token ledger the escrow operations run against.
//!
//! A [`Ledger`] maps a holder and an asset class to a balance. Holders are
//! either external identities or the derived authority of one escrow: the
//! sentinel owner of that escrow's vault, which no external party can sign
//! for. Every mutation is overflow-checked and preserves each asset's total
//! supply except where the ledger is explicitly funded.

use vstd::prelude::*;

use crate::errors::EscrowError;

verus! {

/// Who holds a balance: an external identity, or the derived authority of the
/// escrow keyed by `(maker, seed)`, which owns that escrow's vault.
#[derive(Clone, Copy, Debug, PartialEq, Eq, Structural)]
pub enum Holder {
    /// An external identity (maker, taker, treasury, ...).
    User(u64),
    /// The vault authority derived from the escrow of this maker and seed.
    Vault(u64, u64),
}

/// One balance entry: `holder` owns `amount` units of `asset`.
#[derive(Clone, Copy, Debug, PartialEq, Eq, Structural)]
pub struct TokenAccount {
    pub holder: Holder,
    pub asset: u64,
    pub amount: u64,
}

/// Balance of `(h, a)` in an entry sequence: the first matching entry's
/// amount, or 0 when no entry matches.
pub open spec fn seq_bal(s: Seq<TokenAccount>, h: Holder, a: u64) -> u64
    decreases s.len(),
{
    if s.len() == 0 {
        0
    } else if s[0].holder == h && s[0].asset == a {
        s[0].amount
    } else {
        seq_bal(s.drop_first(), h, a)
    }
}

/// Total amount of `a` held across all entries.
pub open spec fn seq_supply(s: Seq<TokenAccount>, a: u64) -> int
    decreases s.len(),
{
    if s.len() == 0 {
        0
    } else {
        (if s[0].asset == a {
            s[0].amount as int
        } else {
            0
        }) + seq_supply(s.drop_first(), a)
    }
}

/// No two entries share a `(holder, asset)` key.
pub open spec fn distinct_keys(s: Seq<TokenAccount>) -> bool {
    forall|i: int, j: int|
        0 <= i < j < s.len() ==> !(#[trigger] s[i].holder == #[trigger] s[j].holder
            && s[i].asset == s[j].asset)
}

proof fn lemma_distinct_keys_drop_first(s: Seq<TokenAccount>)
    requires
        distinct_keys(s),
        s.len() > 0,
    ensures
        distinct_keys(s.drop_first()),
{
    assert forall|i: int, j: int| 0 <= i < j < s.drop_first().len() implies !(#[trigger] s
        .drop_first()[i].holder == #[trigger] s.drop_first()[j].holder && s.drop_first()[i].asset
        == s.drop_first()[j].asset) by {
        assert(s.drop_first()[i] == s[i + 1]);
        assert(s.drop_first()[j] == s[j + 1]);
    }
}

/// When no entry matches `(h, a)`, the balance is 0.
proof fn lemma_seq_bal_no_match(s: Seq<TokenAccount>, h: Holder, a: u64)
    requires
        forall|k: int| 0 <= k < s.len() ==> !(#[trigger] s[k].holder == h && s[k].asset == a),
    ensures
        seq_bal(s, h, a) == 0,
    decreases s.len(),
{
    if s.len() > 0 {
        assert forall|k: int| 0 <= k < s.drop_first().len() implies !(#[trigger] s.drop_first()[k].holder
            == h && s.drop_first()[k].asset == a) by {
            assert(s.drop_first()[k] == s[k + 1]);
        }
        lemma_seq_bal_no_match(s.drop_first(), h, a);
    }
}

/// With distinct keys, the balance of `(h, a)` is the amount of the entry at
/// any index whose key matches.
proof fn lemma_seq_bal_at(s: Seq<TokenAccount>, i: int, h: Holder, a: u64)
    requires
        distinct_keys(s),
        0 <= i < s.len(),
        s[i].holder == h,
        s[i].asset == a,
    ensures
        seq_bal(s, h, a) == s[i].amount,
    decreases s.len(),
{
    if i == 0 {
    } else {
        assert(!(s[0].holder == s[i].holder && s[0].asset == s[i].asset));
        lemma_distinct_keys_drop_first(s);
        assert(s.drop_first()[i - 1] == s[i]);
        lemma_seq_bal_at(s.drop_first(), i - 1, h, a);
    }
}

/// An asset's total supply is never negative.
proof fn lemma_seq_supply_nonneg(s: Seq<TokenAccount>, a: u64)
    ensures
        seq_supply(s, a) >= 0,
    decreases s.len(),
{
    if s.len() > 0 {
        lemma_seq_supply_nonneg(s.drop_first(), a);
    }
}

/// A single balance never exceeds its asset's total supply.
proof fn lemma_seq_bal_le_supply(s: Seq<TokenAccount>, h: Holder, a: u64)
    ensures
        seq_bal(s, h, a) <= seq_supply(s, a),
    decreases s.len(),
{
    if s.len() > 0 {
        lemma_seq_supply_nonneg(s.drop_first(), a);
        lemma_seq_bal_le_supply(s.drop_first(), h, a);
    }
}

/// With distinct keys, updating the amount at index `i` moves exactly that
/// key's balance.
proof fn lemma_seq_bal_update(s: Seq<TokenAccount>, i: int, v: u64, h: Holder, a: u64)
    requires
        distinct_keys(s),
        0 <= i < s.len(),
    ensures
        ({
            let s2 = s.update(i, TokenAccount { amount: v, ..s[i] });
            seq_bal(s2, h, a) == if s[i].holder == h && s[i].asset == a {
                v
            } else {
                seq_bal(s, h, a)
            }
        }),
    decreases s.len(),
{
    let s2 = s.update(i, TokenAccount { amount: v, ..s[i] });
    if i == 0 {
        if s[0].holder == h && s[0].asset == a {
        } else {
            assert(s2.drop_first() =~= s.drop_first());
        }
    } else {
        assert(s2[0] == s[0]);
        if s[0].holder == h && s[0].asset == a {
            assert(!(s[0].holder == s[i].holder && s[0].asset == s[i].asset));
            assert(s2[0].amount == s[0].amount);
        } else {
            assert(s2.drop_first() =~= s.drop_first().update(i - 1, TokenAccount {
                amount: v,
                ..s[i]
            }));
            assert(s.drop_first()[i - 1] == s[i]);
            lemma_distinct_keys_drop_first(s);
            lemma_seq_bal_update(s.drop_first(), i - 1, v, h, a);
        }
    }
}

/// Updating the amount at index `i` changes that asset's supply by the
/// difference and no other asset's supply.
proof fn lemma_seq_supply_update(s: Seq<TokenAccount>, i: int, v: u64, a: u64)
    requires
        0 <= i < s.len(),
    ensures
        ({
            let s2 = s.update(i, TokenAccount { amount: v, ..s[i] });
            seq_supply(s2, a) == if s[i].asset == a {
                seq_supply(s, a) - s[i].amount + v
            } else {
                seq_supply(s, a)
            }
        }),
    decreases s.len(),
{
    let s2 = s.update(i, TokenAccount { amount: v, ..s[i] });
    if i == 0 {
        assert(s2.drop_first() =~= s.drop_first());
    } else {
        assert(s2[0] == s[0]);
        assert(s2.drop_first() =~= s.drop_first().update(i - 1, TokenAccount {
            amount: v,
            ..s[i]
        }));
        assert(s.drop_first()[i - 1] == s[i]);
        lemma_seq_supply_update(s.drop_first(), i - 1, v, a);
    }
}

/// Appending an entry with a fresh key adds its amount at exactly that key.
proof fn lemma_seq_bal_push(s: Seq<TokenAccount>, e: TokenAccount, h: Holder, a: u64)
    requires
        forall|k: int|
            0 <= k < s.len() ==> !(#[trigger] s[k].holder == e.holder && s[k].asset == e.asset),
    ensures
        seq_bal(s.push(e), h, a) == if e.holder == h && e.asset == a {
            e.amount
        } else {
            seq_bal(s, h, a)
        },
    decreases s.len(),
{
    if s.len() == 0 {
        assert(s.push(e)[0] == e);
        assert(s.push(e).drop_first() =~= Seq::<TokenAccount>::empty());
        assert(seq_bal(Seq::<TokenAccount>::empty(), h, a) == 0);
    } else {
        assert(s.push(e)[0] == s[0]);
        assert(s.push(e).drop_first() =~= s.drop_first().push(e));
        assert forall|k: int| 0 <= k < s.drop_first().len() implies !(#[trigger] s.drop_first()[k].holder
            == e.holder && s.drop_first()[k].asset == e.asset) by {
            assert(s.drop_first()[k] == s[k + 1]);
        }
        lemma_seq_bal_push(s.drop_first(), e, h, a);
    }
}

/// Appending an entry adds its amount to its asset's supply.
proof fn lemma_seq_supply_push(s: Seq<TokenAccount>, e: TokenAccount, a: u64)
    ensures
        seq_supply(s.push(e), a) == seq_supply(s, a) + if e.asset == a {
            e.amount as int
        } else {
            0
        },
    decreases s.len(),
{
    if s.len() == 0 {
        assert(s.push(e)[0] == e);
        assert(s.push(e).drop_first() =~= Seq::<TokenAccount>::empty());
        assert(seq_supply(Seq::<TokenAccount>::empty(), a) == 0);
    } else {
        assert(s.push(e)[0] == s[0]);
        assert(s.push(e).drop_first() =~= s.drop_first().push(e));
        lemma_seq_supply_push(s.drop_first(), e, a);
    }
}

/// The token ledger: a set of balance entries with pairwise-distinct
/// `(holder, asset)` keys.
pub struct Ledger {
    accounts: Vec<TokenAccount>,
}

/// Signed change a single transfer applies to the balance of `(h2, a2)`.
pub open spec fn transfer_delta(
    from: Holder,
    to: Holder,
    asset: u64,
    amount: u64,
    h2: Holder,
    a2: u64,
) -> int {
    (if h2 == from && a2 == asset {
        -(amount as int)
    } else {
        0
    }) + (if h2 == to && a2 == asset {
        amount as int
    } else {
        0
    })
}

/// Error a transfer of `amount` reports given the two balances involved, or
/// `None` when it is owed success. `distinct` is whether source and
/// destination are different accounts.
pub open spec fn can_transfer(bal_from: int, bal_to: int, distinct: bool, amount: int) -> Option<
    EscrowError,
> {
    if bal_from < amount {
        Some(EscrowError::InsufficientFunds)
    } else if distinct && bal_to + amount > u64::MAX {
        Some(EscrowError::ArithmeticOverflow)
    } else {
        None
    }
}

/// Overflow safety: a transfer into a different account whose credited
/// balance would exceed the representable range fails with
/// `ArithmeticOverflow`; balances never wrap.
pub proof fn lemma_transfer_overflow_safety(bal_from: int, bal_to: int, amount: int)
    requires
        amount <= bal_from,
        bal_to + amount > u64::MAX,
    ensures
        can_transfer(bal_from, bal_to, true, amount) == Some(EscrowError::ArithmeticOverflow),
{
}

/// No holder's balance of an asset ever exceeds that asset's total supply:
/// the supply the operations preserve really bounds every account.
pub proof fn lemma_balance_at_most_supply(l: Ledger, h: Holder, a: u64)
    ensures
        l.bal(h, a) <= l.supply(a),
{
    lemma_seq_bal_le_supply(l.accounts@, h, a);
}

impl Ledger {
    /// Keys are pairwise distinct, so each balance is well-defined.
    pub closed spec fn wf(self) -> bool {
        distinct_keys(self.accounts@)
    }

    /// Balance of holder `h` in asset `a`.
    pub closed spec fn bal(self, h: Holder, a: u64) -> u64 {
        seq_bal(self.accounts@, h, a)
    }

    /// Total supply of asset `a` across all holders.
    pub closed spec fn supply(self, a: u64) -> int {
        seq_supply(self.accounts@, a)
    }

    /// An empty ledger: every balance and every supply is 0.
    pub fn new() -> (r: Ledger)
        ensures
            r.wf(),
            forall|h: Holder, a: u64| #[trigger] r.bal(h, a) == 0,
            forall|a: u64| #[trigger] r.supply(a) == 0,
    {
        Ledger { accounts: Vec::new() }
    }

    /// Index of the entry for `(h, a)`, if one exists.
    fn find(&self, h: Holder, a: u64) -> (r: Option<usize>)
        ensures
            match r {
                Some(i) => i < self.accounts@.len() && self.accounts@[i as int].holder == h
                    && self.accounts@[i as int].asset == a,
                None => forall|k: int|
                    0 <= k < self.accounts@.len() ==> !(#[trigger] self.accounts@[k].holder == h
                        && self.accounts@[k].asset == a),
            },
    {
        let n = self.accounts.len();
        let mut i: usize = 0;
        while i < n
            invariant
                n == self.accounts@.len(),
                i <= n,
                forall|k: int|
                    0 <= k < i ==> !(#[trigger] self.accounts@[k].holder == h
                        && self.accounts@[k].asset == a),
            decreases n - i,
        {
            if self.accounts[i].holder == h && self.accounts[i].asset == a {
                return Some(i);
            }
            i = i + 1;
        }
        None
    }

    /// Reads the balance of holder `h` in asset `a`.
    pub fn balance(&self, h: Holder, a: u64) -> (r: u64)
        requires
            self.wf(),
        ensures
            r == self.bal(h, a),
    {
        match self.find(h, a) {
            Some(i) => {
                proof {
                    lemma_seq_bal_at(self.accounts@, i as int, h, a);
                }
                self.accounts[i].amount
            },
            None => {
                proof {
                    lemma_seq_bal_no_match(self.accounts@, h, a);
                }
                0
            },
        }
    }

    /// Adds `amount` to the balance of `(h, a)`; fails with
    /// `ArithmeticOverflow` exactly when the new balance would not fit.
    pub fn credit(&mut self, h: Holder, a: u64, amount: u64) -> (r: Result<(), EscrowError>)
        requires
            old(self).wf(),
        ensures
            final(self).wf(),
            if old(self).bal(h, a) + amount > u64::MAX {
                r == Err::<(), EscrowError>(EscrowError::ArithmeticOverflow) && *final(self)
                    == *old(self)
            } else {
                r == Ok::<(), EscrowError>(()) && (forall|h2: Holder, a2: u64|
                    #[trigger] final(self).bal(h2, a2) == old(self).bal(h2, a2) + (if h2 == h && a2
                        == a {
                        amount as int
                    } else {
                        0
                    })) && (forall|a2: u64|
                    #[trigger] final(self).supply(a2) == old(self).supply(a2) + (if a2 == a {
                        amount as int
                    } else {
                        0
                    }))
            },
    {
        match self.find(h, a) {
            Some(i) => {
                let b = self.accounts[i].amount;
                proof {
                    lemma_seq_bal_at(self.accounts@, i as int, h, a);
                }
                if amount > u64::MAX - b {
                    Err(EscrowError::ArithmeticOverflow)
                } else {
                    let ghost s0 = self.accounts@;
                    self.accounts[i] = TokenAccount { holder: h, asset: a, amount: b + amount };
                    proof {
                        assert(self.accounts@ =~= s0.update(i as int, TokenAccount {
                            amount: (b + amount) as u64,
                            ..s0[i as int]
                        }));
                        assert forall|h2: Holder, a2: u64| #[trigger] self.bal(h2, a2) == old(
                            self,
                        ).bal(h2, a2) + (if h2 == h && a2 == a {
                            amount as int
                        } else {
                            0
                        }) by {
                            lemma_seq_bal_update(s0, i as int, (b + amount) as u64, h2, a2);
                        }
                        assert forall|a2: u64| #[trigger] self.supply(a2) == old(self).supply(a2)
                            + (if a2 == a {
                            amount as int
                        } else {
                            0
                        }) by {
                            lemma_seq_supply_update(s0, i as int, (b + amount) as u64, a2);
                            lemma_seq_bal_at(s0, i as int, h, a);
                        }
                        assert forall|x: int, y: int|
                            0 <= x < y < self.accounts@.len() implies !(
                        #[trigger] self.accounts@[x].holder == #[trigger] self.accounts@[y].holder
                            && self.accounts@[x].asset == self.accounts@[y].asset) by {
                            assert(s0[x].holder == self.accounts@[x].holder || x == i);
                            assert(self.accounts@[x].holder == s0[x].holder
                                && self.accounts@[x].asset == s0[x].asset);
                            assert(self.accounts@[y].holder == s0[y].holder
                                && self.accounts@[y].asset == s0[y].asset);
                        }
                    }
                    Ok(())
                }
            },
            None => {
                proof {
                    lemma_seq_bal_no_match(self.accounts@, h, a);
                }
                let ghost s0 = self.accounts@;
                let e = TokenAccount { holder: h, asset: a, amount };
                self.accounts.push(e);
                proof {
                    assert forall|h2: Holder, a2: u64| #[trigger] self.bal(h2, a2) == old(self).bal(
                        h2,
                        a2,
                    ) + (if h2 == h && a2 == a {
                        amount as int
                    } else {
                        0
                    }) by {
                        lemma_seq_bal_push(s0, e, h2, a2);
                    }
                    assert forall|a2: u64| #[trigger] self.supply(a2) == old(self).supply(a2) + (
                    if a2 == a {
                        amount as int
                    } else {
                        0
                    }) by {
                        lemma_seq_supply_push(s0, e, a2);
                    }
                    assert forall|x: int, y: int|
                        0 <= x < y < self.accounts@.len() implies !(
                    #[trigger] self.accounts@[x].holder == #[trigger] self.accounts@[y].holder
                        && self.accounts@[x].asset == self.accounts@[y].asset) by {
                        if y == s0.len() {
                            assert(self.accounts@[x] == s0[x]);
                            assert(self.accounts@[y] == e);
                        } else {
                            assert(self.accounts@[x] == s0[x]);
                            assert(self.accounts@[y] == s0[y]);
                        }
                    }
                }
                Ok(())
            },
        }
    }

    /// Removes `amount` from the balance of `(h, a)`; fails with
    /// `InsufficientFunds` exactly when the balance is below `amount`.
    pub fn debit(&mut self, h: Holder, a: u64, amount: u64) -> (r: Result<(), EscrowError>)
        requires
            old(self).wf(),
        ensures
            final(self).wf(),
            if old(self).bal(h, a) < amount {
                r == Err::<(), EscrowError>(EscrowError::InsufficientFunds) && *final(self)
                    == *old(self)
            } else {
                r == Ok::<(), EscrowError>(()) && (forall|h2: Holder, a2: u64|
                    #[trigger] final(self).bal(h2, a2) == old(self).bal(h2, a2) - (if h2 == h && a2
                        == a {
                        amount as int
                    } else {
                        0
                    })) && (forall|a2: u64|
                    #[trigger] final(self).supply(a2) == old(self).supply(a2) - (if a2 == a {
                        amount as int
                    } else {
                        0
                    }))
            },
    {
        match self.find(h, a) {
            Some(i) => {
                let b = self.accounts[i].amount;
                proof {
                    lemma_seq_bal_at(self.accounts@, i as int, h, a);
                }
                if b < amount {
                    Err(EscrowError::InsufficientFunds)
                } else {
                    let ghost s0 = self.accounts@;
                    self.accounts[i] = TokenAccount { holder: h, asset: a, amount: b - amount };
                    proof {
                        assert(self.accounts@ =~= s0.update(i as int, TokenAccount {
                            amount: (b - amount) as u64,
                            ..s0[i as int]
                        }));
                        assert forall|h2: Holder, a2: u64| #[trigger] self.bal(h2, a2) == old(
                            self,
                        ).bal(h2, a2) - (if h2 == h && a2 == a {
                            amount as int
                        } else {
                            0
                        }) by {
                            lemma_seq_bal_update(s0, i as int, (b - amount) as u64, h2, a2);
                        }
                        assert forall|a2: u64| #[trigger] self.supply(a2) == old(self).supply(a2)
                            - (if a2 == a {
                            amount as int
                        } else {
                            0
                        }) by {
                            lemma_seq_supply_update(s0, i as int, (b - amount) as u64, a2);
                            lemma_seq_bal_at(s0, i as int, h, a);
                        }
                        assert forall|x: int, y: int|
                            0 <= x < y < self.accounts@.len() implies !(
                        #[trigger] self.accounts@[x].holder == #[trigger] self.accounts@[y].holder
                            && self.accounts@[x].asset == self.accounts@[y].asset) by {
                            assert(self.accounts@[x].holder == s0[x].holder
                                && self.accounts@[x].asset == s0[x].asset);
                            assert(self.accounts@[y].holder == s0[y].holder
                                && self.accounts@[y].asset == s0[y].asset);
                        }
                    }
                    Ok(())
                }
            },
            None => {
                proof {
                    lemma_seq_bal_no_match(self.accounts@, h, a);
                }
                if amount == 0 {
                    Ok(())
                } else {
                    Err(EscrowError::InsufficientFunds)
                }
            },
        }
    }

    /// Moves `amount` of `asset` from `from` to `to` as one atomic step:
    /// both balances change or, on a named error, neither does. Every
    /// asset's total supply is preserved.
    pub fn transfer(&mut self, from: Holder, to: Holder, asset: u64, amount: u64) -> (r: Result<
        (),
        EscrowError,
    >)
        requires
            old(self).wf(),
        ensures
            final(self).wf(),
            match can_transfer(
                old(self).bal(from, asset) as int,
                old(self).bal(to, asset) as int,
                from != to,
                amount as int,
            ) {
                Some(e) => r == Err::<(), EscrowError>(e) && *final(self) == *old(self),
                None => r == Ok::<(), EscrowError>(()) && forall|h2: Holder, a2: u64|
                    #[trigger] final(self).bal(h2, a2) == old(self).bal(h2, a2) + transfer_delta(
                        from,
                        to,
                        asset,
                        amount,
                        h2,
                        a2,
                    ),
            },
            forall|a2: u64| #[trigger] final(self).supply(a2) == old(self).supply(a2),
    {
        if from == to {
            let b = self.balance(from, asset);
            if b < amount {
                Err(EscrowError::InsufficientFunds)
            } else {
                Ok(())
            }
        } else {
            let bf = self.balance(from, asset);
            if bf < amount {
                return Err(EscrowError::InsufficientFunds);
            }
            let bt = self.balance(to, asset);
            if amount > u64::MAX - bt {
                return Err(EscrowError::ArithmeticOverflow);
            }
            let r1 = self.debit(from, asset, amount);
            proof {
                assert(r1 is Ok);
            }
            let r2 = self.credit(to, asset, amount);
            proof {
                assert(r2 is Ok);
            }
            Ok(())
        }
    }
}

} // verus!

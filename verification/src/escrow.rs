//! The escrow lifecycle: creation, completion and cancellation.
//!
//! A [`World`] holds the token ledger and the open escrow records, one per
//! `(maker, seed)` pair. `make` creates an escrow and funds its vault, `take`
//! completes the exchange, `refund` cancels it; each is one atomic unit that
//! either applies in full or leaves the world unchanged and reports a named
//! error. An escrow is immutable while open and is deleted by the single
//! `take` or `refund` that resolves it.

use vstd::prelude::*;

use crate::errors::EscrowError;
use crate::ledger::Holder;
use crate::ledger::Ledger;
use crate::ledger::can_transfer;
use crate::ledger::transfer_delta;
use crate::pda::derivation_seeds;
use crate::pda::derive_address;
use crate::pda::pda_of;

verus! {

/// One pending exchange offer: immutable once created, present while open,
/// deleted when resolved.
#[derive(Clone, Copy, Debug, PartialEq, Eq, Structural)]
pub struct Escrow {
    /// Caller-chosen nonce; with `maker` it uniquely keys the escrow.
    pub seed: u64,
    /// Identity of the offering party.
    pub maker: u64,
    /// Asset class the maker deposited (held by the vault).
    pub mint_a: u64,
    /// Asset class the maker demands.
    pub mint_b: u64,
    /// Quantity of `mint_b` the maker demands.
    pub receive_amount: u64,
    /// Derivation salt under which the escrow's address was found.
    pub bump: u8,
}

/// The escrow record for `(maker, seed)` in a record sequence: the first
/// matching record, or `None`.
pub open spec fn seq_escrow(s: Seq<Escrow>, maker: u64, seed: u64) -> Option<Escrow>
    decreases s.len(),
{
    if s.len() == 0 {
        None
    } else if s[0].maker == maker && s[0].seed == seed {
        Some(s[0])
    } else {
        seq_escrow(s.drop_first(), maker, seed)
    }
}

/// No two records share a `(maker, seed)` key.
pub open spec fn distinct_escrow_keys(s: Seq<Escrow>) -> bool {
    forall|i: int, j: int|
        0 <= i < j < s.len() ==> !(#[trigger] s[i].maker == #[trigger] s[j].maker && s[i].seed
            == s[j].seed)
}

proof fn lemma_distinct_escrow_drop_first(s: Seq<Escrow>)
    requires
        distinct_escrow_keys(s),
        s.len() > 0,
    ensures
        distinct_escrow_keys(s.drop_first()),
{
    assert forall|i: int, j: int| 0 <= i < j < s.drop_first().len() implies !(#[trigger] s
        .drop_first()[i].maker == #[trigger] s.drop_first()[j].maker && s.drop_first()[i].seed
        == s.drop_first()[j].seed) by {
        assert(s.drop_first()[i] == s[i + 1]);
        assert(s.drop_first()[j] == s[j + 1]);
    }
}

proof fn lemma_seq_escrow_no_match(s: Seq<Escrow>, maker: u64, seed: u64)
    requires
        forall|k: int| 0 <= k < s.len() ==> !(#[trigger] s[k].maker == maker && s[k].seed == seed),
    ensures
        seq_escrow(s, maker, seed) is None,
    decreases s.len(),
{
    if s.len() > 0 {
        assert forall|k: int| 0 <= k < s.drop_first().len() implies !(#[trigger] s.drop_first()[k].maker
            == maker && s.drop_first()[k].seed == seed) by {
            assert(s.drop_first()[k] == s[k + 1]);
        }
        lemma_seq_escrow_no_match(s.drop_first(), maker, seed);
    }
}

proof fn lemma_seq_escrow_at(s: Seq<Escrow>, i: int, maker: u64, seed: u64)
    requires
        distinct_escrow_keys(s),
        0 <= i < s.len(),
        s[i].maker == maker,
        s[i].seed == seed,
    ensures
        seq_escrow(s, maker, seed) == Some(s[i]),
    decreases s.len(),
{
    if i == 0 {
    } else {
        assert(!(s[0].maker == s[i].maker && s[0].seed == s[i].seed));
        lemma_distinct_escrow_drop_first(s);
        assert(s.drop_first()[i - 1] == s[i]);
        lemma_seq_escrow_at(s.drop_first(), i - 1, maker, seed);
    }
}

/// Appending a record with a fresh key adds exactly that record.
proof fn lemma_seq_escrow_push(s: Seq<Escrow>, e: Escrow, maker: u64, seed: u64)
    requires
        forall|k: int|
            0 <= k < s.len() ==> !(#[trigger] s[k].maker == e.maker && s[k].seed == e.seed),
    ensures
        seq_escrow(s.push(e), maker, seed) == if e.maker == maker && e.seed == seed {
            Some(e)
        } else {
            seq_escrow(s, maker, seed)
        },
    decreases s.len(),
{
    if s.len() == 0 {
        assert(s.push(e)[0] == e);
        assert(s.push(e).drop_first() =~= Seq::<Escrow>::empty());
        assert(seq_escrow(Seq::<Escrow>::empty(), maker, seed) is None);
    } else {
        assert(s.push(e)[0] == s[0]);
        assert(s.push(e).drop_first() =~= s.drop_first().push(e));
        assert forall|k: int| 0 <= k < s.drop_first().len() implies !(#[trigger] s.drop_first()[k].maker
            == e.maker && s.drop_first()[k].seed == e.seed) by {
            assert(s.drop_first()[k] == s[k + 1]);
        }
        lemma_seq_escrow_push(s.drop_first(), e, maker, seed);
    }
}

/// Removing the record at index `i` deletes exactly its key.
proof fn lemma_seq_escrow_remove(s: Seq<Escrow>, i: int, maker: u64, seed: u64)
    requires
        distinct_escrow_keys(s),
        0 <= i < s.len(),
    ensures
        seq_escrow(s.remove(i), maker, seed) == if s[i].maker == maker && s[i].seed == seed {
            None::<Escrow>
        } else {
            seq_escrow(s, maker, seed)
        },
        distinct_escrow_keys(s.remove(i)),
    decreases s.len(),
{
    let s2 = s.remove(i);
    assert forall|x: int, y: int| 0 <= x < y < s2.len() implies !(#[trigger] s2[x].maker
        == #[trigger] s2[y].maker && s2[x].seed == s2[y].seed) by {
        let x0 = if x < i {
            x
        } else {
            x + 1
        };
        let y0 = if y < i {
            y
        } else {
            y + 1
        };
        assert(s2[x] == s[x0]);
        assert(s2[y] == s[y0]);
    }
    if i == 0 {
        assert(s2 =~= s.drop_first());
        if s[0].maker == maker && s[0].seed == seed {
            assert forall|k: int| 0 <= k < s.drop_first().len() implies !(#[trigger] s.drop_first()[k].maker
                == maker && s.drop_first()[k].seed == seed) by {
                assert(s.drop_first()[k] == s[k + 1]);
            }
            lemma_seq_escrow_no_match(s.drop_first(), maker, seed);
        }
    } else {
        assert(s2[0] == s[0]);
        assert(s2.drop_first() =~= s.drop_first().remove(i - 1));
        lemma_distinct_escrow_drop_first(s);
        assert(s.drop_first()[i - 1] == s[i]);
        lemma_seq_escrow_remove(s.drop_first(), i - 1, maker, seed);
    }
}

/// Namespace tag under which escrow addresses are derived.
pub open spec fn escrow_tag() -> Seq<u8> {
    seq![101u8, 115u8, 99u8, 114u8, 111u8, 119u8]
}

/// The byte string "escrow", the namespace tag of escrow addresses.
pub fn escrow_tag_vec() -> (r: Vec<u8>)
    ensures
        r@ == escrow_tag(),
{
    let mut v: Vec<u8> = Vec::new();
    v.push(101u8);
    v.push(115u8);
    v.push(99u8);
    v.push(114u8);
    v.push(111u8);
    v.push(119u8);
    proof {
        assert(v@ =~= escrow_tag());
    }
    v
}

/// Namespace tag under which vault addresses are derived.
pub open spec fn vault_tag() -> Seq<u8> {
    seq![118u8, 97u8, 117u8, 108u8, 116u8]
}

/// The byte string "vault", the namespace tag of vault addresses: deriving
/// with it and an escrow's own maker and seed yields the address of that
/// escrow's vault, so each is discoverable from the other.
pub fn vault_tag_vec() -> (r: Vec<u8>)
    ensures
        r@ == vault_tag(),
{
    let mut v: Vec<u8> = Vec::new();
    v.push(118u8);
    v.push(97u8);
    v.push(117u8);
    v.push(108u8);
    v.push(116u8);
    proof {
        assert(v@ =~= vault_tag());
    }
    v
}

/// The ledger, the open escrow records and the service's program identity.
pub struct World {
    ledger: Ledger,
    escrows: Vec<Escrow>,
    program_id: Vec<u8>,
}

impl World {
    /// Balance of holder `h` in asset `a`.
    pub closed spec fn bal(self, h: Holder, a: u64) -> u64 {
        self.ledger.bal(h, a)
    }

    /// Total supply of asset `a` across all holders.
    pub closed spec fn supply(self, a: u64) -> int {
        self.ledger.supply(a)
    }

    /// The open escrow keyed by `(maker, seed)`, if any.
    pub closed spec fn escrow_of(self, maker: u64, seed: u64) -> Option<Escrow> {
        seq_escrow(self.escrows@, maker, seed)
    }

    /// The 32-byte program identity addresses are derived under.
    pub closed spec fn pid(self) -> Seq<u8> {
        self.program_id@
    }

    /// Well-formedness: balances and escrow keys are unique, and a vault
    /// holds a positive balance only in the offered asset of its own open
    /// escrow — absent escrow means empty vault.
    pub closed spec fn wf(self) -> bool {
        &&& self.ledger.wf()
        &&& distinct_escrow_keys(self.escrows@)
        &&& self.program_id@.len() == 32
        &&& forall|m: u64, s: u64, a: u64|
            #[trigger] self.ledger.bal(Holder::Vault(m, s), a) > 0 ==> match seq_escrow(
                self.escrows@,
                m,
                s,
            ) {
                Some(e) => e.mint_a == a,
                None => false,
            }
    }

    /// Error `make` reports, or `None` when it is owed success: the address
    /// is occupied, no derivation salt exists, or the maker cannot cover the
    /// deposit.
    pub open spec fn make_err(self, maker: u64, seed: u64, mint_a: u64, deposit_amount: u64)
        -> Option<EscrowError> {
        if self.escrow_of(maker, seed) is Some {
            Some(EscrowError::AlreadyExists)
        } else if pda_of(derivation_seeds(escrow_tag(), maker, seed), self.pid()) is None {
            Some(EscrowError::AccountStateMismatch)
        } else if self.bal(Holder::User(maker), mint_a) < deposit_amount {
            Some(EscrowError::InsufficientFunds)
        } else {
            None
        }
    }

    /// Error `take` reports, or `None` when it is owed success: the escrow is
    /// missing, the taker cannot cover the requested amount, or a credited
    /// balance would overflow.
    pub open spec fn take_err(self, taker: u64, maker: u64, seed: u64) -> Option<EscrowError> {
        match self.escrow_of(maker, seed) {
            None => Some(EscrowError::NotFound),
            Some(e) => {
                let d = self.bal(Holder::Vault(maker, seed), e.mint_a);
                match can_transfer(
                    self.bal(Holder::User(taker), e.mint_b) as int,
                    self.bal(Holder::User(maker), e.mint_b) as int,
                    taker != maker,
                    e.receive_amount as int,
                ) {
                    Some(err) => Some(err),
                    None => {
                        let taker_a_after = self.bal(Holder::User(taker), e.mint_a)
                            + transfer_delta(
                            Holder::User(taker),
                            Holder::User(maker),
                            e.mint_b,
                            e.receive_amount,
                            Holder::User(taker),
                            e.mint_a,
                        );
                        // A vault and an external identity are never the
                        // same account, so the release is between distinct
                        // accounts and moves the vault's entire balance.
                        can_transfer(d as int, taker_a_after, true, d as int)
                    },
                }
            },
        }
    }

    /// Error `refund` reports, or `None` when it is owed success: the caller
    /// is not the maker, the escrow is missing, or returning the deposit
    /// would overflow the maker's balance.
    pub open spec fn refund_err(self, caller: u64, maker: u64, seed: u64) -> Option<EscrowError> {
        if caller != maker {
            Some(EscrowError::Unauthorized)
        } else {
            match self.escrow_of(maker, seed) {
                None => Some(EscrowError::NotFound),
                Some(e) => {
                    let d = self.bal(Holder::Vault(maker, seed), e.mint_a);
                    can_transfer(
                        d as int,
                        self.bal(Holder::User(maker), e.mint_a) as int,
                        true,
                        d as int,
                    )
                },
            }
        }
    }

    /// A fresh world under the given 32-byte program identity: no balances,
    /// no escrows.
    pub fn new(program_id: Vec<u8>) -> (r: World)
        requires
            program_id@.len() == 32,
        ensures
            r.wf(),
            r.pid() == program_id@,
            forall|h: Holder, a: u64| #[trigger] r.bal(h, a) == 0,
            forall|a: u64| #[trigger] r.supply(a) == 0,
            forall|m: u64, s: u64| #[trigger] r.escrow_of(m, s) is None,
    {
        let w = World { ledger: Ledger::new(), escrows: Vec::new(), program_id };
        proof {
            assert forall|m: u64, s: u64| #[trigger] w.escrow_of(m, s) is None by {
                lemma_seq_escrow_no_match(w.escrows@, m, s);
            }
        }
        w
    }

    /// Reads the balance of an external identity in asset `a`.
    pub fn balance(&self, owner: u64, asset: u64) -> (r: u64)
        requires
            self.wf(),
        ensures
            r == self.bal(Holder::User(owner), asset),
    {
        self.ledger.balance(Holder::User(owner), asset)
    }

    /// Reads the balance of the vault bound to the escrow of `(maker, seed)`.
    pub fn vault_balance(&self, maker: u64, seed: u64, asset: u64) -> (r: u64)
        requires
            self.wf(),
        ensures
            r == self.bal(Holder::Vault(maker, seed), asset),
    {
        self.ledger.balance(Holder::Vault(maker, seed), asset)
    }

    /// Whether the escrow keyed by `(maker, seed)` is open.
    pub fn escrow_exists(&self, maker: u64, seed: u64) -> (r: bool)
        requires
            self.wf(),
        ensures
            r == (self.escrow_of(maker, seed) is Some),
    {
        match find_escrow(&self.escrows, maker, seed) {
            Some(i) => {
                proof {
                    lemma_seq_escrow_at(self.escrows@, i as int, maker, seed);
                }
                true
            },
            None => {
                proof {
                    lemma_seq_escrow_no_match(self.escrows@, maker, seed);
                }
                false
            },
        }
    }

    /// The fields of the open escrow keyed by `(maker, seed)`, if any.
    pub fn get_escrow(&self, maker: u64, seed: u64) -> (r: Option<Escrow>)
        requires
            self.wf(),
        ensures
            r == self.escrow_of(maker, seed),
    {
        match find_escrow(&self.escrows, maker, seed) {
            Some(i) => {
                proof {
                    lemma_seq_escrow_at(self.escrows@, i as int, maker, seed);
                }
                Some(self.escrows[i])
            },
            None => {
                proof {
                    lemma_seq_escrow_no_match(self.escrows@, maker, seed);
                }
                None
            },
        }
    }
}

/// Index of the record for `(maker, seed)`, if one exists.
fn find_escrow(s: &Vec<Escrow>, maker: u64, seed: u64) -> (r: Option<usize>)
    ensures
        match r {
            Some(i) => i < s@.len() && s@[i as int].maker == maker && s@[i as int].seed == seed,
            None => forall|k: int|
                0 <= k < s@.len() ==> !(#[trigger] s@[k].maker == maker && s@[k].seed == seed),
        },
{
    let n = s.len();
    let mut i: usize = 0;
    while i < n
        invariant
            n == s@.len(),
            i <= n,
            forall|k: int| 0 <= k < i ==> !(#[trigger] s@[k].maker == maker && s@[k].seed == seed),
        decreases n - i,
    {
        if s[i].maker == maker && s[i].seed == seed {
            return Some(i);
        }
        i = i + 1;
    }
    None
}

/// Funds an external identity's account with freshly issued units of
/// `asset`: the one supply-changing operation, for setting up holdings.
pub fn fund(w: &mut World, owner: u64, asset: u64, amount: u64) -> (r: Result<(), EscrowError>)
    requires
        old(w).wf(),
    ensures
        final(w).wf(),
        final(w).pid() == old(w).pid(),
        forall|m: u64, s: u64| #[trigger] final(w).escrow_of(m, s) == old(w).escrow_of(m, s),
        if old(w).bal(Holder::User(owner), asset) + amount > u64::MAX {
            r == Err::<(), EscrowError>(EscrowError::ArithmeticOverflow) && *final(w) == *old(w)
        } else {
            r == Ok::<(), EscrowError>(()) && (forall|h2: Holder, a2: u64|
                #[trigger] final(w).bal(h2, a2) == old(w).bal(h2, a2) + (if h2 == Holder::User(
                    owner,
                ) && a2 == asset {
                    amount as int
                } else {
                    0
                })) && (forall|a2: u64|
                #[trigger] final(w).supply(a2) == old(w).supply(a2) + (if a2 == asset {
                    amount as int
                } else {
                    0
                }))
        },
{
    let r = w.ledger.credit(Holder::User(owner), asset, amount);
    match r {
        Err(e) => Err(e),
        Ok(()) => {
            proof {
                assert forall|m: u64, s: u64, a: u64|
                    #[trigger] w.ledger.bal(Holder::Vault(m, s), a) > 0 implies match seq_escrow(
                    w.escrows@,
                    m,
                    s,
                ) {
                    Some(e) => e.mint_a == a,
                    None => false,
                } by {
                    assert(w.ledger.bal(Holder::Vault(m, s), a) == old(w).ledger.bal(
                        Holder::Vault(m, s),
                        a,
                    ));
                }
            }
            Ok(())
        },
    }
}

/// Creates the escrow keyed by `(maker, seed)` and deposits `deposit_amount`
/// of `mint_a` from the maker into its vault, as one atomic unit: afterwards
/// the escrow and its funded vault both exist, or neither does and the named
/// error says why. The recorded salt is the one the address derivation
/// yields for this maker and seed.
pub fn make(
    w: &mut World,
    maker: u64,
    seed: u64,
    mint_a: u64,
    mint_b: u64,
    receive_amount: u64,
    deposit_amount: u64,
) -> (r: Result<(), EscrowError>)
    requires
        old(w).wf(),
    ensures
        final(w).wf(),
        final(w).pid() == old(w).pid(),
        forall|a: u64| #[trigger] final(w).supply(a) == old(w).supply(a),
        match old(w).make_err(maker, seed, mint_a, deposit_amount) {
            Some(e) => r == Err::<(), EscrowError>(e) && *final(w) == *old(w),
            None => {
                &&& r == Ok::<(), EscrowError>(())
                &&& pda_of(derivation_seeds(escrow_tag(), maker, seed), old(w).pid())
                    matches Some(p) && final(w).escrow_of(maker, seed) == Some(Escrow {
                    seed,
                    maker,
                    mint_a,
                    mint_b,
                    receive_amount,
                    bump: p.1,
                })
                &&& forall|m2: u64, s2: u64|
                    !(m2 == maker && s2 == seed) ==> #[trigger] final(w).escrow_of(m2, s2) == old(
                        w,
                    ).escrow_of(m2, s2)
                &&& forall|h2: Holder, a2: u64|
                    #[trigger] final(w).bal(h2, a2) == old(w).bal(h2, a2) + transfer_delta(
                        Holder::User(maker),
                        Holder::Vault(maker, seed),
                        mint_a,
                        deposit_amount,
                        h2,
                        a2,
                    )
                &&& final(w).bal(Holder::Vault(maker, seed), mint_a) == deposit_amount
            },
        },
{
    match find_escrow(&w.escrows, maker, seed) {
        Some(i) => {
            proof {
                lemma_seq_escrow_at(w.escrows@, i as int, maker, seed);
            }
            return Err(EscrowError::AlreadyExists);
        },
        None => {
            proof {
                lemma_seq_escrow_no_match(w.escrows@, maker, seed);
            }
        },
    }
    let pda = derive_address(escrow_tag_vec(), maker, seed, &w.program_id);
    let bump = match pda {
        None => {
            return Err(EscrowError::AccountStateMismatch);
        },
        Some(p) => p.1,
    };
    let vault = Holder::Vault(maker, seed);
    proof {
        assert(old(w).ledger.bal(vault, mint_a) == 0);
    }
    let r1 = w.ledger.transfer(Holder::User(maker), vault, mint_a, deposit_amount);
    match r1 {
        Err(e) => {
            return Err(e);
        },
        Ok(()) => {},
    }
    let ghost escrows0 = w.escrows@;
    let record = Escrow { seed, maker, mint_a, mint_b, receive_amount, bump };
    w.escrows.push(record);
    proof {
        assert forall|m2: u64, s2: u64| #[trigger] seq_escrow(w.escrows@, m2, s2) == (if m2 == maker
            && s2 == seed {
            Some(record)
        } else {
            seq_escrow(escrows0, m2, s2)
        }) by {
            lemma_seq_escrow_push(escrows0, record, m2, s2);
        }
        assert forall|x: int, y: int| 0 <= x < y < w.escrows@.len() implies !(
        #[trigger] w.escrows@[x].maker == #[trigger] w.escrows@[y].maker && w.escrows@[x].seed
            == w.escrows@[y].seed) by {
            if y == escrows0.len() {
                assert(w.escrows@[x] == escrows0[x]);
                assert(w.escrows@[y] == record);
                if escrows0[x].maker == maker && escrows0[x].seed == seed {
                    assert(false);
                }
            } else {
                assert(w.escrows@[x] == escrows0[x]);
                assert(w.escrows@[y] == escrows0[y]);
            }
        }
        assert forall|m: u64, s: u64, a: u64|
            #[trigger] w.ledger.bal(Holder::Vault(m, s), a) > 0 implies match seq_escrow(
            w.escrows@,
            m,
            s,
        ) {
            Some(e) => e.mint_a == a,
            None => false,
        } by {
            if m == maker && s == seed {
                if a != mint_a {
                    assert(old(w).ledger.bal(Holder::Vault(m, s), a) == 0);
                    assert(w.ledger.bal(Holder::Vault(m, s), a) == 0);
                }
            } else {
                assert(w.ledger.bal(Holder::Vault(m, s), a) == old(w).ledger.bal(
                    Holder::Vault(m, s),
                    a,
                ));
            }
        }
        assert(w.bal(Holder::Vault(maker, seed), mint_a) == deposit_amount);
    }
    Ok(())
}

/// Completes the escrow keyed by `(maker, seed)`: the taker pays the maker
/// the requested amount of `mint_b`, receives the vault's entire `mint_a`
/// balance, and the vault and escrow are closed — one atomic unit. The taker
/// never receives the vault's assets without the maker having been paid.
pub fn take(w: &mut World, taker: u64, maker: u64, seed: u64) -> (r: Result<(), EscrowError>)
    requires
        old(w).wf(),
    ensures
        final(w).wf(),
        final(w).pid() == old(w).pid(),
        forall|a: u64| #[trigger] final(w).supply(a) == old(w).supply(a),
        match old(w).take_err(taker, maker, seed) {
            Some(e) => r == Err::<(), EscrowError>(e) && *final(w) == *old(w),
            None => old(w).escrow_of(maker, seed) matches Some(e) && {
                let d = old(w).bal(Holder::Vault(maker, seed), e.mint_a);
                &&& r == Ok::<(), EscrowError>(())
                &&& final(w).escrow_of(maker, seed) is None
                &&& forall|m2: u64, s2: u64|
                    !(m2 == maker && s2 == seed) ==> #[trigger] final(w).escrow_of(m2, s2) == old(
                        w,
                    ).escrow_of(m2, s2)
                &&& forall|h2: Holder, a2: u64|
                    #[trigger] final(w).bal(h2, a2) == old(w).bal(h2, a2) + transfer_delta(
                        Holder::User(taker),
                        Holder::User(maker),
                        e.mint_b,
                        e.receive_amount,
                        h2,
                        a2,
                    ) + transfer_delta(
                        Holder::Vault(maker, seed),
                        Holder::User(taker),
                        e.mint_a,
                        d,
                        h2,
                        a2,
                    )
                &&& forall|a: u64| #[trigger] final(w).bal(Holder::Vault(maker, seed), a) == 0
            },
        },
{
    let i = match find_escrow(&w.escrows, maker, seed) {
        None => {
            proof {
                lemma_seq_escrow_no_match(w.escrows@, maker, seed);
            }
            return Err(EscrowError::NotFound);
        },
        Some(i) => {
            proof {
                lemma_seq_escrow_at(w.escrows@, i as int, maker, seed);
            }
            i
        },
    };
    let e = w.escrows[i];
    let vault = Holder::Vault(maker, seed);
    let d = w.ledger.balance(vault, e.mint_a);
    let tb = w.ledger.balance(Holder::User(taker), e.mint_b);
    if tb < e.receive_amount {
        return Err(EscrowError::InsufficientFunds);
    }
    if taker != maker {
        let mb = w.ledger.balance(Holder::User(maker), e.mint_b);
        if e.receive_amount > u64::MAX - mb {
            return Err(EscrowError::ArithmeticOverflow);
        }
    }
    let ta = w.ledger.balance(Holder::User(taker), e.mint_a);
    let taker_a_after = if e.mint_a == e.mint_b && taker != maker {
        ta - e.receive_amount
    } else {
        ta
    };
    if d > u64::MAX - taker_a_after {
        return Err(EscrowError::ArithmeticOverflow);
    }
    let r1 = w.ledger.transfer(Holder::User(taker), Holder::User(maker), e.mint_b, e.receive_amount);
    proof {
        assert(r1 is Ok);
    }
    let r2 = w.ledger.transfer(vault, Holder::User(taker), e.mint_a, d);
    proof {
        assert(r2 is Ok);
    }
    let ghost escrows0 = w.escrows@;
    w.escrows.remove(i);
    proof {
        assert forall|m2: u64, s2: u64| #[trigger] seq_escrow(w.escrows@, m2, s2) == (if m2 == maker
            && s2 == seed {
            None::<Escrow>
        } else {
            seq_escrow(escrows0, m2, s2)
        }) by {
            lemma_seq_escrow_remove(escrows0, i as int, m2, s2);
        }
        lemma_seq_escrow_remove(escrows0, i as int, maker, seed);
        assert forall|a: u64| #[trigger] w.bal(Holder::Vault(maker, seed), a) == 0 by {
            if a == e.mint_a {
            } else {
                assert(old(w).ledger.bal(Holder::Vault(maker, seed), a) > 0 ==> false);
            }
        }
        assert forall|m: u64, s: u64, a: u64|
            #[trigger] w.ledger.bal(Holder::Vault(m, s), a) > 0 implies match seq_escrow(
            w.escrows@,
            m,
            s,
        ) {
            Some(e2) => e2.mint_a == a,
            None => false,
        } by {
            if m == maker && s == seed {
                assert(w.bal(Holder::Vault(maker, seed), a) == 0);
            } else {
                assert(w.ledger.bal(Holder::Vault(m, s), a) == old(w).ledger.bal(
                    Holder::Vault(m, s),
                    a,
                ));
            }
        }
    }
    Ok(())
}

/// Cancels the escrow keyed by `(maker, seed)`: permitted only for the
/// recorded maker, who gets the vault's entire balance back; the vault and
/// escrow are closed — one atomic unit. Available indefinitely until a take
/// has resolved the escrow.
pub fn refund(w: &mut World, caller: u64, maker: u64, seed: u64) -> (r: Result<(), EscrowError>)
    requires
        old(w).wf(),
    ensures
        final(w).wf(),
        final(w).pid() == old(w).pid(),
        forall|a: u64| #[trigger] final(w).supply(a) == old(w).supply(a),
        match old(w).refund_err(caller, maker, seed) {
            Some(e) => r == Err::<(), EscrowError>(e) && *final(w) == *old(w),
            None => old(w).escrow_of(maker, seed) matches Some(e) && {
                let d = old(w).bal(Holder::Vault(maker, seed), e.mint_a);
                &&& r == Ok::<(), EscrowError>(())
                &&& final(w).escrow_of(maker, seed) is None
                &&& forall|m2: u64, s2: u64|
                    !(m2 == maker && s2 == seed) ==> #[trigger] final(w).escrow_of(m2, s2) == old(
                        w,
                    ).escrow_of(m2, s2)
                &&& forall|h2: Holder, a2: u64|
                    #[trigger] final(w).bal(h2, a2) == old(w).bal(h2, a2) + transfer_delta(
                        Holder::Vault(maker, seed),
                        Holder::User(maker),
                        e.mint_a,
                        d,
                        h2,
                        a2,
                    )
                &&& forall|a: u64| #[trigger] final(w).bal(Holder::Vault(maker, seed), a) == 0
            },
        },
{
    if caller != maker {
        return Err(EscrowError::Unauthorized);
    }
    let i = match find_escrow(&w.escrows, maker, seed) {
        None => {
            proof {
                lemma_seq_escrow_no_match(w.escrows@, maker, seed);
            }
            return Err(EscrowError::NotFound);
        },
        Some(i) => {
            proof {
                lemma_seq_escrow_at(w.escrows@, i as int, maker, seed);
            }
            i
        },
    };
    let e = w.escrows[i];
    let vault = Holder::Vault(maker, seed);
    let d = w.ledger.balance(vault, e.mint_a);
    let mb = w.ledger.balance(Holder::User(maker), e.mint_a);
    if d > u64::MAX - mb {
        return Err(EscrowError::ArithmeticOverflow);
    }
    let r1 = w.ledger.transfer(vault, Holder::User(maker), e.mint_a, d);
    proof {
        assert(r1 is Ok);
    }
    let ghost escrows0 = w.escrows@;
    w.escrows.remove(i);
    proof {
        assert forall|m2: u64, s2: u64| #[trigger] seq_escrow(w.escrows@, m2, s2) == (if m2 == maker
            && s2 == seed {
            None::<Escrow>
        } else {
            seq_escrow(escrows0, m2, s2)
        }) by {
            lemma_seq_escrow_remove(escrows0, i as int, m2, s2);
        }
        assert forall|a: u64| #[trigger] w.bal(Holder::Vault(maker, seed), a) == 0 by {
            if a == e.mint_a {
            } else {
                assert(old(w).ledger.bal(Holder::Vault(maker, seed), a) > 0 ==> false);
            }
        }
        assert forall|m: u64, s: u64, a: u64|
            #[trigger] w.ledger.bal(Holder::Vault(m, s), a) > 0 implies match seq_escrow(
            w.escrows@,
            m,
            s,
        ) {
            Some(e2) => e2.mint_a == a,
            None => false,
        } by {
            if m == maker && s == seed {
                assert(w.bal(Holder::Vault(maker, seed), a) == 0);
            } else {
                assert(w.ledger.bal(Holder::Vault(m, s), a) == old(w).ledger.bal(
                    Holder::Vault(m, s),
                    a,
                ));
            }
        }
    }
    Ok(())
}

/// Single resolution: once an escrow is absent — resolved by the one take or
/// refund that succeeded, or never created — every further take fails with
/// `NotFound`, and so does every refund by the maker.
pub proof fn lemma_single_resolution(w: World, taker: u64, maker: u64, seed: u64)
    requires
        w.escrow_of(maker, seed) is None,
    ensures
        w.take_err(taker, maker, seed) == Some(EscrowError::NotFound),
        w.refund_err(maker, maker, seed) == Some(EscrowError::NotFound),
{
}

/// Authorization: a refund invoked by any identity other than the recorded
/// maker fails with `Unauthorized`, regardless of the escrow's state.
pub proof fn lemma_refund_authorization(w: World, caller: u64, maker: u64, seed: u64)
    requires
        caller != maker,
    ensures
        w.refund_err(caller, maker, seed) == Some(EscrowError::Unauthorized),
{
}

} // verus!

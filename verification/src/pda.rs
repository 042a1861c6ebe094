//! Deterministic address derivation.
//!
//! An escrow's storage address and its vault's address are derived from a
//! namespace tag, the owner identity and a caller-chosen seed, through the
//! program-derived-address scheme of the underlying ledger: identical inputs
//! always yield the identical 32-byte address, and the search also yields the
//! salt (bump) under which the derivation succeeded, recorded so the address
//! can be reconstructed without searching.

use vstd::prelude::*;

use vstd::bytes::u64_to_le_bytes;
use vstd::bytes::spec_u64_to_le_bytes;

verus! {

/// Address and bump that the program-derived-address search yields for these
/// seeds and this program id, or `None` when the search finds none.
pub uninterp spec fn pda_of(seeds: Seq<Seq<u8>>, program_id: Seq<u8>) -> Option<(Seq<u8>, u8)>;

/// Relies on `anchor_lang::prelude::Pubkey::try_find_program_address`: the
/// derived address and bump seed are a function of the seeds and the program
/// id alone, and a derived address is 32 bytes.
#[verifier::external_body]
fn try_find_program_address(seeds: &Vec<Vec<u8>>, program_id: &Vec<u8>) -> (r: Option<
    (Vec<u8>, u8),
>)
    requires
        program_id@.len() == 32,
    ensures
        match r {
            Some(p) => pda_of(seeds@.map_values(|s: Vec<u8>| s@), program_id@) == Some((p.0@, p.1))
                && p.0@.len() == 32,
            None => pda_of(seeds@.map_values(|s: Vec<u8>| s@), program_id@) is None,
        },
{
    let seed_slices: Vec<&[u8]> = seeds.iter().map(|s| s.as_slice()).collect();
    let pid = anchor_lang::prelude::Pubkey::new_from_array(
        program_id.as_slice().try_into().unwrap(),
    );
    anchor_lang::prelude::Pubkey::try_find_program_address(&seed_slices, &pid).map(
        |p: (anchor_lang::prelude::Pubkey, u8)| (p.0.to_bytes().to_vec(), p.1),
    )
}

/// The seed sequence `[tag, owner, seed]` a derivation is made from, with the
/// two integers in little-endian bytes.
pub open spec fn derivation_seeds(tag: Seq<u8>, owner: u64, seed: u64) -> Seq<Seq<u8>> {
    seq![tag, spec_u64_to_le_bytes(owner), spec_u64_to_le_bytes(seed)]
}

/// Derives the deterministic address for a namespace tag, an owner identity
/// and a caller-chosen seed: identical inputs always yield the identical
/// address and salt. `None` only in the statistically improbable event that
/// the underlying search finds no viable salt.
pub fn derive_address(tag: Vec<u8>, owner: u64, seed: u64, program_id: &Vec<u8>) -> (r: Option<
    (Vec<u8>, u8),
>)
    requires
        program_id@.len() == 32,
    ensures
        match r {
            Some(p) => pda_of(derivation_seeds(tag@, owner, seed), program_id@) == Some((
                p.0@,
                p.1,
            )) && p.0@.len() == 32,
            None => pda_of(derivation_seeds(tag@, owner, seed), program_id@) is None,
        },
{
    let ghost tag_view = tag@;
    let mut seeds: Vec<Vec<u8>> = Vec::new();
    seeds.push(tag);
    seeds.push(u64_to_le_bytes(owner));
    seeds.push(u64_to_le_bytes(seed));
    proof {
        assert(seeds@.map_values(|s: Vec<u8>| s@) =~= derivation_seeds(tag_view, owner, seed));
    }
    try_find_program_address(&seeds, program_id)
}

} // verus!

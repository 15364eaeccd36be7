use vstd::prelude::*;

use crate::pubkey::Pubkey;
use squads_multisig_program::anchor_lang::solana_program::pubkey::Pubkey as ChainPubkey;

verus! {

/// The program-derived address and bump seed that the chain's address
/// derivation finds for `seeds` under `program_id`, if it finds one.
pub uninterp spec fn derived_address(seeds: Seq<Seq<u8>>, program_id: Pubkey) -> Option<(Pubkey, u8)>;

/// Relies on solana_program's `Pubkey::try_find_program_address`: a pure
/// function of the seeds and the program id; `None` where no bump seed gives
/// an address off the curve.
#[verifier::external_body]
fn find_address(seeds: &Vec<Vec<u8>>, program_id: &Pubkey) -> (r: Option<(Pubkey, u8)>)
    ensures
        r == derived_address(seeds@.map_values(|s: Vec<u8>| s@), *program_id),
{
    let mut b = [0u8; 32];
    b[..16].copy_from_slice(&program_id.hi.to_be_bytes());
    b[16..].copy_from_slice(&program_id.lo.to_be_bytes());
    let s: std::vec::Vec<&[u8]> = seeds.iter().map(|x| x.as_slice()).collect();
    ChainPubkey::try_find_program_address(&s, &ChainPubkey::new_from_array(b)).map(|(k, bump)| {
        let a = k.to_bytes();
        let hi = u128::from_be_bytes(a[..16].try_into().unwrap());
        (Pubkey { hi, lo: u128::from_be_bytes(a[16..].try_into().unwrap()) }, bump)
    })
}

/// The address the multisig program is deployed at,
/// `SQDS4ep65T869zMMBKyuUq6aD6EgTu8psMjkvj52pCf`, as two big-endian halves.
pub open spec fn program_key() -> Pubkey {
    Pubkey { hi: 8649165964991101814505116735212334857u128, lo: 62455522140793367951419735353813940136u128 }
}

/// Relies on `squads_multisig_program::ID`, declared as
/// `SQDS4ep65T869zMMBKyuUq6aD6EgTu8psMjkvj52pCf` (without the crate's
/// `testing` feature, which is not enabled here).
#[verifier::external_body]
fn multisig_program_id() -> (r: Pubkey)
    ensures
        r == program_key(),
{
    let a = squads_multisig_program::ID.to_bytes();
    let hi = u128::from_be_bytes(a[..16].try_into().unwrap());
    Pubkey { hi, lo: u128::from_be_bytes(a[16..].try_into().unwrap()) }
}

/// The seed that starts every address of the multisig program.
pub open spec fn seed_prefix() -> Seq<u8> {
    seq![109u8, 117, 108, 116, 105, 115, 105, 103]
}

/// The seed of the program's global configuration account.
pub open spec fn seed_program_config() -> Seq<u8> {
    seq![112u8, 114, 111, 103, 114, 97, 109, 95, 99, 111, 110, 102, 105, 103]
}

/// The seed of a multisig account.
pub open spec fn seed_multisig() -> Seq<u8> {
    seq![109u8, 117, 108, 116, 105, 115, 105, 103]
}

/// Relies on `squads_multisig_program::SEED_PREFIX`, `b"multisig"`.
#[verifier::external_body]
fn prefix_seed() -> (r: Vec<u8>)
    ensures
        r@ == seed_prefix(),
{
    squads_multisig_program::SEED_PREFIX.to_vec()
}

/// Relies on `squads_multisig_program::SEED_PROGRAM_CONFIG`,
/// `b"program_config"`.
#[verifier::external_body]
fn program_config_seed() -> (r: Vec<u8>)
    ensures
        r@ == seed_program_config(),
{
    squads_multisig_program::SEED_PROGRAM_CONFIG.to_vec()
}

/// Relies on `squads_multisig_program::SEED_MULTISIG`, `b"multisig"`.
#[verifier::external_body]
fn multisig_seed() -> (r: Vec<u8>)
    ensures
        r@ == seed_multisig(),
{
    squads_multisig_program::SEED_MULTISIG.to_vec()
}

/// The seeds of the program's configuration account.
pub open spec fn program_config_seeds() -> Seq<Seq<u8>> {
    seq![seed_prefix(), seed_program_config()]
}

/// The seeds of the multisig account created with `create_key`.
pub open spec fn multisig_seeds(create_key: Pubkey) -> Seq<Seq<u8>> {
    seq![seed_prefix(), seed_multisig(), create_key.bytes()]
}

/// The address of the multisig program's global configuration account under
/// `program_id`, or under the deployed program when none is given; `None`
/// where derivation finds no address.
pub fn get_program_config_pda(program_id: Option<&Pubkey>) -> (r: Option<(Pubkey, u8)>)
    ensures
        program_id is Some ==> r == derived_address(program_config_seeds(), *program_id->0),
        program_id is None ==> r == derived_address(program_config_seeds(), program_key()),
{
    let pid = match program_id {
        Some(p) => *p,
        None => multisig_program_id(),
    };
    let seeds = vec![prefix_seed(), program_config_seed()];
    proof {
        assert(seeds@.map_values(|s: Vec<u8>| s@) =~= program_config_seeds());
    }
    find_address(&seeds, &pid)
}

/// The address of the multisig account created with `create_key`, under
/// `program_id` or the deployed program; `None` where derivation finds no
/// address.
pub fn get_multisig_pda(create_key: &Pubkey, program_id: Option<&Pubkey>) -> (r: Option<(Pubkey, u8)>)
    ensures
        program_id is Some ==> r == derived_address(multisig_seeds(*create_key), *program_id->0),
        program_id is None ==> r == derived_address(multisig_seeds(*create_key), program_key()),
{
    let pid = match program_id {
        Some(p) => *p,
        None => multisig_program_id(),
    };
    let seeds = vec![prefix_seed(), multisig_seed(), create_key.to_bytes()];
    proof {
        assert(seeds@.map_values(|s: Vec<u8>| s@) =~= multisig_seeds(*create_key));
    }
    find_address(&seeds, &pid)
}

} // verus!

use anchor_lang::prelude::Pubkey;
use vstd::prelude::*;
use vstd::string::*;
use vstd::utf8::encode_utf8;

use crate::error::ErrorCode;

verus! {

/// The longest seed, in bytes, from which an address can be derived. A
/// symbol is one seed, so this bounds the symbol's length.
pub const MAX_SEED_LEN: usize = 32;

/// Whether two keys hold the same bytes.
pub fn same_key(a: &[u8; 32], b: &[u8; 32]) -> (same: bool)
    ensures
        same == (a@ == b@),
        same == (*a == *b),
{
    let mut i: usize = 0;
    while i < 32
        invariant
            i <= 32,
            forall|k: int| 0 <= k < i ==> a@[k] == b@[k],
        decreases 32 - i,
    {
        if a[i] != b[i] {
            return false;
        }
        i += 1;
    }
    assert(a@ =~= b@);
    assert(*a =~= *b);
    true
}

/// The domain tag: the first seed of every record address.
pub open spec fn seed_prefix() -> Seq<u8> {
    "prediction".spec_bytes()
}

/// What `Pubkey::try_find_program_address` returns for the three seeds
/// `prefix`, `owner` and `symbol` under the program `program_id`: the
/// address and the bump seed that produced it, or `None` when the search
/// finds no address.
pub uninterp spec fn program_address(
    prefix: Seq<u8>,
    owner: Seq<u8>,
    symbol: Seq<u8>,
    program_id: Seq<u8>,
) -> Option<(Seq<u8>, u8)>;

/// Calls `Pubkey::try_find_program_address` with the seeds `prefix`, `owner`
/// and `symbol`, in this order, under the program `program_id`. The result
/// depends on these four byte strings alone; the contract claims no more
/// than that, and gives the result its name.
#[verifier::external_body]
fn find_program_address(
    prefix: &[u8],
    owner: &[u8; 32],
    symbol: &[u8],
    program_id: &[u8; 32],
) -> (found: Option<([u8; 32], u8)>)
    ensures
        found is Some <==> program_address(prefix@, owner@, symbol@, program_id@) is Some,
        found matches Some(pair) ==> program_address(prefix@, owner@, symbol@, program_id@)
            == Some((pair.0@, pair.1)),
{
    let program = Pubkey::new_from_array(*program_id);
    match Pubkey::try_find_program_address(&[prefix, owner, symbol], &program) {
        Some((address, bump)) => Some((address.to_bytes(), bump)),
        None => None,
    }
}

/// The address of the record that `owner` keeps under `symbol`, with its
/// bump seed. A symbol longer than `MAX_SEED_LEN` bytes has no address.
pub open spec fn derived_address(program_id: Seq<u8>, owner: Seq<u8>, symbol: Seq<char>) -> Result<
    (Seq<u8>, u8),
    ErrorCode,
> {
    let seed = encode_utf8(symbol);
    if seed.len() > MAX_SEED_LEN {
        Err(ErrorCode::DerivationExhausted)
    } else {
        match program_address(seed_prefix(), owner, seed, program_id) {
            Some(pair) => Ok(pair),
            None => Err(ErrorCode::DerivationExhausted),
        }
    }
}

/// Whether `r` is what the derivation for `owner` and `symbol` under
/// `program_id` gives.
pub open spec fn derives(
    program_id: [u8; 32],
    owner: [u8; 32],
    symbol: Seq<char>,
    r: Result<([u8; 32], u8), ErrorCode>,
) -> bool {
    match derived_address(program_id@, owner@, symbol) {
        Ok(pair) => r matches Ok(found) && found.0@ == pair.0 && found.1 == pair.1,
        Err(e) => r == Err::<([u8; 32], u8), ErrorCode>(e),
    }
}

/// Derives the address of the record that `owner` keeps under `symbol`, and
/// the bump seed that goes with it.
pub fn derive_address(program_id: &[u8; 32], owner: &[u8; 32], symbol: &str) -> (r: Result<
    ([u8; 32], u8),
    ErrorCode,
>)
    ensures
        derives(*program_id, *owner, symbol@, r),
{
    let seed = symbol.as_bytes();
    if seed.len() > MAX_SEED_LEN {
        return Err(ErrorCode::DerivationExhausted);
    }
    match find_program_address("prediction".as_bytes(), owner, seed, program_id) {
        Some(found) => Ok(found),
        None => Err(ErrorCode::DerivationExhausted),
    }
}

/// Derivation is deterministic: whatever two derivations for the same
/// program, owner and symbol give, they give the same address and the same
/// bump seed, or both fail.
pub proof fn derivation_is_deterministic(
    program_id: [u8; 32],
    owner: [u8; 32],
    symbol: Seq<char>,
    first: Result<([u8; 32], u8), ErrorCode>,
    second: Result<([u8; 32], u8), ErrorCode>,
)
    requires
        derives(program_id, owner, symbol, first),
        derives(program_id, owner, symbol, second),
    ensures
        first == second,
{
    match (first, second) {
        (Ok(a), Ok(b)) => {
            assert(a.0 =~= b.0);
        },
        _ => {},
    }
}

} // verus!

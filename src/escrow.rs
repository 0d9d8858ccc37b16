use vstd::prelude::*;
use crate::types::{AccountId, InvestmentId};

verus! {

/// What `sp_core_hashing::blake2_256` returns for the given bytes.
pub uninterp spec fn blake2_256_of(data: Seq<u8>) -> Seq<u8>;

/// The namespace under which escrow accounts are derived: the bytes of
/// `deip/investments/`.
pub open spec fn escrow_prefix() -> Seq<u8> {
    seq![100u8, 101, 105, 112, 47, 105, 110, 118, 101, 115, 116, 109, 101, 110, 116, 115, 47]
}

/// SCALE encoding of the pair (fixed-size prefix, byte slice of the identifier): the prefix
/// as it is, the identifier's length in compact form (one byte, `len << 2`, below 64), then
/// the identifier.
pub open spec fn escrow_seed(id: Seq<u8>) -> Seq<u8> {
    escrow_prefix() + seq![(id.len() * 4) as u8] + id
}

/// The unsigned number whose little-endian bytes are `s`.
pub open spec fn le_value(s: Seq<u8>) -> nat
    decreases s.len(),
{
    if s.len() == 0 {
        0
    } else {
        s[0] as nat + 256 * le_value(s.drop_first())
    }
}

/// The escrow account of the opportunity `id`: the first eight bytes of the BLAKE2b-256
/// digest of its seed, read as a little-endian `u64`.
pub open spec fn escrow_of(id: Seq<u8>) -> AccountId {
    le_value(blake2_256_of(escrow_seed(id)).take(8)) as AccountId
}

/// Relies on parity_scale_codec's `Encode` for a tuple of a byte array and a byte slice:
/// the array's bytes, then the slice's length as a compact integer, then the slice's bytes.
#[verifier::external_body]
fn scale_encode_pair(head: &[u8; 17], tail: &[u8; 20]) -> (r: Vec<u8>)
    ensures
        r@ == head@ + seq![(tail@.len() * 4) as u8] + tail@,
{
    parity_scale_codec::Encode::encode(&(head, &tail[..]))
}

/// Relies on sp_core_hashing::blake2_256: the digest depends on the bytes alone.
#[verifier::external_body]
fn blake2_256(data: &Vec<u8>) -> (r: [u8; 32])
    ensures
        r@ == blake2_256_of(data@),
{
    sp_core_hashing::blake2_256(data.as_slice())
}

/// Relies on parity_scale_codec's `Decode` for `u64`: the first eight bytes, little-endian.
#[verifier::external_body]
fn decode_u64(bytes: &[u8; 32]) -> (r: u64)
    ensures
        r == le_value(bytes@.take(8)),
{
    <u64 as parity_scale_codec::Decode>::decode(&mut &bytes[..]).unwrap_or_default()
}

/// The escrow account of the investment opportunity `id`, derived and never stored.
pub fn investment_account(id: &InvestmentId) -> (r: AccountId)
    ensures
        r == escrow_of(id@),
{
    let prefix: [u8; 17] = [100, 101, 105, 112, 47, 105, 110, 118, 101, 115, 116, 109, 101, 110, 116, 115, 47];
    assert(prefix@ =~= escrow_prefix());
    let seed = scale_encode_pair(&prefix, id);
    let digest = blake2_256(&seed);
    decode_u64(&digest)
}

/// Whether two opportunity identifiers are the same.
pub fn same_id(a: &InvestmentId, b: &InvestmentId) -> (r: bool)
    ensures
        r == (a@ == b@),
{
    let mut i: usize = 0;
    while i < 20
        invariant
            i <= 20,
            a@.len() == 20,
            b@.len() == 20,
            forall|j: int| 0 <= j < i ==> a@[j] == b@[j],
        decreases 20 - i,
    {
        if a[i] != b[i] {
            return false;
        }
        i = i + 1;
    }
    assert(a@ =~= b@);
    true
}

} // verus!

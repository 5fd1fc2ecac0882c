//! Derivation of a fresh ledger subaccount from a caller and a timestamp.
use vstd::prelude::*;

verus! {

/// The SHA-256 digest of `data`.
pub uninterp spec fn sha256_of(data: Seq<u8>) -> Seq<u8>;

/// Relies on `sha2::Sha256` through `digest::Digest::digest`: the SHA-256
/// digest of `data`, whose output size is 32 bytes.
#[verifier::external_body]
fn sha256(data: &Vec<u8>) -> (r: Vec<u8>)
    ensures
        r@ == sha256_of(data@),
        r@.len() == 32,
{
    <sha2::Sha256 as sha2::Digest>::digest(data.as_slice()).to_vec()
}

/// The eight bytes of `x`, most significant first.
pub open spec fn be_bytes(x: u64) -> Seq<u8> {
    seq![
        ((x / 0x100_0000_0000_0000) % 256) as u8,
        ((x / 0x1_0000_0000_0000) % 256) as u8,
        ((x / 0x100_0000_0000) % 256) as u8,
        ((x / 0x1_0000_0000) % 256) as u8,
        ((x / 0x100_0000) % 256) as u8,
        ((x / 0x1_0000) % 256) as u8,
        ((x / 0x100) % 256) as u8,
        (x % 256) as u8,
    ]
}

fn push_be_bytes(out: &mut Vec<u8>, x: u64)
    ensures
        final(out)@ == old(out)@ + be_bytes(x),
{
    out.push(((x / 0x100_0000_0000_0000) % 256) as u8);
    out.push(((x / 0x1_0000_0000_0000) % 256) as u8);
    out.push(((x / 0x100_0000_0000) % 256) as u8);
    out.push(((x / 0x1_0000_0000) % 256) as u8);
    out.push(((x / 0x100_0000) % 256) as u8);
    out.push(((x / 0x1_0000) % 256) as u8);
    out.push(((x / 0x100) % 256) as u8);
    out.push((x % 256) as u8);
    assert(out@ =~= old(out)@ + be_bytes(x));
}

/// The bytes hashed into a subaccount: the caller's textual id, the time,
/// and the time's last six decimal digits, each integer as eight big-endian
/// bytes.
pub open spec fn subaccount_seed(caller_text: Seq<u8>, now: u64) -> Seq<u8> {
    caller_text + be_bytes(now) + be_bytes((now % 1_000_000) as u64)
}

pub fn seed_bytes(caller_text: &Vec<u8>, now: u64) -> (r: Vec<u8>)
    ensures
        r@ == subaccount_seed(caller_text@, now),
{
    let mut out: Vec<u8> = Vec::new();
    let mut i: usize = 0;
    while i < caller_text.len()
        invariant
            i <= caller_text.len(),
            out@ == caller_text@.take(i as int),
        decreases caller_text.len() - i,
    {
        out.push(caller_text[i]);
        i = i + 1;
        assert(out@ =~= caller_text@.take(i as int));
    }
    assert(caller_text@.take(i as int) =~= caller_text@);
    push_be_bytes(&mut out, now);
    push_be_bytes(&mut out, now % 1_000_000);
    out
}

/// A 32-byte subaccount for `caller_text` (the caller's textual id, as
/// bytes) at time `now`: the SHA-256 digest of their seed.
pub fn generate_random_subaccount(caller_text: &Vec<u8>, now: u64) -> (r: Vec<u8>)
    ensures
        r@ == sha256_of(subaccount_seed(caller_text@, now)),
        r@.len() == 32,
{
    let seed = seed_bytes(caller_text, now);
    sha256(&seed)
}

} // verus!

//! xxh3-128 digests of pulled files, for integrity tracking.
use vstd::prelude::*;
use xxhash_rust::xxh3::Xxh3;
use crate::num::{pad_left, pad_left_exec, radix_digits, radix_digits_exec};
use crate::text::string_of;

verus! {

/// `xxhash_rust::xxh3::Xxh3`, the streaming XXH3 hasher.
#[verifier::external_type_specification]
#[verifier::external_body]
pub struct ExXxh3(Xxh3);

/// The bytes that an `Xxh3` hasher has consumed since it was created.
pub uninterp spec fn xxh3_fed(h: Xxh3) -> Seq<u8>;

/// The 128-bit XXH3 digest (default seed and secret) of a byte sequence.
pub uninterp spec fn xxh3_digest(data: Seq<u8>) -> u128;

/// Whether a hasher runs with the default seed and secret (as `Xxh3::new`
/// makes it), rather than one made by `with_seed` or `with_secret`.
pub uninterp spec fn xxh3_default(h: Xxh3) -> bool;

/// `Xxh3::new`: a hasher with the default seed and secret that has consumed
/// nothing.
#[verifier::external_body]
fn xxh3_new() -> (h: Xxh3)
    ensures
        xxh3_fed(h) == Seq::<u8>::empty(),
        xxh3_default(h),
{
    Xxh3::new()
}

/// `Xxh3::update`: the hasher consumes `input` after what it consumed
/// before, and keeps its seed and secret.
#[verifier::external_body]
fn xxh3_update(h: &mut Xxh3, input: &[u8])
    ensures
        xxh3_fed(*final(h)) == xxh3_fed(*old(h)) + input@,
        xxh3_default(*final(h)) == xxh3_default(*old(h)),
{
    h.update(input)
}

/// `Xxh3::digest128`: for a hasher with the default seed and secret, the
/// 128-bit digest of everything consumed. The contract claims that it then
/// depends on the consumed bytes alone, not on how they were split into
/// `update` calls (the XXH3 streaming design).
#[verifier::external_body]
fn xxh3_digest128(h: &Xxh3) -> (d: u128)
    requires
        xxh3_default(*h),
    ensures
        d == xxh3_digest(xxh3_fed(*h)),
{
    h.digest128()
}

/// The text form of a digest: lower-case hex, zero-padded to 32 digits.
pub open spec fn digest_hex(d: u128) -> Seq<char> {
    pad_left(radix_digits(d as nat, 16), 32, '0')
}

/// Hashes a file's bytes as they are read, chunk by chunk.
pub struct FileHasher {
    hasher: Xxh3,
}

impl FileHasher {
    /// The hasher runs with the default seed and secret.
    #[verifier::type_invariant]
    spec fn default_seeded(self) -> bool {
        xxh3_default(self.hasher)
    }

    /// The bytes hashed so far.
    pub closed spec fn fed(&self) -> Seq<u8> {
        xxh3_fed(self.hasher)
    }

    /// A hasher that has hashed nothing.
    pub fn new() -> (h: Self)
        ensures
            h.fed() == Seq::<u8>::empty(),
    {
        FileHasher { hasher: xxh3_new() }
    }

    /// Hashes the next chunk.
    pub fn update(&mut self, chunk: &[u8])
        ensures
            final(self).fed() == old(self).fed() + chunk@,
    {
        proof {
            use_type_invariant(&*self);
        }
        let mut h = xxh3_new();
        std::mem::swap(&mut h, &mut self.hasher);
        xxh3_update(&mut h, chunk);
        self.hasher = h;
    }

    /// The xxh3-128 digest of the bytes hashed so far, as 32 hex digits.
    pub fn hex_digest(&self) -> (s: String)
        ensures
            s@ == digest_hex(xxh3_digest(self.fed())),
            s@.len() == 32,
    {
        proof {
            use_type_invariant(self);
            lemma_digest_hex_width(xxh3_digest(self.fed()));
        }
        let d = xxh3_digest128(&self.hasher);
        let digits = radix_digits_exec(d, 16);
        string_of(&pad_left_exec(digits, 32, '0'))
    }
}

/// `16` to the power `k`.
pub open spec fn hex_limit(k: nat) -> nat
    decreases k,
{
    if k == 0 {
        1
    } else {
        16 * hex_limit((k - 1) as nat)
    }
}

/// A number below `16` to the power `k` has at most `k` hex digits.
proof fn lemma_hex_digits_fit(n: nat, k: nat)
    requires
        1 <= k,
        n < hex_limit(k),
    ensures
        radix_digits(n, 16).len() <= k,
    decreases k,
{
    if n >= 16 {
        let below = hex_limit((k - 1) as nat);
        assert(k >= 2);
        assert(n / 16 < below) by (nonlinear_arith)
            requires
                n < 16 * below,
        ;
        lemma_hex_digits_fit(n / 16, (k - 1) as nat);
    }
}

/// The text of a digest has exactly 32 hex digits.
pub proof fn lemma_digest_hex_width(d: u128)
    ensures
        digest_hex(d).len() == 32,
{
    reveal_with_fuel(hex_limit, 33);
    assert(hex_limit(32) == 0x1_0000_0000_0000_0000_0000_0000_0000_0000nat);
    lemma_hex_digits_fit(d as nat, 32);
}

} // verus!

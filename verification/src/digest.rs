//! The hash engine: a deterministic function combining a node's key, value,
//! and (if present) each child's digest into a fixed-width 64-bit digest.
//!
//! The mixing order is the same everywhere: key, then the value's UTF-8
//! bytes, then the left child's digest only if a left child exists, then the
//! right child's digest only if a right child exists. An absent child
//! contributes nothing to the mix — a deliberate simplification that is
//! adequate for the correctness of this structure but weakens collision
//! resistance compared to feeding a fixed sentinel for an absent child.
//!
//! The mixing function itself is the 64-bit FNV-1a step. It is fast and
//! fully specified here, but it is not collision-resistant: deployments that
//! need tamper-evidence against an adversary must swap in a cryptographic
//! hash. Only this module would change; the tree logic is untouched.

use vstd::prelude::*;

verus! {

/// The FNV-1a 64-bit offset basis, the state every digest starts from.
pub const SEED: u64 = 0xcbf2_9ce4_8422_2325;

/// The FNV-1a 64-bit prime.
pub const PRIME: u64 = 0x0000_0100_0000_01b3;

/// The digest a proof path folds to when it ends without a matching key.
pub const EMPTY_DIGEST: u64 = 0;

/// One mixing step: absorb `x` into the running state `h`.
pub open spec fn mix(h: u64, x: u64) -> u64 {
    vstd::wrapping::u64_specs::wrapping_mul(h ^ x, PRIME)
}

/// Absorb a byte sequence into the running state, left to right.
pub open spec fn mix_bytes(h: u64, bs: Seq<u8>) -> u64
    decreases bs.len(),
{
    if bs.len() == 0 {
        h
    } else {
        mix_bytes(mix(h, bs[0] as u64), bs.skip(1))
    }
}

/// The UTF-8 bytes a value contributes to a digest, as a function of the
/// value's characters alone.
pub open spec fn value_bytes(v: Seq<char>) -> Seq<u8> {
    vstd::utf8::encode_utf8(v)
}

/// The digest of a node whose key is `key`, whose value has bytes `vb`, and
/// whose children (where present) have digests `dl` and `dr`.
pub open spec fn combine(key: i32, vb: Seq<u8>, dl: Option<u64>, dr: Option<u64>) -> u64 {
    let h0 = mix(SEED, key as u64);
    let h1 = mix_bytes(h0, vb);
    let h2 = match dl {
        Some(d) => mix(h1, d),
        None => h1,
    };
    match dr {
        Some(d) => mix(h2, d),
        None => h2,
    }
}

/// The digest of a node without children.
pub open spec fn leaf_digest(key: i32, vb: Seq<u8>) -> u64 {
    combine(key, vb, None, None)
}

fn mix_exec(h: u64, x: u64) -> (r: u64)
    ensures
        r == mix(h, x),
{
    (h ^ x).wrapping_mul(PRIME)
}

proof fn lemma_mix_bytes_step(h: u64, bs: Seq<u8>, i: int)
    requires
        0 <= i < bs.len(),
    ensures
        mix_bytes(h, bs.skip(i)) == mix_bytes(mix(h, bs[i] as u64), bs.skip(i + 1)),
{
    assert(bs.skip(i).len() > 0);
    assert(bs.skip(i)[0] == bs[i]);
    assert(bs.skip(i).skip(1) =~= bs.skip(i + 1));
}

/// Computes `combine` on a concrete key, value and pair of child digests.
pub fn combine_hash(key: i32, value: &String, dl: Option<u64>, dr: Option<u64>) -> (h: u64)
    ensures
        h == combine(key, value_bytes(value@), dl, dr),
{
    let mut h: u64 = mix_exec(SEED, key as u64);
    let bs: &[u8] = value.as_str().as_bytes();
    proof {
        assert(bs@ == value_bytes(value@));
        assert(bs@.skip(0) =~= bs@);
    }
    let n: usize = bs.len();
    let ghost h0: u64 = h;
    let mut i: usize = 0;
    while i < n
        invariant
            i <= n,
            n == bs@.len(),
            bs@ == value_bytes(value@),
            mix_bytes(h0, bs@) == mix_bytes(h, bs@.skip(i as int)),
        decreases n - i,
    {
        proof {
            lemma_mix_bytes_step(h, bs@, i as int);
        }
        h = mix_exec(h, bs[i] as u64);
        i = i + 1;
    }
    proof {
        assert(bs@.skip(n as int) =~= Seq::<u8>::empty());
        assert(mix_bytes(h, bs@.skip(n as int)) == h);
    }
    if let Some(d) = dl {
        h = mix_exec(h, d);
    }
    if let Some(d) = dr {
        h = mix_exec(h, d);
    }
    h
}

} // verus!

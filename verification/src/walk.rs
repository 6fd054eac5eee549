//! The walks of Pollard's rho round by round, and when the searches give up:
//! only after `u64::MAX - 1` rounds of which none splits.
use vstd::prelude::*;
use crate::arith::gcd;
use crate::limbs::word_pow;
use crate::montgomery::{limb_len, rho_outcome};

verus! {

/// The state `(tortoise, hare, product, c, steps)` of the walk in Montgomery
/// arithmetic modulo `n` with radix `r` after `k` rounds, from both walkers
/// at `2 r mod n` (2 in Montgomery form), the product at `r mod n` (1 in
/// Montgomery form), the constant 1 and no steps.
pub open spec fn limb_walk(n: nat, r: nat, k: nat) -> (nat, nat, nat, nat, nat)
    decreases k,
{
    if k == 0 {
        ((2 * r) % n, (2 * r) % n, r % n, 1, 0)
    } else {
        crate::montgomery::rho_round(n, r, (2 * r) % n, limb_walk(n, r, (k - 1) as nat))
    }
}

/// After round `k` of the walk in Montgomery arithmetic a batch ends and the
/// product has a gcd other than one with `n`.
pub open spec fn limb_walk_splits(n: nat, r: nat, k: nat) -> bool {
    let s = limb_walk(n, r, k);
    s.4 == 0 && gcd(s.2, n) != 1
}

/// Round `k` of the walk on `n`, with one limb radix per limb of `n`, splits.
pub open spec fn limb_splits_at(n: nat, k: nat) -> bool {
    limb_walk_splits(n, word_pow(limb_len(n)), k)
}

/// The walk in Montgomery arithmetic starts at its starting state and moves
/// by one round at a time.
pub proof fn lemma_limb_walk_step(n: nat, r: nat, k: nat)
    ensures
        limb_walk(n, r, 0) == ((2 * r) % n, (2 * r) % n, r % n, 1nat, 0nat),
        limb_walk(n, r, k + 1) == crate::montgomery::rho_round(n, r, (2 * r) % n, limb_walk(n, r, k)),
{
}

/// The search from the state after `j` rounds, for `m` more rounds, finds
/// nothing exactly when none of rounds `j + 1 ..= j + m` splits, and
/// otherwise finds the gcd and constant of the first that does.
proof fn lemma_limb_from_walk(n: nat, r: nat, j: nat, m: nat)
    ensures
        (crate::montgomery::rho_from(n, r, (2 * r) % n, limb_walk(n, r, j), m) is None) <==> (
        forall|i: nat| j < i <= j + m ==> !#[trigger] limb_walk_splits(n, r, i)),
        forall|i: nat|
            j < i <= j + m && #[trigger] limb_walk_splits(n, r, i) && (forall|l: nat|
                j < l < i ==> !#[trigger] limb_walk_splits(n, r, l)) ==> crate::montgomery::rho_from(
                n,
                r,
                (2 * r) % n,
                limb_walk(n, r, j),
                m,
            ) == Some((gcd(limb_walk(n, r, i).2, n), limb_walk(n, r, i).3)),
    decreases m,
{
    crate::montgomery::lemma_rho_from_step(n, r, (2 * r) % n, limb_walk(n, r, j), m);
    if m > 0 {
        let j1 = j + 1;
        let m1 = (m - 1) as nat;
        let start = (2 * r) % n;
        let s1 = limb_walk(n, r, j1);
        assert(s1 == crate::montgomery::rho_round(n, r, start, limb_walk(n, r, j)));
        lemma_limb_from_walk(n, r, j1, m1);
        assert(j1 + m1 == j + m);
        if limb_walk_splits(n, r, j1) {
            assert forall|i: nat|
                j < i <= j + m && #[trigger] limb_walk_splits(n, r, i) && (forall|l: nat|
                    j < l < i ==> !#[trigger] limb_walk_splits(n, r, l)) implies i == j1 by {
                if i > j1 {
                    assert(!limb_walk_splits(n, r, j1));
                }
            }
        }
    }
}

/// Pollard's rho in Montgomery arithmetic gives up only after `u64::MAX - 1`
/// rounds without a split: its outcome is none exactly when no round up to
/// `u64::MAX - 1` of the walk from 2 with constant 1 ends a batch whose
/// product shares a factor with `n`, and otherwise it is the gcd and the
/// constant of the first round that does.
pub proof fn lemma_limb_rho_first_split(n: nat)
    ensures
        (rho_outcome(n) is None) <==> (forall|k: nat|
            1 <= k <= u64::MAX - 1 ==> !#[trigger] limb_splits_at(n, k)),
        forall|k: nat|
            1 <= k <= u64::MAX - 1 && #[trigger] limb_splits_at(n, k) && (forall|l: nat|
                1 <= l < k ==> !#[trigger] limb_splits_at(n, l)) ==> rho_outcome(n) == Some(
                (
                    gcd(limb_walk(n, word_pow(limb_len(n)), k).2, n),
                    limb_walk(n, word_pow(limb_len(n)), k).3,
                ),
            ),
{
    let r = word_pow(limb_len(n));
    assert(limb_walk(n, r, 0) == ((2 * r) % n, (2 * r) % n, r % n, 1nat, 0nat));
    crate::montgomery::lemma_rho_outcome_start(n);
    lemma_limb_from_walk(n, r, 0, (u64::MAX - 1) as nat);
    let b = (u64::MAX - 1) as nat;
    if forall|k: nat| 1 <= k <= b ==> !#[trigger] limb_splits_at(n, k) {
        assert forall|i: nat| 0 < i <= 0 + b implies !#[trigger] limb_walk_splits(n, r, i) by {
            assert(!limb_splits_at(n, i));
        }
    }
    if forall|i: nat| 0 < i <= 0 + b ==> !#[trigger] limb_walk_splits(n, r, i) {
        assert forall|k: nat| 1 <= k <= b implies !#[trigger] limb_splits_at(n, k) by {
            assert(!limb_walk_splits(n, r, k));
        }
    }
    assert forall|k: nat|
        1 <= k <= b && #[trigger] limb_splits_at(n, k) && (forall|l: nat|
            1 <= l < k ==> !#[trigger] limb_splits_at(n, l)) implies rho_outcome(n) == Some(
        (gcd(limb_walk(n, r, k).2, n), limb_walk(n, r, k).3),
    ) by {
        assert(limb_walk_splits(n, r, k));
        assert forall|l: nat| 0 < l < k implies !#[trigger] limb_walk_splits(n, r, l) by {
            assert(!limb_splits_at(n, l));
        }
    }
}

/// The state `(tortoise, hare, product, c, steps)` of the walk modulo `n`
/// after `k` rounds, from both walkers at 2, the product at 1, the constant 1
/// and no steps.
pub open spec fn ring_walk(n: nat, k: nat) -> (nat, nat, nat, nat, nat)
    decreases k,
{
    if k == 0 {
        (2nat % n, 2nat % n, 1, 1, 0)
    } else {
        crate::dashu::rho_round(n, ring_walk(n, (k - 1) as nat))
    }
}

/// Round `k` of the walk modulo `n` ends a batch whose product has a gcd
/// other than one with `n`.
pub open spec fn ring_splits_at(n: nat, k: nat) -> bool {
    let s = ring_walk(n, k);
    s.4 == 0 && gcd(s.2, n) != 1
}

/// The walk modulo `n` starts at its starting state and moves by one round
/// at a time.
pub proof fn lemma_ring_walk_step(n: nat, k: nat)
    ensures
        ring_walk(n, 0) == (2nat % n, 2nat % n, 1nat, 1nat, 0nat),
        ring_walk(n, k + 1) == crate::dashu::rho_round(n, ring_walk(n, k)),
{
}

/// The search modulo `n` from the state after `j` rounds, for `m` more
/// rounds, finds nothing exactly when none of rounds `j + 1 ..= j + m`
/// splits, and otherwise finds the gcd of the first that does.
proof fn lemma_ring_from_walk(n: nat, j: nat, m: nat)
    ensures
        (crate::dashu::rho_from(n, ring_walk(n, j), m) is None) <==> (forall|i: nat|
            j < i <= j + m ==> !#[trigger] ring_splits_at(n, i)),
        forall|i: nat|
            j < i <= j + m && #[trigger] ring_splits_at(n, i) && (forall|l: nat|
                j < l < i ==> !#[trigger] ring_splits_at(n, l)) ==> crate::dashu::rho_from(
                n,
                ring_walk(n, j),
                m,
            ) == Some(gcd(ring_walk(n, i).2, n)),
    decreases m,
{
    if m > 0 {
        let j1 = j + 1;
        let m1 = (m - 1) as nat;
        let s1 = ring_walk(n, j1);
        assert(s1 == crate::dashu::rho_round(n, ring_walk(n, j)));
        assert(crate::dashu::rho_from(n, ring_walk(n, j), m) == if s1.4 == 0 && gcd(s1.2, n)
            != 1 {
            Some(gcd(s1.2, n))
        } else {
            crate::dashu::rho_from(n, s1, m1)
        });
        lemma_ring_from_walk(n, j1, m1);
        assert(j1 + m1 == j + m);
        if ring_splits_at(n, j1) {
            assert forall|i: nat|
                j < i <= j + m && #[trigger] ring_splits_at(n, i) && (forall|l: nat|
                    j < l < i ==> !#[trigger] ring_splits_at(n, l)) implies i == j1 by {
                if i > j1 {
                    assert(!ring_splits_at(n, j1));
                }
            }
        }
    }
}

/// Pollard's rho modulo `n` gives up only after `u64::MAX - 1` rounds
/// without a split: its outcome is none exactly when no round up to
/// `u64::MAX - 1` of the walk from 2 with constant 1 ends a batch whose
/// product shares a factor with `n`, and otherwise it is the gcd of the
/// first round that does.
pub proof fn lemma_ring_rho_first_split(n: nat)
    ensures
        (crate::dashu::rho_outcome(n) is None) <==> (forall|k: nat|
            1 <= k <= u64::MAX - 1 ==> !#[trigger] ring_splits_at(n, k)),
        forall|k: nat|
            1 <= k <= u64::MAX - 1 && #[trigger] ring_splits_at(n, k) && (forall|l: nat|
                1 <= l < k ==> !#[trigger] ring_splits_at(n, l)) ==> crate::dashu::rho_outcome(n)
                == Some(gcd(ring_walk(n, k).2, n)),
{
    assert(ring_walk(n, 0) == (2nat % n, 2nat % n, 1nat, 1nat, 0nat));
    lemma_ring_from_walk(n, 0, (u64::MAX - 1) as nat);
}

} // verus!

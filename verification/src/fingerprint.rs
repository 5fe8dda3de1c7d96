//! Fingerprints: the key under which an expression is remembered, made of
//! its value and the inputs it draws on.

use crate::expression::Expression;
use crate::expression::SolveError;
use std::collections::HashSet;
use vstd::prelude::*;

verus! {

/// How many inputs a run can take: one bit of the input mask each.
pub const MAX_NUMBERS: usize = 64;

/// Whether `mask` marks none but the first `n` inputs.
pub open spec fn within(mask: u64, n: nat) -> bool {
    (mask as u128) < (1u128 << (n as u128))
}

/// Whether `value` leaves room for `n` mask bits below it in 128 bits.
pub open spec fn fits(value: u128, n: nat) -> bool {
    value <= (u128::MAX >> (n as u128))
}

/// `value` moved up by `n` bits, with `mask` in the bits below.
pub open spec fn pack(value: u128, mask: u64, n: nat) -> u128 {
    (value << (n as u128)) | (mask as u128)
}

/// The fingerprint of `e` in a run over `n` inputs.
pub open spec fn fingerprint(e: Expression, n: nat) -> Result<u128, SolveError> {
    if n > MAX_NUMBERS {
        Err(SolveError::TooManyNumbers)
    } else if !fits(e.value, n) {
        Err(SolveError::Overflow)
    } else {
        Ok(pack(e.value, e.contains, n))
    }
}

/// The fingerprints of all of `v`, or the first error met on the way.
pub open spec fn fingerprints(v: Seq<Expression>, n: nat) -> Result<Set<u128>, SolveError>
    decreases v.len(),
{
    if v.len() == 0 {
        Ok(Set::empty())
    } else {
        match fingerprints(v.drop_last(), n) {
            Err(e) => Err(e),
            Ok(s) => match fingerprint(v.last(), n) {
                Err(e) => Err(e),
                Ok(h) => Ok(s.insert(h)),
            },
        }
    }
}

/// Two expressions with one fingerprint have the same value and draw on
/// the same inputs, as long as their masks stay within the `n` inputs.
pub proof fn lemma_fingerprint_injective(e1: Expression, e2: Expression, n: nat)
    requires
        within(e1.contains, n),
        within(e2.contains, n),
        fingerprint(e1, n) is Ok,
        fingerprint(e1, n) == fingerprint(e2, n),
    ensures
        e1.value == e2.value,
        e1.contains == e2.contains,
{
    let v1 = e1.value;
    let v2 = e2.value;
    let m1 = e1.contains;
    let m2 = e2.contains;
    let s = n as u128;
    assert(v1 == v2 && m1 == m2) by (bit_vector)
        requires
            s <= 64,
            v1 <= (u128::MAX >> s),
            v2 <= (u128::MAX >> s),
            (m1 as u128) < (1u128 << s),
            (m2 as u128) < (1u128 << s),
            (v1 << s) | (m1 as u128) == (v2 << s) | (m2 as u128),
    ;
}

/// The fingerprint of `e` among `n_numbers` inputs: its value shifted up by
/// that many bits, with the input mask below.
pub fn generate_hash(e: &Expression, n_numbers: &usize) -> (r: Result<u128, SolveError>)
    ensures
        r == fingerprint(*e, *n_numbers as nat),
{
    let n: usize = *n_numbers;
    if n > MAX_NUMBERS {
        return Err(SolveError::TooManyNumbers);
    }
    if e.value > (u128::MAX >> n) {
        return Err(SolveError::Overflow);
    }
    Ok((e.value << n) | (e.contains as u128))
}

/// The set of the fingerprints of `v`.
pub fn generate_hashes(v: &[Expression], n_numbers: &usize) -> (r: Result<
    HashSet<u128>,
    SolveError,
>)
    ensures
        match r {
            Ok(set) => fingerprints(v@, *n_numbers as nat) == Ok::<Set<u128>, SolveError>(set@),
            Err(e) => fingerprints(v@, *n_numbers as nat) == Err::<Set<u128>, SolveError>(e),
        },
{
    broadcast use vstd::std_specs::hash::group_hash_axioms;

    let mut hashes: HashSet<u128> = HashSet::new();
    let mut i: usize = 0;
    while i < v.len()
        invariant
            i <= v.len(),
            fingerprints(v@.take(i as int), *n_numbers as nat) == Ok::<Set<u128>, SolveError>(
                hashes@,
            ),
        decreases v.len() - i,
    {
        proof {
            assert(v@.take(i + 1).drop_last() == v@.take(i as int));
        }
        match generate_hash(&v[i], n_numbers) {
            Err(e) => {
                proof {
                    lemma_fingerprints_fail(v@, (i + 1) as int, *n_numbers as nat);
                }
                return Err(e);
            },
            Ok(h) => {
                hashes.insert(h);
            },
        }
        i = i + 1;
    }
    proof {
        assert(v@.take(v.len() as int) == v@);
    }
    Ok(hashes)
}

/// Once a prefix of `v` fails, all of `v` fails in the same way.
pub proof fn lemma_fingerprints_fail(v: Seq<Expression>, k: int, n: nat)
    requires
        0 <= k <= v.len(),
        fingerprints(v.take(k), n) is Err,
    ensures
        fingerprints(v, n) == fingerprints(v.take(k), n),
    decreases v.len(),
{
    if k < v.len() {
        assert(v.drop_last().take(k) == v.take(k));
        lemma_fingerprints_fail(v.drop_last(), k, n);
    } else {
        assert(v.take(k) == v);
    }
}

} // verus!

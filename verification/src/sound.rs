//! What holds of every expression that the engine builds from the leaves of
//! a list of numbers.

use crate::engine::grown;
use crate::engine::leaf;
use crate::engine::planted;
use crate::engine::useful;
use crate::expression::shares;
use crate::expression::Expression;
use crate::expression::Operation;
use crate::fingerprint::within;
use crate::fingerprint::MAX_NUMBERS;
use crate::inherit::every;
use crate::inherit::inherited;
use crate::inherit::lemma_grown_every;
use crate::inherit::lemma_useful_every;
use vstd::multiset::Multiset;
use vstd::prelude::*;

verus! {

/// Whether `mask` marks the input at position `i`.
pub open spec fn marks(mask: u64, i: nat) -> bool {
    (mask >> (i as u64)) & 1 == 1
}

/// The numbers at the positions below `k` that `mask` marks, each position
/// counted once.
pub open spec fn picked(numbers: Seq<u128>, mask: u64, k: nat) -> Multiset<u128>
    decreases k,
{
    if k == 0 {
        Multiset::empty()
    } else if marks(mask, (k - 1) as nat) {
        picked(numbers, mask, (k - 1) as nat).insert(numbers[k - 1])
    } else {
        picked(numbers, mask, (k - 1) as nat)
    }
}

/// An expression is sound over `numbers` when it draws on at least one
/// input and on none beyond them, when every operation in its node passes
/// its guard, when its value is what its node evaluates to, and when the
/// leaves of its node are the numbers at the marked positions, one leaf for
/// each position.
pub open spec fn sound(e: Expression, numbers: Seq<u128>) -> bool {
    &&& e.contains != 0
    &&& within(e.contains, numbers.len())
    &&& e.state.guarded()
    &&& e.state.eval() == e.value
    &&& e.state.leaves() == picked(numbers, e.contains, numbers.len())
}

/// Whether every expression of `s` is sound over `numbers`.
pub open spec fn all_sound(s: Seq<Expression>, numbers: Seq<u128>) -> bool {
    forall|i: int| 0 <= i < s.len() ==> sound(#[trigger] s[i], numbers)
}

proof fn lemma_single_bit(i: u64, j: u64)
    requires
        i < 64,
        j < 64,
    ensures
        ((1u64 << i) >> j) & 1 == 1 <==> i == j,
        1u64 << i != 0,
{
    assert((((1u64 << i) >> j) & 1 == 1 <==> i == j) && 1u64 << i != 0) by (bit_vector)
        requires
            i < 64,
            j < 64,
    ;
}

proof fn lemma_single_within(i: u64, n: u128)
    requires
        i < n <= 64,
    ensures
        ((1u64 << i) as u128) < (1u128 << n),
{
    assert(((1u64 << i) as u128) < (1u128 << n)) by (bit_vector)
        requires
            i < n <= 64,
    ;
}

proof fn lemma_joint_mask(a: u64, b: u64, n: u128)
    requires
        n <= 64,
        a != 0,
        (a as u128) < (1u128 << n),
        (b as u128) < (1u128 << n),
    ensures
        a | b != 0,
        ((a | b) as u128) < (1u128 << n),
{
    assert(a | b != 0 && ((a | b) as u128) < (1u128 << n)) by (bit_vector)
        requires
            n <= 64,
            a != 0,
            (a as u128) < (1u128 << n),
            (b as u128) < (1u128 << n),
    ;
}

proof fn lemma_joint_bit(a: u64, b: u64, i: u64)
    requires
        i < 64,
        a & b == 0,
    ensures
        ((a | b) >> i) & 1 == 1 <==> ((a >> i) & 1 == 1 || (b >> i) & 1 == 1),
        !((a >> i) & 1 == 1 && (b >> i) & 1 == 1),
{
    assert((((a | b) >> i) & 1 == 1 <==> ((a >> i) & 1 == 1 || (b >> i) & 1 == 1)) && !((a >> i) & 1
        == 1 && (b >> i) & 1 == 1)) by (bit_vector)
        requires
            i < 64,
            a & b == 0,
    ;
}

/// A mask of the single position `i` picks the number there and no other.
pub proof fn lemma_picked_single(numbers: Seq<u128>, i: nat, k: nat)
    requires
        i < 64,
        k <= 64,
    ensures
        picked(numbers, 1u64 << (i as u64), k) == if i < k {
            Multiset::singleton(numbers[i as int])
        } else {
            Multiset::empty()
        },
    decreases k,
{
    if k > 0 {
        lemma_picked_single(numbers, i, (k - 1) as nat);
        lemma_single_bit(i as u64, (k - 1) as u64);
        if i == k - 1 {
            assert(Multiset::<u128>::empty().insert(numbers[i as int]) == Multiset::singleton(
                numbers[i as int],
            ));
        }
    }
}

/// Two masks with no position in common pick, together, what each picks.
pub proof fn lemma_picked_joint(numbers: Seq<u128>, a: u64, b: u64, k: nat)
    requires
        a & b == 0,
        k <= 64,
    ensures
        picked(numbers, a | b, k) == picked(numbers, a, k).add(picked(numbers, b, k)),
    decreases k,
{
    if k > 0 {
        lemma_picked_joint(numbers, a, b, (k - 1) as nat);
        lemma_joint_bit(a, b, (k - 1) as u64);
        let x = numbers[k - 1];
        let pa = picked(numbers, a, (k - 1) as nat);
        let pb = picked(numbers, b, (k - 1) as nat);
        assert(pa.insert(x).add(pb) == pa.add(pb).insert(x));
        assert(pa.add(pb.insert(x)) == pa.add(pb).insert(x));
    } else {
        assert(Multiset::<u128>::empty().add(Multiset::empty()) == Multiset::<u128>::empty());
    }
}

/// The leaf of a position among the numbers is sound.
pub proof fn lemma_leaf_sound(numbers: Seq<u128>, i: int)
    requires
        0 <= i < numbers.len() <= MAX_NUMBERS,
    ensures
        sound(leaf(numbers[i], i), numbers),
{
    lemma_single_bit(i as u64, i as u64);
    lemma_single_within(i as u64, numbers.len() as u128);
    lemma_picked_single(numbers, i as nat, numbers.len());
}

/// What an operation makes of two sound expressions that share no input is
/// sound again.
pub proof fn lemma_outcome_sound(op: Operation, e1: Expression, e2: Expression, numbers: Seq<u128>)
    requires
        numbers.len() <= MAX_NUMBERS,
        sound(e1, numbers),
        sound(e2, numbers),
        !shares(e1, e2),
        op.outcome(e1, e2) matches Ok(Some(_)),
    ensures
        sound(op.outcome(e1, e2)->Ok_0->Some_0, numbers),
{
    let c = op.outcome(e1, e2)->Ok_0->Some_0;
    let a = e1.value as int;
    let b = e2.value as int;
    lemma_joint_mask(e1.contains, e2.contains, numbers.len() as u128);
    lemma_picked_joint(numbers, e1.contains, e2.contains, numbers.len());
    assert(0 <= op.result(a, b)) by (nonlinear_arith)
        requires
            0 <= a,
            0 <= b,
            op.applies(a, b),
            op.result(a, b) == match op {
                Operation::Add => a + b,
                Operation::Multiply => a * b,
                Operation::Subtract => a - b,
                Operation::Divide => a / b,
            },
            op.applies(a, b) == match op {
                Operation::Add => true,
                Operation::Multiply => a != 0 && a != 1 && b != 0 && b != 1,
                Operation::Subtract => b <= a,
                Operation::Divide => b != 0 && b != 1 && a % b == 0,
            },
    ;
    assert(c.state.eval() == op.result(a, b));
}

/// Soundness is passed on by the operations.
pub proof fn lemma_sound_inherited(numbers: Seq<u128>)
    requires
        numbers.len() <= MAX_NUMBERS,
    ensures
        inherited(|e: Expression| sound(e, numbers)),
{
    let has = |e: Expression| sound(e, numbers);
    assert forall|op: Operation, e1: Expression, e2: Expression|
        has(e1) && has(e2) && !shares(e1, e2) && (#[trigger] op.outcome(e1, e2)) is Ok
            && op.outcome(e1, e2)->Ok_0 is Some implies has(op.outcome(e1, e2)->Ok_0->Some_0) by {
        lemma_outcome_sound(op, e1, e2, numbers);
    }
}

/// Whether every group is sound.
pub open spec fn groups_sound(groups: Seq<Seq<Expression>>, numbers: Seq<u128>) -> bool {
    forall|g: int| 0 <= g < groups.len() ==> all_sound(#[trigger] groups[g], numbers)
}

/// Every group that the engine finishes from a sound base is sound.
pub proof fn lemma_grown_sound(base: Seq<Expression>, i: nat, numbers: Seq<u128>)
    requires
        numbers.len() <= MAX_NUMBERS,
        all_sound(base, numbers),
        grown(base, i) is Ok,
    ensures
        groups_sound(grown(base, i)->Ok_0.groups, numbers),
{
    let has = |e: Expression| sound(e, numbers);
    lemma_sound_inherited(numbers);
    assert(every(base, has));
    lemma_grown_every(base, i, has);
    let groups = grown(base, i)->Ok_0.groups;
    assert forall|g: int| 0 <= g < groups.len() implies all_sound(#[trigger] groups[g], numbers) by {
        assert(every(groups[g], has));
    }
}

/// Every expression that the engine builds from a sound base is sound.
pub proof fn lemma_useful_sound(base: Seq<Expression>, numbers: Seq<u128>)
    requires
        numbers.len() <= MAX_NUMBERS,
        all_sound(base, numbers),
        useful(base) is Ok,
    ensures
        all_sound(useful(base)->Ok_0, numbers),
{
    let has = |e: Expression| sound(e, numbers);
    lemma_sound_inherited(numbers);
    assert(every(base, has));
    lemma_useful_every(base, has);
    assert(every(useful(base)->Ok_0, has));
}

/// Every expression that the engine builds from the leaves of `numbers`
/// draws on at least one of the numbers and on nothing else, evaluates to
/// its value, passes every guard, and has for leaves the numbers at the
/// positions of its mask, each position once.
pub proof fn lemma_population_sound(numbers: Seq<u128>)
    requires
        planted(numbers) is Ok,
        useful(planted(numbers)->Ok_0) is Ok,
    ensures
        all_sound(useful(planted(numbers)->Ok_0)->Ok_0, numbers),
{
    let base = planted(numbers)->Ok_0;
    assert forall|i: int| 0 <= i < base.len() implies sound(#[trigger] base[i], numbers) by {
        lemma_leaf_sound(numbers, i);
    }
    lemma_useful_sound(base, numbers);
}

} // verus!

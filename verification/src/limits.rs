//! When the engine gives up: exactly when some derivation from the numbers
//! reaches a value that leaves no room for the mask below it.

use crate::complete::lemma_nothing_missed;
use crate::complete::Derivation;
use crate::distinct::lemma_grown_tidy;
use crate::distinct::lemma_planted_apart;
use crate::engine::after_pair;
use crate::engine::after_pairs;
use crate::engine::combined;
use crate::engine::grown;
use crate::engine::leaf;
use crate::engine::level;
use crate::engine::listed;
use crate::engine::offer_all;
use crate::engine::planted;
use crate::engine::useful;
use crate::engine::Levels;
use crate::engine::Progress;
use crate::expression::shares;
use crate::expression::Expression;
use crate::expression::Operation;
use crate::expression::SolveError;
use crate::expression::State;
use crate::fingerprint::fingerprint;
use crate::fingerprint::fingerprints;
use crate::fingerprint::fits;
use crate::fingerprint::MAX_NUMBERS;
use crate::inherit::every;
use crate::inherit::every_group;
use crate::inherit::inherited;
use crate::inherit::lemma_grown_every;
use crate::inherit::lemma_useful_every;
use crate::pairs::lemma_cell;
use std::rc::Rc;
use vstd::prelude::*;

verus! {

impl Derivation {
    /// The node that records the derivation, with the numbers in place of
    /// their positions.
    pub open spec fn node(self, numbers: Seq<u128>) -> State
        decreases self,
    {
        match self {
            Derivation::Leaf { position } => State::Base { value: numbers[position as int] },
            Derivation::Node { op, left, right } => op.node(
                Rc::new(left.node(numbers)),
                Rc::new(right.node(numbers)),
            ),
        }
    }
}

/// Whether `d` is a proper derivation of `e`: it reaches the value of `e`
/// from the positions of `e`, and the node of `e` records it.
pub open spec fn derives(d: Derivation, e: Expression, numbers: Seq<u128>) -> bool {
    &&& d.proper(numbers)
    &&& d.value(numbers) == e.value
    &&& d.mask() == e.contains
    &&& d.node(numbers) == *e.state
}

/// Whether `e` has a proper derivation from `numbers`.
pub open spec fn derivable(e: Expression, numbers: Seq<u128>) -> bool {
    exists|d: Derivation| derives(d, e, numbers)
}

/// Whether the integer `value` leaves room for `n` mask bits below it in
/// 128 bits.
pub open spec fn roomy(value: int, n: nat) -> bool {
    value <= (u128::MAX >> (n as u128))
}

/// Whether some proper derivation from `numbers` reaches a value that
/// leaves no room for the mask.
pub open spec fn outgrown(numbers: Seq<u128>) -> bool {
    exists|d: Derivation| #[trigger] d.proper(numbers) && !roomy(d.value(numbers), numbers.len())
}

/// An operation that applies to two values that are not negative gives a
/// value that is not negative, and neither a difference nor a quotient
/// exceeds what it was taken from.
pub proof fn lemma_result_range(op: Operation, a: int, b: int)
    requires
        0 <= a,
        0 <= b,
        op.applies(a, b),
    ensures
        0 <= op.result(a, b),
        op is Subtract || op is Divide ==> op.result(a, b) <= a,
{
    match op {
        Operation::Add => {},
        Operation::Multiply => {
            assert(0 <= a * b) by (nonlinear_arith)
                requires
                    0 <= a,
                    0 <= b,
            ;
        },
        Operation::Subtract => {},
        Operation::Divide => {
            assert(0 <= a / b <= a) by (nonlinear_arith)
                requires
                    0 <= a,
                    2 <= b,
            ;
        },
    }
}

/// What an operation makes of two derivable expressions that share no
/// input is derived by the operation on their derivations.
pub proof fn lemma_outcome_derives(
    op: Operation,
    e1: Expression,
    e2: Expression,
    d1: Derivation,
    d2: Derivation,
    numbers: Seq<u128>,
)
    requires
        derives(d1, e1, numbers),
        derives(d2, e2, numbers),
        !shares(e1, e2),
        op.applies(e1.value as int, e2.value as int),
    ensures
        (Derivation::Node { op, left: Box::new(d1), right: Box::new(d2) }).proper(numbers),
        (Derivation::Node { op, left: Box::new(d1), right: Box::new(d2) }).value(numbers)
            == op.result(e1.value as int, e2.value as int),
        op.outcome(e1, e2) is Ok ==> derives(
            Derivation::Node { op, left: Box::new(d1), right: Box::new(d2) },
            op.outcome(e1, e2)->Ok_0->Some_0,
            numbers,
        ),
{
    lemma_result_range(op, e1.value as int, e2.value as int);
    let d = Derivation::Node { op, left: Box::new(d1), right: Box::new(d2) };
    if op.outcome(e1, e2) is Ok {
        let c = op.outcome(e1, e2)->Ok_0->Some_0;
        assert(d.node(numbers) == *c.state);
    }
}

/// Having a proper derivation is passed on by the operations.
pub proof fn lemma_derivable_inherited(numbers: Seq<u128>)
    ensures
        inherited(|e: Expression| derivable(e, numbers)),
{
    let has = |e: Expression| derivable(e, numbers);
    assert forall|op: Operation, e1: Expression, e2: Expression|
        has(e1) && has(e2) && !shares(e1, e2) && (#[trigger] op.outcome(e1, e2)) is Ok
            && op.outcome(e1, e2)->Ok_0 is Some implies has(op.outcome(e1, e2)->Ok_0->Some_0) by {
        let d1 = choose|d: Derivation| derives(d, e1, numbers);
        let d2 = choose|d: Derivation| derives(d, e2, numbers);
        lemma_outcome_derives(op, e1, e2, d1, d2, numbers);
        assert(derives(
            Derivation::Node { op, left: Box::new(d1), right: Box::new(d2) },
            op.outcome(e1, e2)->Ok_0->Some_0,
            numbers,
        ));
    }
}

/// Every leaf of the numbers has a proper derivation.
pub proof fn lemma_planted_derivable(numbers: Seq<u128>)
    requires
        planted(numbers) is Ok,
    ensures
        every(planted(numbers)->Ok_0, |e: Expression| derivable(e, numbers)),
{
    let base = planted(numbers)->Ok_0;
    assert forall|i: int| 0 <= i < base.len() implies derivable(#[trigger] base[i], numbers) by {
        assert(derives(Derivation::Leaf { position: i as nat }, base[i], numbers));
    }
}

/// Every expression that the engine builds from the leaves of `numbers`
/// has a proper derivation: its node records a way to its value in which
/// every position is one of the numbers, no position occurs twice, and
/// every operation passes its guard.
pub proof fn lemma_population_derivable(numbers: Seq<u128>)
    requires
        planted(numbers) is Ok,
        useful(planted(numbers)->Ok_0) is Ok,
    ensures
        forall|k: int|
            0 <= k < useful(planted(numbers)->Ok_0)->Ok_0.len() ==> derivable(
                #[trigger] useful(planted(numbers)->Ok_0)->Ok_0[k],
                numbers,
            ),
{
    let has = |e: Expression| derivable(e, numbers);
    lemma_derivable_inherited(numbers);
    lemma_planted_derivable(numbers);
    lemma_useful_every(planted(numbers)->Ok_0, has);
    let all = useful(planted(numbers)->Ok_0)->Ok_0;
    assert forall|k: int| 0 <= k < all.len() implies derivable(#[trigger] all[k], numbers) by {
        assert(has(all[k]));
    }
}

/// Where the engine succeeds, every proper derivation reaches a value that
/// leaves room for the mask.
pub proof fn lemma_all_roomy(numbers: Seq<u128>, d: Derivation)
    requires
        planted(numbers) is Ok,
        useful(planted(numbers)->Ok_0) is Ok,
        d.proper(numbers),
    ensures
        roomy(d.value(numbers), numbers.len()),
{
    let base = planted(numbers)->Ok_0;
    let k = lemma_nothing_missed(numbers, d);
    lemma_planted_apart(numbers);
    lemma_grown_tidy(base, base.len());
    let all = useful(base)->Ok_0;
    assert(fingerprint(all[k], numbers.len()) is Ok);
}

/// Where the fingerprints of a sequence fail, one of its expressions has
/// none.
pub proof fn lemma_fingerprints_culprit(v: Seq<Expression>, n: nat) -> (i: int)
    requires
        fingerprints(v, n) is Err,
    ensures
        0 <= i < v.len(),
        fingerprint(v[i], n) is Err,
        fingerprints(v, n) == Err::<Set<u128>, SolveError>(fingerprint(v[i], n)->Err_0),
    decreases v.len(),
{
    if fingerprints(v.drop_last(), n) is Err {
        let i = lemma_fingerprints_culprit(v.drop_last(), n);
        assert(v.drop_last()[i] == v[i]);
        i
    } else {
        v.len() - 1
    }
}

/// Where offering candidates fails, one of them leaves no room for the
/// mask.
pub proof fn lemma_offer_all_culprit(p: Progress, cs: Seq<Expression>, n: nat) -> (t: int)
    requires
        n <= MAX_NUMBERS,
        offer_all(p, cs, n) is Err,
    ensures
        0 <= t < cs.len(),
        !fits(cs[t].value, n),
        offer_all(p, cs, n) == Err::<Progress, SolveError>(SolveError::Overflow),
    decreases cs.len(),
{
    if offer_all(p, cs.drop_last(), n) is Err {
        let t = lemma_offer_all_culprit(p, cs.drop_last(), n);
        assert(cs.drop_last()[t] == cs[t]);
        t
    } else {
        cs.len() - 1
    }
}

/// Each of what the operations make of a pair is what one of them makes
/// of it.
pub proof fn lemma_combined_from(e1: Expression, e2: Expression, t: int) -> (op: Operation)
    requires
        combined(e1, e2) is Ok,
        0 <= t < combined(e1, e2)->Ok_0.len(),
    ensures
        op.outcome(e1, e2) == Ok::<Option<Expression>, SolveError>(Some(combined(e1, e2)->Ok_0[t])),
{
    let sum = listed(Operation::Add.outcome(e1, e2)->Ok_0);
    let product = listed(Operation::Multiply.outcome(e1, e2)->Ok_0);
    let difference = listed(Operation::Subtract.outcome(e1, e2)->Ok_0);
    let quotient = listed(Operation::Divide.outcome(e1, e2)->Ok_0);
    let cs = combined(e1, e2)->Ok_0;
    assert(cs == sum + product + difference + quotient);
    if t < sum.len() {
        assert(cs[t] == sum[t]);
        Operation::Add
    } else if t < sum.len() + product.len() {
        assert(cs[t] == product[t - sum.len()]);
        Operation::Multiply
    } else if t < sum.len() + product.len() + difference.len() {
        assert(cs[t] == difference[t - sum.len() - product.len()]);
        Operation::Subtract
    } else {
        assert(cs[t] == quotient[t - sum.len() - product.len() - difference.len()]);
        Operation::Divide
    }
}

/// Where a pair of derivable expressions fails, an operation on their
/// derivations reaches a value that leaves no room for the mask.
pub proof fn lemma_after_pair_culprit(
    q: Progress,
    e1: Expression,
    e2: Expression,
    numbers: Seq<u128>,
    d1: Derivation,
    d2: Derivation,
) -> (d: Derivation)
    requires
        numbers.len() <= MAX_NUMBERS,
        after_pair(q, e1, e2, numbers.len()) is Err,
        derives(d1, e1, numbers),
        derives(d2, e2, numbers),
    ensures
        d.proper(numbers),
        !roomy(d.value(numbers), numbers.len()),
        after_pair(q, e1, e2, numbers.len()) == Err::<Progress, SolveError>(SolveError::Overflow),
{
    let n = numbers.len();
    let a = e1.value as int;
    let b = e2.value as int;
    let s = n as u128;
    assert((u128::MAX >> s) <= u128::MAX) by (bit_vector);
    if combined(e1, e2) is Err {
        if Operation::Subtract.applies(a, b) {
            lemma_result_range(Operation::Subtract, a, b);
        }
        if Operation::Divide.applies(a, b) {
            lemma_result_range(Operation::Divide, a, b);
        }
        let op = if Operation::Add.outcome(e1, e2) is Err {
            Operation::Add
        } else {
            Operation::Multiply
        };
        lemma_outcome_derives(op, e1, e2, d1, d2, numbers);
        Derivation::Node { op, left: Box::new(d1), right: Box::new(d2) }
    } else {
        let cs = combined(e1, e2)->Ok_0;
        let t = lemma_offer_all_culprit(q, cs, n);
        let op = lemma_combined_from(e1, e2, t);
        lemma_outcome_derives(op, e1, e2, d1, d2, numbers);
        Derivation::Node { op, left: Box::new(d1), right: Box::new(d2) }
    }
}

/// Where crossing derivable expressions fails, some derivation reaches a
/// value that leaves no room for the mask.
pub proof fn lemma_after_pairs_culprit(
    p: Progress,
    v1: Seq<Expression>,
    v2: Seq<Expression>,
    k: nat,
    numbers: Seq<u128>,
) -> (d: Derivation)
    requires
        numbers.len() <= MAX_NUMBERS,
        k <= v1.len() * v2.len(),
        every(v1, |e: Expression| derivable(e, numbers)),
        every(v2, |e: Expression| derivable(e, numbers)),
        after_pairs(p, v1, v2, k, numbers.len()) is Err,
    ensures
        d.proper(numbers),
        !roomy(d.value(numbers), numbers.len()),
        after_pairs(p, v1, v2, k, numbers.len()) == Err::<Progress, SolveError>(
            SolveError::Overflow,
        ),
    decreases k,
{
    let n = numbers.len();
    if after_pairs(p, v1, v2, (k - 1) as nat, n) is Err {
        lemma_after_pairs_culprit(p, v1, v2, (k - 1) as nat, numbers)
    } else {
        let q = after_pairs(p, v1, v2, (k - 1) as nat, n)->Ok_0;
        lemma_cell(v1.len() as int, v2.len() as int, k - 1);
        let e1 = v1[(k - 1) / (v2.len() as int)];
        let e2 = v2[(k - 1) % (v2.len() as int)];
        assert(derivable(e1, numbers));
        assert(derivable(e2, numbers));
        let d1 = choose|d: Derivation| derives(d, e1, numbers);
        let d2 = choose|d: Derivation| derives(d, e2, numbers);
        lemma_after_pair_culprit(q, e1, e2, numbers, d1, d2)
    }
}

/// Where a level over derivable groups fails, some derivation reaches a
/// value that leaves no room for the mask.
pub proof fn lemma_level_culprit(
    done: Seq<Seq<Expression>>,
    seen: Set<u128>,
    j: nat,
    numbers: Seq<u128>,
) -> (d: Derivation)
    requires
        numbers.len() <= MAX_NUMBERS,
        j <= done.len(),
        every_group(done, |e: Expression| derivable(e, numbers)),
        level(done, seen, j, numbers.len()) is Err,
    ensures
        d.proper(numbers),
        !roomy(d.value(numbers), numbers.len()),
        level(done, seen, j, numbers.len()) == Err::<Progress, SolveError>(SolveError::Overflow),
    decreases j,
{
    let n = numbers.len();
    if level(done, seen, (j - 1) as nat, n) is Err {
        lemma_level_culprit(done, seen, (j - 1) as nat, numbers)
    } else {
        let p = level(done, seen, (j - 1) as nat, n)->Ok_0;
        let v1 = done[j - 1];
        let v2 = done[done.len() - j];
        lemma_after_pairs_culprit(
            Progress { seen: p.seen, kept: Seq::empty() },
            v1,
            v2,
            v1.len() * v2.len(),
            numbers,
        )
    }
}

/// Where the engine fails on the leaves of the numbers, some derivation
/// reaches a value that leaves no room for the mask.
pub proof fn lemma_grown_culprit(numbers: Seq<u128>, i: nat) -> (d: Derivation)
    requires
        planted(numbers) is Ok,
        grown(planted(numbers)->Ok_0, i) is Err,
    ensures
        d.proper(numbers),
        !roomy(d.value(numbers), numbers.len()),
        grown(planted(numbers)->Ok_0, i) == Err::<Levels, SolveError>(
            SolveError::Overflow,
        ),
    decreases i,
{
    let n = numbers.len();
    let base = planted(numbers)->Ok_0;
    if i <= 1 {
        let x = lemma_fingerprints_culprit(base, n);
        assert(base[x] == leaf(numbers[x], x));
        Derivation::Leaf { position: x as nat }
    } else if grown(base, (i - 1) as nat) is Err {
        lemma_grown_culprit(numbers, (i - 1) as nat)
    } else {
        let l = grown(base, (i - 1) as nat)->Ok_0;
        lemma_derivable_inherited(numbers);
        lemma_planted_derivable(numbers);
        lemma_grown_every(base, (i - 1) as nat, |e: Expression| derivable(e, numbers));
        lemma_level_culprit(l.groups, l.seen, l.groups.len(), numbers)
    }
}

/// The engine gives up on a list of one to sixty-four numbers exactly when
/// some proper derivation from them reaches a value that leaves no room
/// for the mask, and then it reports an overflow.
pub proof fn lemma_gives_up_when_outgrown(numbers: Seq<u128>)
    requires
        0 < numbers.len() <= MAX_NUMBERS,
    ensures
        planted(numbers) is Ok,
        outgrown(numbers) <==> useful(planted(numbers)->Ok_0) is Err,
        outgrown(numbers) ==> useful(planted(numbers)->Ok_0) == Err::<Seq<Expression>, SolveError>(
            SolveError::Overflow,
        ),
{
    let base = planted(numbers)->Ok_0;
    if useful(base) is Err {
        let d = lemma_grown_culprit(numbers, numbers.len());
        assert(d.proper(numbers) && !roomy(d.value(numbers), numbers.len()));
    } else {
        if outgrown(numbers) {
            let d = choose|d: Derivation| #[trigger]
                d.proper(numbers) && !roomy(d.value(numbers), numbers.len());
            lemma_all_roomy(numbers, d);
        }
    }
}

} // verus!

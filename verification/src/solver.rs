//! The entry point: build everything the numbers allow, and pick what
//! comes closest to the target.

use crate::complete::lemma_nothing_missed;
use crate::complete::Derivation;
use crate::engine::generate_base;
use crate::engine::generate_useful;
use crate::engine::grown;
use crate::engine::joined;
use crate::engine::lemma_grown_len;
use crate::engine::planted;
use crate::engine::useful;
use crate::expression::Expression;
use crate::expression::SolveError;
use crate::fingerprint::MAX_NUMBERS;
use crate::limits::derivable;
use crate::limits::lemma_gives_up_when_outgrown;
use crate::limits::lemma_population_derivable;
use crate::limits::outgrown;
use crate::sound::lemma_population_sound;
use crate::sound::sound;
use vstd::prelude::*;

verus! {

/// How far `value` lies from `target`, over the integers.
pub open spec fn gap(value: int, target: int) -> int {
    if value >= target {
        value - target
    } else {
        target - value
    }
}

/// How far `value` lies from `target`.
pub open spec fn distance(value: u128, target: u128) -> int {
    gap(value as int, target as int)
}

/// Whether nothing that can be derived from `numbers` comes closer to
/// `target` than `e` does.
pub open spec fn unbeaten(e: Expression, numbers: Seq<u128>, target: u128) -> bool {
    forall|d: Derivation| #[trigger]
        d.proper(numbers) ==> distance(e.value, target) <= gap(d.value(numbers), target as int)
}

/// Whether the expression at `k` is the closest to `target`, and the first
/// among those that are as close.
pub open spec fn first_closest(s: Seq<Expression>, target: u128, k: int) -> bool {
    &&& 0 <= k < s.len()
    &&& forall|j: int|
        0 <= j < s.len() ==> distance(s[k].value, target) <= distance((#[trigger] s[j]).value, target)
    &&& forall|j: int|
        0 <= j < k ==> distance(s[k].value, target) < distance((#[trigger] s[j]).value, target)
}

/// Whether `r` is the answer for `numbers` and `target`: the error that
/// planting or growing meets, or else the first closest of all that is
/// built.
pub open spec fn solves(numbers: Seq<u128>, target: u128, r: Result<Expression, SolveError>) -> bool {
    match planted(numbers) {
        Err(e) => r == Err::<Expression, SolveError>(e),
        Ok(base) => match useful(base) {
            Err(e) => r == Err::<Expression, SolveError>(e),
            Ok(all) => r is Ok && exists|k: int| first_closest(all, target, k) && all[k] == r->Ok_0,
        },
    }
}

/// The answer is one: two results that solve the same numbers for the same
/// target are the same, node for node.
pub proof fn lemma_one_answer(
    numbers: Seq<u128>,
    target: u128,
    r1: Result<Expression, SolveError>,
    r2: Result<Expression, SolveError>,
)
    requires
        solves(numbers, target, r1),
        solves(numbers, target, r2),
    ensures
        r1 == r2,
{
    if planted(numbers) is Ok && useful(planted(numbers)->Ok_0) is Ok {
        let all = useful(planted(numbers)->Ok_0)->Ok_0;
        let k1 = choose|k: int| first_closest(all, target, k) && all[k] == r1->Ok_0;
        let k2 = choose|k: int| first_closest(all, target, k) && all[k] == r2->Ok_0;
        if k1 < k2 {
            assert(distance(all[k2].value, target) < distance(all[k1].value, target));
            assert(distance(all[k1].value, target) <= distance(all[k2].value, target));
        } else if k2 < k1 {
            assert(distance(all[k1].value, target) < distance(all[k2].value, target));
            assert(distance(all[k2].value, target) <= distance(all[k1].value, target));
        }
    }
}

/// The answer is as close as can be: no derivation from the numbers, each
/// used at most once and every operation passing its guard, reaches a value
/// closer to the target.
pub proof fn lemma_closest_possible(
    numbers: Seq<u128>,
    target: u128,
    r: Result<Expression, SolveError>,
)
    requires
        solves(numbers, target, r),
        r is Ok,
    ensures
        unbeaten(r->Ok_0, numbers, target),
{
    let all = useful(planted(numbers)->Ok_0)->Ok_0;
    let best = choose|k: int| first_closest(all, target, k) && all[k] == r->Ok_0;
    assert forall|d: Derivation| #[trigger] d.proper(numbers) implies distance(
        r->Ok_0.value,
        target,
    ) <= gap(d.value(numbers), target as int) by {
        let k = lemma_nothing_missed(numbers, d);
        assert(distance(all[best].value, target) <= distance(all[k].value, target));
    }
}

/// The groups, one after the other, begin with the first group.
pub proof fn lemma_joined_begins(groups: Seq<Seq<Expression>>)
    requires
        groups.len() > 0,
    ensures
        joined(groups).len() >= groups[0].len(),
        joined(groups).take(groups[0].len() as int) == groups[0],
    decreases groups.len(),
{
    if groups.len() > 1 {
        lemma_joined_begins(groups.drop_last());
        assert(groups.drop_last()[0] == groups[0]);
        assert(joined(groups).take(groups[0].len() as int) == joined(groups.drop_last()).take(
            groups[0].len() as int,
        ));
    } else {
        assert(groups.drop_last().len() == 0);
        assert(joined(groups.drop_last()) == Seq::<Expression>::empty());
        assert(joined(groups) == groups[0]);
    }
}

/// All that the engine builds from a base begins with the base itself.
pub proof fn lemma_useful_begins(base: Seq<Expression>)
    requires
        useful(base) is Ok,
    ensures
        useful(base)->Ok_0.len() >= base.len() > 0,
        useful(base)->Ok_0.take(base.len() as int) == base,
{
    lemma_grown_len(base, base.len());
    lemma_joined_begins(grown(base, base.len())->Ok_0.groups);
}

/// The place of the expression closest to `target`, the first of them
/// where several are as close; none where there is no expression.
pub fn closest(expressions: &[Expression], target: &u128) -> (r: Option<usize>)
    ensures
        expressions@.len() == 0 ==> r is None,
        expressions@.len() > 0 ==> r is Some && first_closest(
            expressions@,
            *target,
            r->Some_0 as int,
        ),
{
    if expressions.len() == 0 {
        return None;
    }
    let mut best: usize = 0;
    let mut least: u128 = if expressions[0].value >= *target {
        expressions[0].value - *target
    } else {
        *target - expressions[0].value
    };
    let mut i: usize = 1;
    while i < expressions.len()
        invariant
            1 <= i <= expressions.len(),
            best < i,
            least == distance(expressions@[best as int].value, *target),
            forall|j: int|
                0 <= j < i ==> least <= distance((#[trigger] expressions@[j]).value, *target),
            forall|j: int|
                0 <= j < best ==> least < distance((#[trigger] expressions@[j]).value, *target),
        decreases expressions.len() - i,
    {
        let value: u128 = expressions[i].value;
        let away: u128 = if value >= *target {
            value - *target
        } else {
            *target - value
        };
        if away < least {
            best = i;
            least = away;
        }
        i = i + 1;
    }
    Some(best)
}

/// The expression over `numbers`, each used at most once, whose value comes
/// closest to `target`; of several as close, the one that is built first.
pub fn find_combination(numbers: &[u128], target: &u128) -> (r: Result<Expression, SolveError>)
    ensures
        solves(numbers@, *target, r),
        numbers@.len() == 0 ==> r == Err::<Expression, SolveError>(SolveError::EmptyInput),
        numbers@.len() > MAX_NUMBERS ==> r == Err::<Expression, SolveError>(
            SolveError::TooManyNumbers,
        ),
        0 < numbers@.len() <= MAX_NUMBERS && outgrown(numbers@) ==> r == Err::<
            Expression,
            SolveError,
        >(SolveError::Overflow),
        0 < numbers@.len() <= MAX_NUMBERS && !outgrown(numbers@) ==> r is Ok,
        r is Ok ==> sound(r->Ok_0, numbers@),
        r is Ok ==> derivable(r->Ok_0, numbers@),
        r is Ok ==> unbeaten(r->Ok_0, numbers@, *target),
{
    proof {
        if 0 < numbers@.len() <= MAX_NUMBERS {
            lemma_gives_up_when_outgrown(numbers@);
        }
    }
    let base = match generate_base(numbers) {
        Err(e) => { return Err(e); },
        Ok(base) => base,
    };
    let all = match generate_useful(base.as_slice()) {
        Err(e) => { return Err(e); },
        Ok(all) => all,
    };
    proof {
        lemma_useful_begins(base@);
        lemma_population_sound(numbers@);
        lemma_population_derivable(numbers@);
    }
    let r = match closest(all.as_slice(), target) {
        None => Err(SolveError::EmptyInput),
        Some(k) => Ok(all[k].clone()),
    };
    proof {
        lemma_closest_possible(numbers@, *target, r);
    }
    r
}

} // verus!

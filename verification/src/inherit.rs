//! What the operations pass on, the engine passes on: a property that
//! holds of the base, and of every result of an operation on two
//! expressions that have it and share no input, holds of everything built.

use crate::engine::after_pairs;
use crate::engine::combined;
use crate::engine::crossed;
use crate::engine::grown;
use crate::engine::joined;
use crate::engine::level;
use crate::engine::listed;
use crate::engine::offer_all;
use crate::engine::useful;
use crate::engine::Progress;
use crate::expression::shares;
use crate::expression::Expression;
use crate::expression::Operation;
use crate::pairs::lemma_cell;
use vstd::prelude::*;

verus! {

/// Whether `has` is true of every expression of `s`.
pub open spec fn every(s: Seq<Expression>, has: spec_fn(Expression) -> bool) -> bool {
    forall|i: int| 0 <= i < s.len() ==> has(#[trigger] s[i])
}

/// Whether `has` is true of every expression of every group.
pub open spec fn every_group(groups: Seq<Seq<Expression>>, has: spec_fn(Expression) -> bool) -> bool {
    forall|g: int| 0 <= g < groups.len() ==> every(#[trigger] groups[g], has)
}

/// Whether the operations pass `has` on: what any of them makes of two
/// expressions that have it and share no input has it too.
pub open spec fn inherited(has: spec_fn(Expression) -> bool) -> bool {
    forall|op: Operation, e1: Expression, e2: Expression|
        has(e1) && has(e2) && !shares(e1, e2) && (#[trigger] op.outcome(e1, e2)) is Ok
            && op.outcome(e1, e2)->Ok_0 is Some ==> has(op.outcome(e1, e2)->Ok_0->Some_0)
}

/// Two sequences that have the property, one after the other, have it.
pub proof fn lemma_joint_every(
    s: Seq<Expression>,
    t: Seq<Expression>,
    has: spec_fn(Expression) -> bool,
)
    requires
        every(s, has),
        every(t, has),
    ensures
        every(s + t, has),
{
    assert forall|i: int| 0 <= i < (s + t).len() implies has(#[trigger] (s + t)[i]) by {
        if i < s.len() {
            assert((s + t)[i] == s[i]);
        } else {
            assert((s + t)[i] == t[i - s.len()]);
        }
    }
}

/// Candidates that have the property, offered to a run that kept it, leave
/// it so.
pub proof fn lemma_offer_all_every(
    p: Progress,
    cs: Seq<Expression>,
    n: nat,
    has: spec_fn(Expression) -> bool,
)
    requires
        every(p.kept, has),
        every(cs, has),
        offer_all(p, cs, n) is Ok,
    ensures
        every(offer_all(p, cs, n)->Ok_0.kept, has),
    decreases cs.len(),
{
    if cs.len() > 0 {
        assert(every(cs.drop_last(), has)) by {
            assert forall|i: int| 0 <= i < cs.drop_last().len() implies has(
                #[trigger] cs.drop_last()[i],
            ) by {
                assert(cs.drop_last()[i] == cs[i]);
            }
        }
        lemma_offer_all_every(p, cs.drop_last(), n, has);
        assert(has(cs[cs.len() - 1]));
    }
}

/// What the operations make of two expressions that have an inherited
/// property and share no input has it.
pub proof fn lemma_combined_every(e1: Expression, e2: Expression, has: spec_fn(Expression) -> bool)
    requires
        inherited(has),
        has(e1),
        has(e2),
        !shares(e1, e2),
        combined(e1, e2) is Ok,
    ensures
        every(combined(e1, e2)->Ok_0, has),
{
    let sum = listed(Operation::Add.outcome(e1, e2)->Ok_0);
    let product = listed(Operation::Multiply.outcome(e1, e2)->Ok_0);
    let difference = listed(Operation::Subtract.outcome(e1, e2)->Ok_0);
    let quotient = listed(Operation::Divide.outcome(e1, e2)->Ok_0);
    assert(every(sum, has));
    assert(every(product, has));
    assert(every(difference, has));
    assert(every(quotient, has));
    lemma_joint_every(sum, product, has);
    lemma_joint_every(sum + product, difference, has);
    lemma_joint_every(sum + product + difference, quotient, has);
}

/// Crossing sequences that have an inherited property keeps it.
pub proof fn lemma_after_pairs_every(
    p: Progress,
    v1: Seq<Expression>,
    v2: Seq<Expression>,
    k: nat,
    n: nat,
    has: spec_fn(Expression) -> bool,
)
    requires
        inherited(has),
        k <= v1.len() * v2.len(),
        every(p.kept, has),
        every(v1, has),
        every(v2, has),
        after_pairs(p, v1, v2, k, n) is Ok,
    ensures
        every(after_pairs(p, v1, v2, k, n)->Ok_0.kept, has),
    decreases k,
{
    if k > 0 {
        lemma_after_pairs_every(p, v1, v2, (k - 1) as nat, n, has);
        let q = after_pairs(p, v1, v2, (k - 1) as nat, n)->Ok_0;
        lemma_cell(v1.len() as int, v2.len() as int, k - 1);
        let e1 = v1[(k - 1) / (v2.len() as int)];
        let e2 = v2[(k - 1) % (v2.len() as int)];
        if !shares(e1, e2) {
            lemma_combined_every(e1, e2, has);
            lemma_offer_all_every(q, combined(e1, e2)->Ok_0, n, has);
        }
    }
}

/// A group built from groups that have an inherited property has it.
pub proof fn lemma_level_every(
    done: Seq<Seq<Expression>>,
    seen: Set<u128>,
    j: nat,
    n: nat,
    has: spec_fn(Expression) -> bool,
)
    requires
        inherited(has),
        j <= done.len(),
        every_group(done, has),
        level(done, seen, j, n) is Ok,
    ensures
        every(level(done, seen, j, n)->Ok_0.kept, has),
    decreases j,
{
    if j > 0 {
        lemma_level_every(done, seen, (j - 1) as nat, n, has);
        let p = level(done, seen, (j - 1) as nat, n)->Ok_0;
        let v1 = done[j - 1];
        let v2 = done[done.len() - j];
        let start = Progress { seen: p.seen, kept: Seq::empty() };
        lemma_after_pairs_every(start, v1, v2, v1.len() * v2.len(), n, has);
        lemma_joint_every(p.kept, crossed(v1, v2, p.seen, n)->Ok_0.kept, has);
    }
}

/// Every group that the engine finishes from a base that has an inherited
/// property has it.
pub proof fn lemma_grown_every(base: Seq<Expression>, i: nat, has: spec_fn(Expression) -> bool)
    requires
        inherited(has),
        every(base, has),
        grown(base, i) is Ok,
    ensures
        every_group(grown(base, i)->Ok_0.groups, has),
    decreases i,
{
    if i > 1 {
        lemma_grown_every(base, (i - 1) as nat, has);
        let l = grown(base, (i - 1) as nat)->Ok_0;
        lemma_level_every(l.groups, l.seen, l.groups.len(), base.len(), has);
    }
}

/// Groups that have a property, one after the other, have it.
pub proof fn lemma_joined_every(groups: Seq<Seq<Expression>>, has: spec_fn(Expression) -> bool)
    requires
        every_group(groups, has),
    ensures
        every(joined(groups), has),
    decreases groups.len(),
{
    if groups.len() > 0 {
        assert(every_group(groups.drop_last(), has)) by {
            assert forall|g: int| 0 <= g < groups.drop_last().len() implies every(
                #[trigger] groups.drop_last()[g],
                has,
            ) by {
                assert(groups.drop_last()[g] == groups[g]);
            }
        }
        lemma_joined_every(groups.drop_last(), has);
        assert(every(groups[groups.len() - 1], has));
        lemma_joint_every(joined(groups.drop_last()), groups.last(), has);
    }
}

/// Everything that the engine builds from a base that has an inherited
/// property has it.
pub proof fn lemma_useful_every(base: Seq<Expression>, has: spec_fn(Expression) -> bool)
    requires
        inherited(has),
        every(base, has),
        useful(base) is Ok,
    ensures
        every(useful(base)->Ok_0, has),
{
    lemma_grown_every(base, base.len(), has);
    lemma_joined_every(grown(base, base.len())->Ok_0.groups, has);
}

} // verus!

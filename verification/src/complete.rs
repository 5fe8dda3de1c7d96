//! Nothing is missed: whatever can be derived from the numbers, each used
//! at most once and every operation passing its guard, has its value among
//! those that the engine builds.

use crate::distinct::holds;
use crate::distinct::lemma_grown_tidy;
use crate::distinct::lemma_level_tidy;
use crate::distinct::lemma_planted_apart;
use crate::engine::after_pairs;
use crate::engine::combined;
use crate::engine::crossed;
use crate::engine::grown;
use crate::engine::joined;
use crate::engine::leaf;
use crate::engine::lemma_grown_len;
use crate::engine::level;
use crate::engine::listed;
use crate::engine::offer_all;
use crate::engine::planted;
use crate::engine::useful;
use crate::engine::Progress;
use crate::expression::shares;
use crate::expression::Expression;
use crate::expression::Operation;
use crate::expression::SolveError;
use crate::fingerprint::fingerprint;
use crate::fingerprint::lemma_fingerprint_injective;
use crate::fingerprint::within;
use crate::fingerprint::MAX_NUMBERS;
use crate::pairs::lemma_cell;
use crate::sound::all_sound;
use crate::sound::lemma_grown_sound;
use crate::sound::lemma_leaf_sound;
use crate::sound::lemma_picked_joint;
use crate::sound::lemma_picked_single;
use crate::sound::picked;
use crate::sound::sound;
use vstd::prelude::*;

verus! {

/// Whether every candidate of `cs` has a fingerprint, and `seen` holds it.
pub open spec fn covered(cs: Seq<Expression>, seen: Set<u128>, n: nat) -> bool {
    forall|t: int|
        0 <= t < cs.len() ==> fingerprint(#[trigger] cs[t], n) is Ok && seen.contains(
            fingerprint(cs[t], n)->Ok_0,
        )
}

/// What was offered is seen afterwards, and nothing seen is forgotten.
pub proof fn lemma_offer_all_covers(p: Progress, cs: Seq<Expression>, n: nat)
    requires
        offer_all(p, cs, n) is Ok,
    ensures
        p.seen.subset_of(offer_all(p, cs, n)->Ok_0.seen),
        covered(cs, offer_all(p, cs, n)->Ok_0.seen, n),
    decreases cs.len(),
{
    if cs.len() > 0 {
        lemma_offer_all_covers(p, cs.drop_last(), n);
        let q = offer_all(p, cs.drop_last(), n)->Ok_0;
        let r = offer_all(p, cs, n)->Ok_0;
        assert forall|t: int| 0 <= t < cs.len() implies fingerprint(#[trigger] cs[t], n) is Ok
            && r.seen.contains(fingerprint(cs[t], n)->Ok_0) by {
            if t < cs.len() - 1 {
                assert(cs.drop_last()[t] == cs[t]);
            }
        }
    }
}

/// Crossing forgets nothing that was seen.
pub proof fn lemma_after_pairs_grows(
    p: Progress,
    v1: Seq<Expression>,
    v2: Seq<Expression>,
    k: nat,
    n: nat,
)
    requires
        after_pairs(p, v1, v2, k, n) is Ok,
    ensures
        p.seen.subset_of(after_pairs(p, v1, v2, k, n)->Ok_0.seen),
    decreases k,
{
    if k > 0 {
        lemma_after_pairs_grows(p, v1, v2, (k - 1) as nat, n);
        let q = after_pairs(p, v1, v2, (k - 1) as nat, n)->Ok_0;
        let e1 = v1[(k - 1) / (v2.len() as int)];
        let e2 = v2[(k - 1) % (v2.len() as int)];
        if !shares(e1, e2) {
            lemma_offer_all_covers(q, combined(e1, e2)->Ok_0, n);
        }
    }
}

/// Once `k` pairs are crossed, what the operations make of the pair at
/// place `m` below `k` is seen.
pub proof fn lemma_after_pairs_covers(
    p: Progress,
    v1: Seq<Expression>,
    v2: Seq<Expression>,
    k: nat,
    n: nat,
    m: int,
)
    requires
        0 <= m < k,
        after_pairs(p, v1, v2, k, n) is Ok,
        !shares(v1[m / (v2.len() as int)], v2[m % (v2.len() as int)]),
    ensures
        combined(v1[m / (v2.len() as int)], v2[m % (v2.len() as int)]) is Ok,
        covered(
            combined(v1[m / (v2.len() as int)], v2[m % (v2.len() as int)])->Ok_0,
            after_pairs(p, v1, v2, k, n)->Ok_0.seen,
            n,
        ),
    decreases k,
{
    let q = after_pairs(p, v1, v2, (k - 1) as nat, n)->Ok_0;
    let r = after_pairs(p, v1, v2, k, n)->Ok_0;
    let e1 = v1[(k - 1) / (v2.len() as int)];
    let e2 = v2[(k - 1) % (v2.len() as int)];
    if !shares(e1, e2) {
        lemma_offer_all_covers(q, combined(e1, e2)->Ok_0, n);
    }
    if m < k - 1 {
        lemma_after_pairs_covers(p, v1, v2, (k - 1) as nat, n, m);
        let cs = combined(v1[m / (v2.len() as int)], v2[m % (v2.len() as int)])->Ok_0;
        assert forall|t: int| 0 <= t < cs.len() implies fingerprint(#[trigger] cs[t], n) is Ok
            && r.seen.contains(fingerprint(cs[t], n)->Ok_0) by {
            assert(q.seen.contains(fingerprint(cs[t], n)->Ok_0));
        }
    }
}

/// The cell in row `x` and column `y` has the place `x * columns + y`.
pub proof fn lemma_place(rows: int, columns: int, x: int, y: int)
    requires
        0 <= x < rows,
        0 <= y < columns,
    ensures
        0 <= x * columns + y < rows * columns,
        (x * columns + y) / columns == x,
        (x * columns + y) % columns == y,
{
    let m = x * columns + y;
    assert(0 <= m < rows * columns) by (nonlinear_arith)
        requires
            0 <= x < rows,
            0 <= y < columns,
            m == x * columns + y,
    ;
    lemma_cell(rows, columns, m);
    let q = m / columns;
    let r = m % columns;
    assert(q == x && r == y) by (nonlinear_arith)
        requires
            q * columns + r == x * columns + y,
            0 <= r < columns,
            0 <= y < columns,
    ;
}

/// Once two sequences are crossed, what the operations make of any of
/// their pairs is seen, and nothing seen before is forgotten.
pub proof fn lemma_crossed_covers(
    v1: Seq<Expression>,
    v2: Seq<Expression>,
    seen: Set<u128>,
    n: nat,
    x: int,
    y: int,
)
    requires
        0 <= x < v1.len(),
        0 <= y < v2.len(),
        crossed(v1, v2, seen, n) is Ok,
        !shares(v1[x], v2[y]),
    ensures
        combined(v1[x], v2[y]) is Ok,
        covered(combined(v1[x], v2[y])->Ok_0, crossed(v1, v2, seen, n)->Ok_0.seen, n),
{
    lemma_place(v1.len() as int, v2.len() as int, x, y);
    let start = Progress { seen, kept: Seq::empty() };
    lemma_after_pairs_covers(start, v1, v2, v1.len() * v2.len(), n, x * v2.len() + y);
}

/// Once `j` splits of a level are done, what the operations make of any
/// pair of the split `s` below `j` is seen.
pub proof fn lemma_level_covers(
    done: Seq<Seq<Expression>>,
    seen: Set<u128>,
    j: nat,
    n: nat,
    s: int,
    x: int,
    y: int,
)
    requires
        0 <= s < j <= done.len(),
        0 <= x < done[s].len(),
        0 <= y < done[done.len() - 1 - s].len(),
        level(done, seen, j, n) is Ok,
        !shares(done[s][x], done[done.len() - 1 - s][y]),
    ensures
        combined(done[s][x], done[done.len() - 1 - s][y]) is Ok,
        covered(
            combined(done[s][x], done[done.len() - 1 - s][y])->Ok_0,
            level(done, seen, j, n)->Ok_0.seen,
            n,
        ),
    decreases j,
{
    let p = level(done, seen, (j - 1) as nat, n)->Ok_0;
    let r = level(done, seen, j, n)->Ok_0;
    let v1 = done[j - 1];
    let v2 = done[done.len() - j];
    let cs = combined(done[s][x], done[done.len() - 1 - s][y])->Ok_0;
    if s == j - 1 {
        lemma_crossed_covers(v1, v2, p.seen, n, x, y);
    } else {
        lemma_level_covers(done, seen, (j - 1) as nat, n, s, x, y);
        lemma_after_pairs_grows(
            Progress { seen: p.seen, kept: Seq::empty() },
            v1,
            v2,
            v1.len() * v2.len(),
            n,
        );
        assert forall|t: int| 0 <= t < cs.len() implies fingerprint(#[trigger] cs[t], n) is Ok
            && r.seen.contains(fingerprint(cs[t], n)->Ok_0) by {
            assert(p.seen.contains(fingerprint(cs[t], n)->Ok_0));
        }
    }
}

/// The engine with fewer groups finished is where the engine with more
/// groups finished has been: it holds the first of the groups.
pub proof fn lemma_grown_before(base: Seq<Expression>, i: nat, total: nat)
    requires
        1 <= i <= total,
        grown(base, total) is Ok,
    ensures
        grown(base, i) is Ok,
        grown(base, i)->Ok_0.groups == grown(base, total)->Ok_0.groups.take(i as int),
        grown(base, total)->Ok_0.groups.len() == total,
    decreases total,
{
    lemma_grown_len(base, total);
    if i < total {
        lemma_grown_before(base, i, (total - 1) as nat);
        let l = grown(base, (total - 1) as nat)->Ok_0;
        lemma_grown_len(base, (total - 1) as nat);
        assert(grown(base, total)->Ok_0.groups.take(i as int) == l.groups.take(i as int));
    } else {
        assert(grown(base, total)->Ok_0.groups.take(i as int) == grown(base, total)->Ok_0.groups);
    }
}

/// Whether every expression of `s` has `size` leaves.
pub open spec fn sized(s: Seq<Expression>, size: nat) -> bool {
    forall|i: int| 0 <= i < s.len() ==> (#[trigger] s[i]).state.leaves().len() == size
}

/// Whether every group holds the expressions with one leaf more than its
/// index.
pub open spec fn groups_sized(groups: Seq<Seq<Expression>>) -> bool {
    forall|g: int| 0 <= g < groups.len() ==> sized(#[trigger] groups[g], (g + 1) as nat)
}

/// Candidates of one size, offered to a run that kept that size, leave it
/// so.
pub proof fn lemma_offer_all_sized(p: Progress, cs: Seq<Expression>, n: nat, size: nat)
    requires
        sized(p.kept, size),
        sized(cs, size),
        offer_all(p, cs, n) is Ok,
    ensures
        sized(offer_all(p, cs, n)->Ok_0.kept, size),
    decreases cs.len(),
{
    if cs.len() > 0 {
        assert(sized(cs.drop_last(), size)) by {
            assert forall|i: int| 0 <= i < cs.drop_last().len() implies (
            #[trigger] cs.drop_last()[i]).state.leaves().len() == size by {
                assert(cs.drop_last()[i] == cs[i]);
            }
        }
        lemma_offer_all_sized(p, cs.drop_last(), n, size);
        assert(cs[cs.len() - 1].state.leaves().len() == size);
    }
}

/// What the operations make of two expressions has the leaves of both.
pub proof fn lemma_combined_sized(e1: Expression, e2: Expression)
    requires
        combined(e1, e2) is Ok,
    ensures
        sized(combined(e1, e2)->Ok_0, e1.state.leaves().len() + e2.state.leaves().len()),
{
    broadcast use vstd::multiset::group_multiset_axioms;

    let size = e1.state.leaves().len() + e2.state.leaves().len();
    let sum = listed(Operation::Add.outcome(e1, e2)->Ok_0);
    let product = listed(Operation::Multiply.outcome(e1, e2)->Ok_0);
    let difference = listed(Operation::Subtract.outcome(e1, e2)->Ok_0);
    let quotient = listed(Operation::Divide.outcome(e1, e2)->Ok_0);
    assert(sized(sum, size));
    assert(sized(product, size));
    assert(sized(difference, size));
    assert(sized(quotient, size));
    let cs = combined(e1, e2)->Ok_0;
    assert forall|i: int| 0 <= i < cs.len() implies (#[trigger] cs[i]).state.leaves().len()
        == size by {
        if i < sum.len() {
            assert(cs[i] == sum[i]);
        } else if i < sum.len() + product.len() {
            assert(cs[i] == product[i - sum.len()]);
        } else if i < sum.len() + product.len() + difference.len() {
            assert(cs[i] == difference[i - sum.len() - product.len()]);
        } else {
            assert(cs[i] == quotient[i - sum.len() - product.len() - difference.len()]);
        }
    }
}

/// Crossing expressions of `a` leaves with expressions of `b` leaves keeps
/// expressions of `a + b` leaves.
pub proof fn lemma_after_pairs_sized(
    p: Progress,
    v1: Seq<Expression>,
    v2: Seq<Expression>,
    k: nat,
    n: nat,
    a: nat,
    b: nat,
)
    requires
        k <= v1.len() * v2.len(),
        sized(v1, a),
        sized(v2, b),
        sized(p.kept, a + b),
        after_pairs(p, v1, v2, k, n) is Ok,
    ensures
        sized(after_pairs(p, v1, v2, k, n)->Ok_0.kept, a + b),
    decreases k,
{
    if k > 0 {
        lemma_after_pairs_sized(p, v1, v2, (k - 1) as nat, n, a, b);
        let q = after_pairs(p, v1, v2, (k - 1) as nat, n)->Ok_0;
        lemma_cell(v1.len() as int, v2.len() as int, k - 1);
        let e1 = v1[(k - 1) / (v2.len() as int)];
        let e2 = v2[(k - 1) % (v2.len() as int)];
        if !shares(e1, e2) {
            lemma_combined_sized(e1, e2);
            lemma_offer_all_sized(q, combined(e1, e2)->Ok_0, n, a + b);
        }
    }
}

/// The group after `done` holds expressions with one leaf more than there
/// are groups in `done`.
pub proof fn lemma_level_sized(done: Seq<Seq<Expression>>, seen: Set<u128>, j: nat, n: nat)
    requires
        j <= done.len(),
        groups_sized(done),
        level(done, seen, j, n) is Ok,
    ensures
        sized(level(done, seen, j, n)->Ok_0.kept, done.len() + 1),
    decreases j,
{
    if j > 0 {
        lemma_level_sized(done, seen, (j - 1) as nat, n);
        let p = level(done, seen, (j - 1) as nat, n)->Ok_0;
        let v1 = done[j - 1];
        let v2 = done[done.len() - j];
        let start = Progress { seen: p.seen, kept: Seq::empty() };
        assert(sized(v1, j));
        assert(sized(v2, (done.len() - j + 1) as nat));
        lemma_after_pairs_sized(
            start,
            v1,
            v2,
            v1.len() * v2.len(),
            n,
            j,
            (done.len() - j + 1) as nat,
        );
        let q = crossed(v1, v2, p.seen, n)->Ok_0;
        assert forall|i: int| 0 <= i < (p.kept + q.kept).len() implies (#[trigger] (p.kept
            + q.kept)[i]).state.leaves().len() == done.len() + 1 by {
            if i < p.kept.len() {
                assert((p.kept + q.kept)[i] == p.kept[i]);
            } else {
                assert((p.kept + q.kept)[i] == q.kept[i - p.kept.len()]);
            }
        }
    }
}

/// From a base of leaves, every group holds the expressions with one leaf
/// more than its index.
pub proof fn lemma_grown_sized(base: Seq<Expression>, i: nat)
    requires
        sized(base, 1),
        grown(base, i) is Ok,
    ensures
        groups_sized(grown(base, i)->Ok_0.groups),
    decreases i,
{
    if i > 1 {
        lemma_grown_sized(base, (i - 1) as nat);
        let l = grown(base, (i - 1) as nat)->Ok_0;
        lemma_grown_len(base, (i - 1) as nat);
        lemma_level_sized(l.groups, l.seen, l.groups.len(), base.len());
        let groups = grown(base, i)->Ok_0.groups;
        assert forall|g: int| 0 <= g < groups.len() implies sized(
            #[trigger] groups[g],
            (g + 1) as nat,
        ) by {
            if g < l.groups.len() {
                assert(groups[g] == l.groups[g]);
            }
        }
    }
}

/// An expression among the groups taken together lies in one of them.
pub proof fn lemma_joined_member(groups: Seq<Seq<Expression>>, z: int) -> (place: (int, int))
    requires
        0 <= z < joined(groups).len(),
    ensures
        0 <= place.0 < groups.len(),
        0 <= place.1 < groups[place.0].len(),
        groups[place.0][place.1] == joined(groups)[z],
    decreases groups.len(),
{
    let before = joined(groups.drop_last());
    if z < before.len() {
        let place = lemma_joined_member(groups.drop_last(), z);
        assert(groups.drop_last()[place.0] == groups[place.0]);
        place
    } else {
        (groups.len() - 1, z - before.len())
    }
}

/// A way to reach a value from a list of numbers: a number at a position,
/// or an operation on what two such ways reach.
pub enum Derivation {
    Leaf { position: nat },
    Node { op: Operation, left: Box<Derivation>, right: Box<Derivation> },
}

impl Derivation {
    /// The positions of the numbers that are used, as a mask.
    pub open spec fn mask(self) -> u64
        decreases self,
    {
        match self {
            Derivation::Leaf { position } => 1u64 << (position as u64),
            Derivation::Node { op, left, right } => left.mask() | right.mask(),
        }
    }

    /// How many leaves there are.
    pub open spec fn count(self) -> nat
        decreases self,
    {
        match self {
            Derivation::Leaf { position } => 1,
            Derivation::Node { op, left, right } => left.count() + right.count(),
        }
    }

    /// The value that is reached, over the integers.
    pub open spec fn value(self, numbers: Seq<u128>) -> int
        decreases self,
    {
        match self {
            Derivation::Leaf { position } => numbers[position as int] as int,
            Derivation::Node { op, left, right } => op.result(
                left.value(numbers),
                right.value(numbers),
            ),
        }
    }

    /// Whether this is a way that the rules allow: every position is one of
    /// the numbers, no position is used on both sides of an operation, and
    /// every operation passes its guard.
    pub open spec fn proper(self, numbers: Seq<u128>) -> bool
        decreases self,
    {
        match self {
            Derivation::Leaf { position } => position < numbers.len(),
            Derivation::Node { op, left, right } => {
                &&& left.proper(numbers)
                &&& right.proper(numbers)
                &&& left.mask() & right.mask() == 0
                &&& op.applies(left.value(numbers), right.value(numbers))
            },
        }
    }
}

/// The numbers that a mask picks are no more than the positions looked at.
pub proof fn lemma_picked_bound(numbers: Seq<u128>, mask: u64, k: nat)
    ensures
        picked(numbers, mask, k).len() <= k,
    decreases k,
{
    broadcast use vstd::multiset::group_multiset_axioms;

    if k > 0 {
        lemma_picked_bound(numbers, mask, (k - 1) as nat);
        vstd::multiset::lemma_insert_len(picked(numbers, mask, (k - 1) as nat), numbers[k - 1]);
    }
}

/// A proper derivation uses at least one position and none beyond the
/// numbers, and as many positions as it has leaves.
pub proof fn lemma_derivation_mask(d: Derivation, numbers: Seq<u128>)
    requires
        numbers.len() <= MAX_NUMBERS,
        d.proper(numbers),
    ensures
        d.mask() != 0,
        within(d.mask(), numbers.len()),
        picked(numbers, d.mask(), numbers.len()).len() == d.count(),
        1 <= d.count() <= numbers.len(),
    decreases d,
{
    broadcast use vstd::multiset::group_multiset_axioms;

    let n = numbers.len();
    match d {
        Derivation::Leaf { position } => {
            lemma_leaf_sound(numbers, position as int);
            lemma_picked_single(numbers, position, n);
        },
        Derivation::Node { op, left, right } => {
            lemma_derivation_mask(*left, numbers);
            lemma_derivation_mask(*right, numbers);
            let a = left.mask();
            let b = right.mask();
            let s = n as u128;
            assert(a | b != 0 && ((a | b) as u128) < (1u128 << s)) by (bit_vector)
                requires
                    s <= 64,
                    a != 0,
                    (a as u128) < (1u128 << s),
                    (b as u128) < (1u128 << s),
            ;
            lemma_picked_joint(numbers, a, b, n);
            lemma_picked_bound(numbers, a | b, n);
        },
    }
}

/// What an operation makes of a pair is among what the operations make of
/// it.
pub proof fn lemma_combined_has(op: Operation, e1: Expression, e2: Expression) -> (t: int)
    requires
        combined(e1, e2) is Ok,
        op.outcome(e1, e2) matches Ok(Some(_)),
    ensures
        0 <= t < combined(e1, e2)->Ok_0.len(),
        combined(e1, e2)->Ok_0[t] == op.outcome(e1, e2)->Ok_0->Some_0,
{
    let sum = listed(Operation::Add.outcome(e1, e2)->Ok_0);
    let product = listed(Operation::Multiply.outcome(e1, e2)->Ok_0);
    let difference = listed(Operation::Subtract.outcome(e1, e2)->Ok_0);
    let quotient = listed(Operation::Divide.outcome(e1, e2)->Ok_0);
    let cs = combined(e1, e2)->Ok_0;
    assert(cs == sum + product + difference + quotient);
    match op {
        Operation::Add => {
            assert(cs[0] == sum[0]);
            0
        },
        Operation::Multiply => {
            assert(cs[sum.len() as int] == product[0]);
            sum.len() as int
        },
        Operation::Subtract => {
            assert(cs[(sum.len() + product.len()) as int] == difference[0]);
            (sum.len() + product.len()) as int
        },
        Operation::Divide => {
            assert(cs[(sum.len() + product.len() + difference.len()) as int] == quotient[0]);
            (sum.len() + product.len() + difference.len()) as int
        },
    }
}

/// Every proper derivation is matched in the group of its size: the group
/// holds an expression with the value that the derivation reaches and the
/// positions that it uses. The result is the place of that expression.
pub proof fn lemma_reaches(numbers: Seq<u128>, d: Derivation) -> (x: int)
    requires
        planted(numbers) is Ok,
        grown(planted(numbers)->Ok_0, numbers.len()) is Ok,
        d.proper(numbers),
    ensures
        1 <= d.count() <= numbers.len(),
        grown(planted(numbers)->Ok_0, numbers.len())->Ok_0.groups.len() == numbers.len(),
        0 <= x < grown(planted(numbers)->Ok_0, numbers.len())->Ok_0.groups[d.count() - 1].len(),
        grown(planted(numbers)->Ok_0, numbers.len())->Ok_0.groups[d.count() - 1][x].value
            == d.value(numbers),
        grown(planted(numbers)->Ok_0, numbers.len())->Ok_0.groups[d.count() - 1][x].contains
            == d.mask(),
    decreases d,
{
    broadcast use vstd::multiset::group_multiset_axioms;

    let n = numbers.len();
    let base = planted(numbers)->Ok_0;
    let groups = grown(base, n)->Ok_0.groups;
    lemma_derivation_mask(d, numbers);
    lemma_grown_len(base, n);
    match d {
        Derivation::Leaf { position } => {
            assert(base[position as int] == leaf(numbers[position as int], position as int));
            position as int
        },
        Derivation::Node { op, left, right } => {
            let x1 = lemma_reaches(numbers, *left);
            let x2 = lemma_reaches(numbers, *right);
            let a = left.count() - 1;
            let b = right.count() - 1;
            let i = (a + b + 1) as nat;
            let e1 = groups[a][x1];
            let e2 = groups[b][x2];
            // The engine as it stood before and after the group `i`.
            lemma_grown_before(base, i, n);
            lemma_grown_before(base, i + 1, n);
            let earlier = grown(base, i)->Ok_0;
            let later = grown(base, i + 1)->Ok_0;
            let p = level(earlier.groups, earlier.seen, i, n)->Ok_0;
            assert(earlier.groups.len() == i);
            assert(later.groups == earlier.groups.push(p.kept));
            assert(groups[i as int] == later.groups[i as int]);
            assert(groups[i as int] == p.kept);
            assert(earlier.groups[a] == groups[a]);
            assert(earlier.groups[i - 1 - a] == groups[b]);
            // The pair was crossed, and what it gave is seen.
            lemma_level_covers(earlier.groups, earlier.seen, i, n, a, x1, x2);
            let cs = combined(e1, e2)->Ok_0;
            let t = lemma_combined_has(op, e1, e2);
            let c = cs[t];
            let h = fingerprint(c, n)->Ok_0;
            assert(c.value == d.value(numbers));
            assert(c.contains == d.mask());
            // All that was built is sound, and every group has its size.
            assert forall|y: int| 0 <= y < base.len() implies sound(#[trigger] base[y], numbers) by {
                lemma_leaf_sound(numbers, y);
            }
            lemma_grown_sound(base, n, numbers);
            assert(sized(base, 1)) by {
                assert forall|y: int| 0 <= y < base.len() implies (
                #[trigger] base[y]).state.leaves().len() == 1 by {
                    assert(base[y] == leaf(numbers[y], y));
                }
            }
            lemma_grown_sized(base, n);
            // The fingerprint is that of an expression of the group.
            lemma_level_tidy(earlier.groups, earlier.seen, i, n);
            if earlier.seen.contains(h) {
                lemma_planted_apart(numbers);
                lemma_grown_tidy(base, i);
                let before = joined(earlier.groups);
                assert(holds(before, h, n));
                let z = choose|z: int|
                    0 <= z < before.len() && fingerprint(#[trigger] before[z], n) == Ok::<
                        u128,
                        SolveError,
                    >(h);
                let place = lemma_joined_member(earlier.groups, z);
                let twin = earlier.groups[place.0][place.1];
                assert(earlier.groups[place.0] == groups[place.0]);
                assert(all_sound(groups[place.0], numbers));
                assert(sound(twin, numbers));
                assert(sized(groups[place.0], (place.0 + 1) as nat));
                assert(twin.state.leaves().len() == place.0 + 1);
                lemma_fingerprint_injective(c, twin, n);
                assert(false);
            }
            assert(holds(p.kept, h, n));
            let x = choose|x: int|
                0 <= x < p.kept.len() && fingerprint(#[trigger] p.kept[x], n) == Ok::<
                    u128,
                    SolveError,
                >(h);
            assert(all_sound(groups[i as int], numbers));
            assert(sound(p.kept[x], numbers));
            lemma_fingerprint_injective(c, p.kept[x], n);
            x
        },
    }
}

/// Whatever a proper derivation reaches, the engine has built an
/// expression with that value from the same positions.
pub proof fn lemma_nothing_missed(numbers: Seq<u128>, d: Derivation) -> (k: int)
    requires
        planted(numbers) is Ok,
        useful(planted(numbers)->Ok_0) is Ok,
        d.proper(numbers),
    ensures
        0 <= k < useful(planted(numbers)->Ok_0)->Ok_0.len(),
        useful(planted(numbers)->Ok_0)->Ok_0[k].value == d.value(numbers),
        useful(planted(numbers)->Ok_0)->Ok_0[k].contains == d.mask(),
{
    let base = planted(numbers)->Ok_0;
    lemma_derivation_mask(d, numbers);
    let x = lemma_reaches(numbers, d);
    let groups = grown(base, numbers.len())->Ok_0.groups;
    lemma_joined_place(groups, d.count() - 1, x)
}

/// An expression of a group has a place among the groups taken together.
pub proof fn lemma_joined_place(groups: Seq<Seq<Expression>>, g: int, x: int) -> (z: int)
    requires
        0 <= g < groups.len(),
        0 <= x < groups[g].len(),
    ensures
        0 <= z < joined(groups).len(),
        joined(groups)[z] == groups[g][x],
    decreases groups.len(),
{
    let before = joined(groups.drop_last());
    if g < groups.len() - 1 {
        assert(groups.drop_last()[g] == groups[g]);
        lemma_joined_place(groups.drop_last(), g, x)
    } else {
        before.len() + x
    }
}

} // verus!

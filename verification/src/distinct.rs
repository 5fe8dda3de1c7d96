//! The index keeps the population free of twins: no two expressions that
//! the engine holds have the same value and the same inputs.

use crate::engine::after_pairs;
use crate::engine::combined;
use crate::engine::crossed;
use crate::engine::grown;
use crate::engine::joined;
use crate::engine::level;
use crate::engine::offer;
use crate::engine::offer_all;
use crate::engine::planted;
use crate::engine::useful;
use crate::engine::Progress;
use crate::expression::shares;
use crate::expression::Expression;
use crate::expression::SolveError;
use crate::fingerprint::fingerprint;
use crate::fingerprint::fingerprints;
use crate::fingerprint::lemma_fingerprint_injective;
use vstd::prelude::*;

verus! {

/// Whether no two expressions of `s` have the same value and the same
/// inputs.
pub open spec fn no_twins(s: Seq<Expression>) -> bool {
    forall|i: int, j: int|
        #![trigger s[i], s[j]]
        0 <= i < j < s.len() ==> s[i].value != s[j].value || s[i].contains != s[j].contains
}

/// Whether `h` is the fingerprint of an expression of `s`.
pub open spec fn holds(s: Seq<Expression>, h: u128, n: nat) -> bool {
    exists|i: int| 0 <= i < s.len() && fingerprint(#[trigger] s[i], n) == Ok::<u128, SolveError>(h)
}

/// Whether a run that began with the fingerprints `start` is in order:
/// nothing seen was forgotten, nothing is seen but what was seen at the
/// start and the fingerprints of what was kept, every expression kept has
/// a fingerprint that was not seen at the start, and no two kept
/// expressions have the same fingerprint.
pub open spec fn tidy(start: Set<u128>, p: Progress, n: nat) -> bool {
    &&& start.subset_of(p.seen)
    &&& forall|h: u128| p.seen.contains(h) ==> start.contains(h) || #[trigger] holds(p.kept, h, n)
    &&& forall|i: int|
        0 <= i < p.kept.len() ==> {
            &&& fingerprint(#[trigger] p.kept[i], n) is Ok
            &&& p.seen.contains(fingerprint(p.kept[i], n)->Ok_0)
            &&& !start.contains(fingerprint(p.kept[i], n)->Ok_0)
        }
    &&& forall|i: int, j: int|
        #![trigger p.kept[i], p.kept[j]]
        0 <= i < j < p.kept.len() ==> fingerprint(p.kept[i], n) != fingerprint(p.kept[j], n)
}

/// Expressions without a common fingerprint are no twins.
pub proof fn lemma_tidy_no_twins(start: Set<u128>, p: Progress, n: nat)
    requires
        tidy(start, p, n),
    ensures
        no_twins(p.kept),
{
}

/// A candidate offered to a tidy run leaves it tidy.
pub proof fn lemma_offer_tidy(start: Set<u128>, p: Progress, c: Expression, n: nat)
    requires
        tidy(start, p, n),
        offer(p, c, n) is Ok,
    ensures
        tidy(start, offer(p, c, n)->Ok_0, n),
{
    let q = offer(p, c, n)->Ok_0;
    let h = fingerprint(c, n)->Ok_0;
    if !p.seen.contains(h) {
        assert forall|g: u128| q.seen.contains(g) implies start.contains(g) || #[trigger] holds(
            q.kept,
            g,
            n,
        ) by {
            if g == h {
                assert(q.kept[p.kept.len() as int] == c);
            } else if !start.contains(g) {
                assert(holds(p.kept, g, n));
                let i = choose|i: int|
                    0 <= i < p.kept.len() && fingerprint(#[trigger] p.kept[i], n) == Ok::<
                        u128,
                        SolveError,
                    >(g);
                assert(q.kept[i] == p.kept[i]);
            }
        }
        assert forall|i: int| 0 <= i < q.kept.len() implies {
            &&& fingerprint(#[trigger] q.kept[i], n) is Ok
            &&& q.seen.contains(fingerprint(q.kept[i], n)->Ok_0)
            &&& !start.contains(fingerprint(q.kept[i], n)->Ok_0)
        } by {
            if i < p.kept.len() {
                assert(q.kept[i] == p.kept[i]);
            }
        }
        assert forall|i: int, j: int| 0 <= i < j < q.kept.len() implies fingerprint(
            #[trigger] q.kept[i],
            n,
        ) != fingerprint(#[trigger] q.kept[j], n) by {
            assert(q.kept[i] == p.kept[i]);
            if j < p.kept.len() {
                assert(q.kept[j] == p.kept[j]);
            }
        }
    }
}

/// Candidates offered to a tidy run leave it tidy.
pub proof fn lemma_offer_all_tidy(start: Set<u128>, p: Progress, cs: Seq<Expression>, n: nat)
    requires
        tidy(start, p, n),
        offer_all(p, cs, n) is Ok,
    ensures
        tidy(start, offer_all(p, cs, n)->Ok_0, n),
    decreases cs.len(),
{
    if cs.len() > 0 {
        lemma_offer_all_tidy(start, p, cs.drop_last(), n);
        lemma_offer_tidy(start, offer_all(p, cs.drop_last(), n)->Ok_0, cs.last(), n);
    }
}

/// Pairs crossed in a tidy run leave it tidy.
pub proof fn lemma_after_pairs_tidy(
    start: Set<u128>,
    p: Progress,
    v1: Seq<Expression>,
    v2: Seq<Expression>,
    k: nat,
    n: nat,
)
    requires
        tidy(start, p, n),
        after_pairs(p, v1, v2, k, n) is Ok,
    ensures
        tidy(start, after_pairs(p, v1, v2, k, n)->Ok_0, n),
    decreases k,
{
    if k > 0 {
        lemma_after_pairs_tidy(start, p, v1, v2, (k - 1) as nat, n);
        let q = after_pairs(p, v1, v2, (k - 1) as nat, n)->Ok_0;
        let e1 = v1[(k - 1) / (v2.len() as int)];
        let e2 = v2[(k - 1) % (v2.len() as int)];
        if !shares(e1, e2) {
            lemma_offer_all_tidy(start, q, combined(e1, e2)->Ok_0, n);
        }
    }
}

/// A tidy run followed by a tidy run that began where the first ended is
/// one tidy run.
pub proof fn lemma_tidy_chain(start: Set<u128>, p: Progress, q: Progress, n: nat)
    requires
        tidy(start, p, n),
        tidy(p.seen, q, n),
    ensures
        tidy(start, Progress { seen: q.seen, kept: p.kept + q.kept }, n),
{
    let r = Progress { seen: q.seen, kept: p.kept + q.kept };
    assert forall|g: u128| r.seen.contains(g) implies start.contains(g) || #[trigger] holds(
        r.kept,
        g,
        n,
    ) by {
        if !start.contains(g) {
            if p.seen.contains(g) {
                assert(holds(p.kept, g, n));
                let i = choose|i: int|
                    0 <= i < p.kept.len() && fingerprint(#[trigger] p.kept[i], n) == Ok::<
                        u128,
                        SolveError,
                    >(g);
                assert(r.kept[i] == p.kept[i]);
            } else {
                assert(holds(q.kept, g, n));
                let i = choose|i: int|
                    0 <= i < q.kept.len() && fingerprint(#[trigger] q.kept[i], n) == Ok::<
                        u128,
                        SolveError,
                    >(g);
                assert(r.kept[p.kept.len() + i] == q.kept[i]);
            }
        }
    }
    assert forall|i: int| 0 <= i < r.kept.len() implies {
        &&& fingerprint(#[trigger] r.kept[i], n) is Ok
        &&& r.seen.contains(fingerprint(r.kept[i], n)->Ok_0)
        &&& !start.contains(fingerprint(r.kept[i], n)->Ok_0)
    } by {
        if i < p.kept.len() {
            assert(r.kept[i] == p.kept[i]);
        } else {
            assert(r.kept[i] == q.kept[i - p.kept.len()]);
        }
    }
    assert forall|i: int, j: int| 0 <= i < j < r.kept.len() implies fingerprint(
        #[trigger] r.kept[i],
        n,
    ) != fingerprint(#[trigger] r.kept[j], n) by {
        if j < p.kept.len() {
            assert(r.kept[i] == p.kept[i]);
            assert(r.kept[j] == p.kept[j]);
        } else if i < p.kept.len() {
            assert(r.kept[i] == p.kept[i]);
            assert(r.kept[j] == q.kept[j - p.kept.len()]);
        } else {
            assert(r.kept[i] == q.kept[i - p.kept.len()]);
            assert(r.kept[j] == q.kept[j - p.kept.len()]);
        }
    }
}

/// Whatever splits of a level are done, the level is a tidy run.
pub proof fn lemma_level_tidy(done: Seq<Seq<Expression>>, seen: Set<u128>, j: nat, n: nat)
    requires
        level(done, seen, j, n) is Ok,
    ensures
        tidy(seen, level(done, seen, j, n)->Ok_0, n),
    decreases j,
{
    if j > 0 {
        lemma_level_tidy(done, seen, (j - 1) as nat, n);
        let p = level(done, seen, (j - 1) as nat, n)->Ok_0;
        let v1 = done[j - 1];
        let v2 = done[done.len() - j];
        let start = Progress { seen: p.seen, kept: Seq::empty() };
        lemma_after_pairs_tidy(p.seen, start, v1, v2, v1.len() * v2.len(), n);
        lemma_tidy_chain(seen, p, crossed(v1, v2, p.seen, n)->Ok_0, n);
    }
}

/// The fingerprints of a sequence hold the fingerprint of each of its
/// expressions.
pub proof fn lemma_fingerprints_hold(v: Seq<Expression>, n: nat, i: int)
    requires
        fingerprints(v, n) is Ok,
        0 <= i < v.len(),
    ensures
        fingerprint(v[i], n) is Ok,
        fingerprints(v, n)->Ok_0.contains(fingerprint(v[i], n)->Ok_0),
    decreases v.len(),
{
    if i < v.len() - 1 {
        lemma_fingerprints_hold(v.drop_last(), n, i);
    }
}

/// The fingerprints of a sequence hold nothing but the fingerprints of its
/// expressions.
pub proof fn lemma_fingerprints_from(v: Seq<Expression>, n: nat, h: u128)
    requires
        fingerprints(v, n) is Ok,
        fingerprints(v, n)->Ok_0.contains(h),
    ensures
        holds(v, h, n),
    decreases v.len(),
{
    if v.len() > 0 {
        if fingerprint(v.last(), n) == Ok::<u128, SolveError>(h) {
            assert(v[v.len() - 1] == v.last());
        } else {
            lemma_fingerprints_from(v.drop_last(), n, h);
            let i = choose|i: int|
                0 <= i < v.drop_last().len() && fingerprint(#[trigger] v.drop_last()[i], n) == Ok::<
                    u128,
                    SolveError,
                >(h);
            assert(v[i] == v.drop_last()[i]);
        }
    }
}

/// Whether no two expressions of `s` have the same fingerprint.
pub open spec fn apart(s: Seq<Expression>, n: nat) -> bool {
    forall|i: int, j: int|
        #![trigger s[i], s[j]]
        0 <= i < j < s.len() && fingerprint(s[i], n) is Ok ==> fingerprint(s[i], n) != fingerprint(
            s[j],
            n,
        )
}

/// At every level, all that the engine has built from a base without a
/// common fingerprint is one tidy run from the empty index.
pub proof fn lemma_grown_tidy(base: Seq<Expression>, i: nat)
    requires
        apart(base, base.len()),
        grown(base, i) is Ok,
    ensures
        tidy(
            Set::empty(),
            Progress {
                seen: grown(base, i)->Ok_0.seen,
                kept: joined(grown(base, i)->Ok_0.groups),
            },
            base.len(),
        ),
    decreases i,
{
    let n = base.len();
    if i <= 1 {
        let seen = fingerprints(base, n)->Ok_0;
        assert(joined(seq![base]) == base) by {
            assert(seq![base].drop_last() == Seq::<Seq<Expression>>::empty());
            assert(joined(seq![base].drop_last()) == Seq::<Expression>::empty());
            assert(Seq::<Expression>::empty() + base == base);
        }
        assert forall|x: int| 0 <= x < base.len() implies {
            &&& fingerprint(#[trigger] base[x], n) is Ok
            &&& seen.contains(fingerprint(base[x], n)->Ok_0)
        } by {
            lemma_fingerprints_hold(base, n, x);
        }
        assert forall|h: u128| seen.contains(h) implies #[trigger] holds(base, h, n) by {
            lemma_fingerprints_from(base, n, h);
        }
    } else {
        lemma_grown_tidy(base, (i - 1) as nat);
        let l = grown(base, (i - 1) as nat)->Ok_0;
        let p = level(l.groups, l.seen, l.groups.len(), n)->Ok_0;
        lemma_level_tidy(l.groups, l.seen, l.groups.len(), n);
        lemma_tidy_chain(Set::empty(), Progress { seen: l.seen, kept: joined(l.groups) }, p, n);
        assert(l.groups.push(p.kept).drop_last() == l.groups);
    }
}

/// The leaves of a list of numbers have no fingerprint in common.
pub proof fn lemma_planted_apart(numbers: Seq<u128>)
    requires
        planted(numbers) is Ok,
    ensures
        apart(planted(numbers)->Ok_0, numbers.len()),
{
    let base = planted(numbers)->Ok_0;
    let n = numbers.len();
    assert forall|i: int, j: int|
        0 <= i < j < base.len() && fingerprint(base[i], n) is Ok implies fingerprint(
        #[trigger] base[i],
        n,
    ) != fingerprint(#[trigger] base[j], n) by {
        if fingerprint(base[i], n) == fingerprint(base[j], n) {
            let a = i as u64;
            let b = j as u64;
            let s = n as u128;
            assert(((1u64 << a) as u128) < (1u128 << s) && ((1u64 << b) as u128) < (1u128 << s)
                && 1u64 << a != 1u64 << b) by (bit_vector)
                requires
                    a < b,
                    b < s,
                    s <= 64,
            ;
            lemma_fingerprint_injective(base[i], base[j], n);
        }
    }
}

/// At no level does the engine hold two expressions with the same value
/// and the same inputs: not among the groups that are finished, and not
/// among these and what any number of splits of the next group have added.
pub proof fn lemma_never_twins(numbers: Seq<u128>, i: nat, j: nat)
    requires
        planted(numbers) is Ok,
        grown(planted(numbers)->Ok_0, i) is Ok,
        level(
            grown(planted(numbers)->Ok_0, i)->Ok_0.groups,
            grown(planted(numbers)->Ok_0, i)->Ok_0.seen,
            j,
            numbers.len(),
        ) is Ok,
    ensures
        no_twins(
            joined(grown(planted(numbers)->Ok_0, i)->Ok_0.groups) + level(
                grown(planted(numbers)->Ok_0, i)->Ok_0.groups,
                grown(planted(numbers)->Ok_0, i)->Ok_0.seen,
                j,
                numbers.len(),
            )->Ok_0.kept,
        ),
{
    let base = planted(numbers)->Ok_0;
    let n = numbers.len();
    let l = grown(base, i)->Ok_0;
    let p = level(l.groups, l.seen, j, n)->Ok_0;
    lemma_planted_apart(numbers);
    lemma_grown_tidy(base, i);
    lemma_level_tidy(l.groups, l.seen, j, n);
    lemma_tidy_chain(Set::empty(), Progress { seen: l.seen, kept: joined(l.groups) }, p, n);
    lemma_tidy_no_twins(
        Set::empty(),
        Progress { seen: p.seen, kept: joined(l.groups) + p.kept },
        n,
    );
}

/// No two expressions that the engine builds from the leaves of `numbers`
/// have the same value and the same inputs.
pub proof fn lemma_population_no_twins(numbers: Seq<u128>)
    requires
        planted(numbers) is Ok,
        useful(planted(numbers)->Ok_0) is Ok,
    ensures
        no_twins(useful(planted(numbers)->Ok_0)->Ok_0),
{
    let base = planted(numbers)->Ok_0;
    lemma_planted_apart(numbers);
    lemma_grown_tidy(base, base.len());
    let l = grown(base, base.len())->Ok_0;
    lemma_tidy_no_twins(
        Set::empty(),
        Progress { seen: l.seen, kept: joined(l.groups) },
        base.len(),
    );
}

} // verus!

//! The partition engine: from the leaves up, every expression that can be
//! built from `k` of the inputs, for `k` from one to all of them, each
//! value-and-inputs combination kept once.

use crate::expression::divide;
use crate::expression::multiply;
use crate::expression::shares;
use crate::expression::shares_dependencies;
use crate::expression::subtract;
use crate::expression::Expression;
use crate::expression::Operation;
use crate::expression::SolveError;
use crate::expression::State;
use crate::fingerprint::fingerprint;
use crate::fingerprint::fingerprints;
use crate::fingerprint::generate_hash;
use crate::fingerprint::generate_hashes;
use crate::fingerprint::MAX_NUMBERS;
use crate::pairs::grid;
use crate::pairs::index_pairs;
use crate::pairs::lemma_cell;
use crate::pairs::lemma_grid_entry;
use crate::pairs::next_pair;
use crate::pairs::pending;
use std::collections::HashSet;
use std::rc::Rc;
use vstd::prelude::*;

verus! {

/// Where a run of offers stands: the fingerprints seen so far, and the
/// expressions kept since the run began, oldest first.
pub struct Progress {
    pub seen: Set<u128>,
    pub kept: Seq<Expression>,
}

/// Where the engine stands between two levels: the fingerprints seen so
/// far, and the finished groups; group `k` holds what uses `k + 1` inputs.
pub struct Levels {
    pub seen: Set<u128>,
    pub groups: Seq<Seq<Expression>>,
}

/// One candidate before the index: kept if its fingerprint is new, dropped
/// if it was seen, an error if it has none.
pub open spec fn offer(p: Progress, c: Expression, n: nat) -> Result<Progress, SolveError> {
    match fingerprint(c, n) {
        Err(e) => Err(e),
        Ok(h) => if p.seen.contains(h) {
            Ok(p)
        } else {
            Ok(Progress { seen: p.seen.insert(h), kept: p.kept.push(c) })
        },
    }
}

/// The candidates `cs` before the index, one after the other.
pub open spec fn offer_all(p: Progress, cs: Seq<Expression>, n: nat) -> Result<
    Progress,
    SolveError,
>
    decreases cs.len(),
{
    if cs.len() == 0 {
        Ok(p)
    } else {
        match offer_all(p, cs.drop_last(), n) {
            Err(e) => Err(e),
            Ok(q) => offer(q, cs.last(), n),
        }
    }
}

/// An optional expression as a sequence of none or one.
pub open spec fn listed(o: Option<Expression>) -> Seq<Expression> {
    match o {
        Some(e) => seq![e],
        None => Seq::empty(),
    }
}

/// What the four operations make of the ordered pair `e1`, `e2`: the results
/// of those that apply, in the order sum, product, difference, quotient.
pub open spec fn combined(e1: Expression, e2: Expression) -> Result<Seq<Expression>, SolveError> {
    match (
        Operation::Add.outcome(e1, e2),
        Operation::Multiply.outcome(e1, e2),
        Operation::Subtract.outcome(e1, e2),
        Operation::Divide.outcome(e1, e2),
    ) {
        (Ok(sum), Ok(product), Ok(difference), Ok(quotient)) => Ok(
            listed(sum) + listed(product) + listed(difference) + listed(quotient),
        ),
        _ => Err(SolveError::Overflow),
    }
}

/// One ordered pair: skipped if the two share an input, else combined and
/// its results offered.
pub open spec fn after_pair(p: Progress, e1: Expression, e2: Expression, n: nat) -> Result<
    Progress,
    SolveError,
> {
    if shares(e1, e2) {
        Ok(p)
    } else {
        match combined(e1, e2) {
            Err(e) => Err(e),
            Ok(cs) => offer_all(p, cs, n),
        }
    }
}

/// The first `k` pairs of `v1` and `v2`: each expression of `v1` in turn
/// with every expression of `v2`.
pub open spec fn after_pairs(
    p: Progress,
    v1: Seq<Expression>,
    v2: Seq<Expression>,
    k: nat,
    n: nat,
) -> Result<Progress, SolveError>
    decreases k,
{
    if k == 0 {
        Ok(p)
    } else {
        match after_pairs(p, v1, v2, (k - 1) as nat, n) {
            Err(e) => Err(e),
            Ok(q) => after_pair(
                q,
                v1[(k - 1) / (v2.len() as int)],
                v2[(k - 1) % (v2.len() as int)],
                n,
            ),
        }
    }
}

/// Every pair of `v1` and `v2`, starting from the fingerprints `seen` with
/// nothing kept yet.
pub open spec fn crossed(v1: Seq<Expression>, v2: Seq<Expression>, seen: Set<u128>, n: nat) -> Result<
    Progress,
    SolveError,
> {
    after_pairs(Progress { seen, kept: Seq::empty() }, v1, v2, v1.len() * v2.len(), n)
}

/// The group after the finished groups `done`, after its first `j` splits:
/// split `s` crosses group `s` with group `done.len() - 1 - s`.
pub open spec fn level(done: Seq<Seq<Expression>>, seen: Set<u128>, j: nat, n: nat) -> Result<
    Progress,
    SolveError,
>
    decreases j,
{
    if j == 0 {
        Ok(Progress { seen, kept: Seq::empty() })
    } else {
        match level(done, seen, (j - 1) as nat, n) {
            Err(e) => Err(e),
            Ok(p) => match crossed(done[j - 1], done[done.len() - j], p.seen, n) {
                Err(e) => Err(e),
                Ok(q) => Ok(Progress { seen: q.seen, kept: p.kept + q.kept }),
            },
        }
    }
}

/// The engine with its first `i` groups finished, for `i` of at least one:
/// the first group is the base itself.
pub open spec fn grown(base: Seq<Expression>, i: nat) -> Result<Levels, SolveError>
    decreases i,
{
    if i <= 1 {
        match fingerprints(base, base.len()) {
            Err(e) => Err(e),
            Ok(seen) => Ok(Levels { seen, groups: seq![base] }),
        }
    } else {
        match grown(base, (i - 1) as nat) {
            Err(e) => Err(e),
            Ok(l) => match level(l.groups, l.seen, l.groups.len(), base.len()) {
                Err(e) => Err(e),
                Ok(p) => Ok(Levels { seen: p.seen, groups: l.groups.push(p.kept) }),
            },
        }
    }
}

/// The groups one after the other.
pub open spec fn joined(groups: Seq<Seq<Expression>>) -> Seq<Expression>
    decreases groups.len(),
{
    if groups.len() == 0 {
        Seq::empty()
    } else {
        joined(groups.drop_last()) + groups.last()
    }
}

/// Everything the engine builds from `base`, in the order in which it is
/// built: group by group, and within a group split by split and pair by
/// pair.
pub open spec fn useful(base: Seq<Expression>) -> Result<Seq<Expression>, SolveError> {
    if base.len() == 0 {
        Err(SolveError::EmptyInput)
    } else {
        match grown(base, base.len()) {
            Err(e) => Err(e),
            Ok(l) => Ok(joined(l.groups)),
        }
    }
}

/// The leaf for the input number `value` at position `i`.
pub open spec fn leaf(value: u128, i: int) -> Expression {
    Expression { state: Rc::new(State::Base { value }), value, contains: 1u64 << (i as u64) }
}

/// The leaves for `numbers`, one per position.
pub open spec fn planted(numbers: Seq<u128>) -> Result<Seq<Expression>, SolveError> {
    if numbers.len() > MAX_NUMBERS {
        Err(SolveError::TooManyNumbers)
    } else {
        Ok(Seq::new(numbers.len(), |i: int| leaf(numbers[i], i)))
    }
}

/// Once some candidates fail, more of them fail in the same way.
pub proof fn lemma_offer_all_fail(p: Progress, cs: Seq<Expression>, t: int, n: nat)
    requires
        0 <= t <= cs.len(),
        offer_all(p, cs.take(t), n) is Err,
    ensures
        offer_all(p, cs, n) == offer_all(p, cs.take(t), n),
    decreases cs.len(),
{
    if t < cs.len() {
        assert(cs.drop_last().take(t) == cs.take(t));
        lemma_offer_all_fail(p, cs.drop_last(), t, n);
    } else {
        assert(cs.take(t) == cs);
    }
}

/// Once some pairs fail, more of them fail in the same way.
pub proof fn lemma_after_pairs_fail(
    p: Progress,
    v1: Seq<Expression>,
    v2: Seq<Expression>,
    k: nat,
    total: nat,
    n: nat,
)
    requires
        k <= total,
        after_pairs(p, v1, v2, k, n) is Err,
    ensures
        after_pairs(p, v1, v2, total, n) == after_pairs(p, v1, v2, k, n),
    decreases total,
{
    if k < total {
        lemma_after_pairs_fail(p, v1, v2, k, (total - 1) as nat, n);
    }
}

/// Once some splits fail, more of them fail in the same way.
pub proof fn lemma_level_fail(done: Seq<Seq<Expression>>, seen: Set<u128>, j: nat, total: nat, n: nat)
    requires
        j <= total,
        level(done, seen, j, n) is Err,
    ensures
        level(done, seen, total, n) == level(done, seen, j, n),
    decreases total,
{
    if j < total {
        lemma_level_fail(done, seen, j, (total - 1) as nat, n);
    }
}

/// Once some levels fail, more of them fail in the same way.
pub proof fn lemma_grown_fail(base: Seq<Expression>, i: nat, total: nat)
    requires
        1 <= i <= total,
        grown(base, i) is Err,
    ensures
        grown(base, total) == grown(base, i),
    decreases total,
{
    if i < total {
        lemma_grown_fail(base, i, (total - 1) as nat);
    }
}

/// The engine with `i` groups finished holds `i` groups.
pub proof fn lemma_grown_len(base: Seq<Expression>, i: nat)
    requires
        1 <= i,
        grown(base, i) is Ok,
    ensures
        grown(base, i)->Ok_0.groups.len() == i,
        grown(base, i)->Ok_0.groups[0] == base,
    decreases i,
{
    if i > 1 {
        lemma_grown_len(base, (i - 1) as nat);
    }
}

/// The results of the operations that apply to `e1` and `e2`, in the order
/// sum, product, difference, quotient.
pub fn combinations(e1: &Expression, e2: &Expression) -> (r: Result<Vec<Expression>, SolveError>)
    ensures
        match r {
            Ok(found) => combined(*e1, *e2) == Ok::<Seq<Expression>, SolveError>(found@),
            Err(e) => combined(*e1, *e2) == Err::<Seq<Expression>, SolveError>(e),
        },
{
    let mut found: Vec<Expression> = Vec::new();
    let sum = match crate::expression::add(e1, e2) {
        Err(e) => { return Err(e); },
        Ok(sum) => sum,
    };
    let product = match multiply(e1, e2) {
        Err(e) => { return Err(e); },
        Ok(product) => product,
    };
    let difference = subtract(e1, e2);
    let quotient = divide(e1, e2);
    let ghost all = listed(sum) + listed(product) + listed(difference) + listed(quotient);
    if let Some(e) = sum {
        found.push(e);
    }
    assert(found@ == listed(sum));
    if let Some(e) = product {
        found.push(e);
    }
    assert(found@ == listed(sum) + listed(product));
    if let Some(e) = difference {
        found.push(e);
    }
    assert(found@ == listed(sum) + listed(product) + listed(difference));
    if let Some(e) = quotient {
        found.push(e);
    }
    assert(found@ == all);
    Ok(found)
}

/// Every pair of an expression of `v1` and one of `v2` that share no input,
/// combined; each result whose fingerprint is new is recorded in `hashes`
/// and returned, in the order in which the pairs are met.
pub fn permutations(
    v1: &Vec<Expression>,
    v2: &Vec<Expression>,
    hashes: &mut HashSet<u128>,
    n_numbers: &usize,
) -> (r: Result<Vec<Expression>, SolveError>)
    ensures
        old(hashes)@.subset_of(final(hashes)@),
        match r {
            Ok(fresh) => crossed(v1@, v2@, old(hashes)@, *n_numbers as nat) == Ok::<
                Progress,
                SolveError,
            >(Progress { seen: final(hashes)@, kept: fresh@ }),
            Err(e) => crossed(v1@, v2@, old(hashes)@, *n_numbers as nat) == Err::<
                Progress,
                SolveError,
            >(e),
        },
{
    broadcast use vstd::std_specs::hash::group_hash_axioms;

    let ghost n = *n_numbers as nat;
    let ghost start = Progress { seen: old(hashes)@, kept: Seq::empty() };
    let ghost all = grid(v1@.len(), v2@.len());
    let ghost mut k: nat = 0;
    let mut result: Vec<Expression> = Vec::new();
    let mut pairs = index_pairs(v1.len(), v2.len());
    loop
        invariant
            n == *n_numbers as nat,
            start == (Progress { seen: old(hashes)@, kept: Seq::empty() }),
            all == grid(v1@.len(), v2@.len()),
            all.len() == v1@.len() * v2@.len(),
            k <= all.len(),
            pending(pairs) == all.skip(k as int),
            old(hashes)@.subset_of(hashes@),
            after_pairs(start, v1@, v2@, k, n) == Ok::<Progress, SolveError>(
                Progress { seen: hashes@, kept: result@ },
            ),
        ensures
            k == all.len(),
        decreases pending(pairs).len(),
    {
        let (i1, i2) = match next_pair(&mut pairs) {
            None => { break ; },
            Some(pair) => pair,
        };
        proof {
            lemma_grid_entry(v1.len(), v2.len(), k as int);
            lemma_cell(v1.len() as int, v2.len() as int, k as int);
            assert(all.skip(k as int)[0] == all[k as int]);
            assert(all.skip(k as int).skip(1) == all.skip(k as int + 1));
        }
        let e1 = &v1[i1];
        let e2 = &v2[i2];
        let ghost before = Progress { seen: hashes@, kept: result@ };
        if !shares_dependencies(e1, e2) {
            let found = match combinations(e1, e2) {
                Err(e) => {
                    proof {
                        assert(after_pairs(start, v1@, v2@, k + 1, n) == Err::<
                            Progress,
                            SolveError,
                        >(e));
                        lemma_after_pairs_fail(start, v1@, v2@, k + 1, all.len(), n);
                    }
                    return Err(e);
                },
                Ok(found) => found,
            };
            let mut t: usize = 0;
            while t < found.len()
                invariant
                    t <= found.len(),
                    n == *n_numbers as nat,
                    old(hashes)@.subset_of(hashes@),
                    offer_all(before, found@.take(t as int), n) == Ok::<Progress, SolveError>(
                        Progress { seen: hashes@, kept: result@ },
                    ),
                    combined(*e1, *e2) == Ok::<Seq<Expression>, SolveError>(found@),
                    !shares(*e1, *e2),
                    k < all.len(),
                    all == grid(v1@.len(), v2@.len()),
                    all.len() == v1@.len() * v2@.len(),
                    0 <= (k as int) / (v2@.len() as int) < v1@.len(),
                    0 <= (k as int) % (v2@.len() as int) < v2@.len(),
                    e1 == v1@[(k as int) / (v2@.len() as int)],
                    e2 == v2@[(k as int) % (v2@.len() as int)],
                    start == (Progress { seen: old(hashes)@, kept: Seq::empty() }),
                    after_pairs(start, v1@, v2@, k, n) == Ok::<Progress, SolveError>(before),
                decreases found.len() - t,
            {
                proof {
                    assert(found@.take(t + 1).drop_last() == found@.take(t as int));
                }
                let ghost earlier = Progress { seen: hashes@, kept: result@ };
                let candidate = found[t].clone();
                match generate_hash(&candidate, n_numbers) {
                    Err(e) => {
                        proof {
                            lemma_offer_all_fail(before, found@, t + 1, n);
                            assert(after_pairs(start, v1@, v2@, k + 1, n) == Err::<
                                Progress,
                                SolveError,
                            >(e));
                            lemma_after_pairs_fail(start, v1@, v2@, k + 1, all.len(), n);
                        }
                        return Err(e);
                    },
                    Ok(h) => {
                        let unseen = hashes.insert(h);
                        if unseen {
                            result.push(candidate);
                        }
                        proof {
                            if !unseen {
                                assert(hashes@ == earlier.seen);
                            }
                            assert(offer(earlier, found@[t as int], n) == Ok::<
                                Progress,
                                SolveError,
                            >(Progress { seen: hashes@, kept: result@ }));
                        }
                    },
                }
                t = t + 1;
            }
            proof {
                assert(found@.take(found.len() as int) == found@);
            }
        }
        proof {
            k = k + 1;
        }
    }
    Ok(result)
}

/// One leaf per number: its value, and the bit of its position as the mask.
pub fn generate_base(numbers: &[u128]) -> (r: Result<Vec<Expression>, SolveError>)
    ensures
        match r {
            Ok(base) => planted(numbers@) == Ok::<Seq<Expression>, SolveError>(base@),
            Err(e) => planted(numbers@) == Err::<Seq<Expression>, SolveError>(e),
        },
{
    if numbers.len() > MAX_NUMBERS {
        return Err(SolveError::TooManyNumbers);
    }
    let mut base: Vec<Expression> = Vec::new();
    let mut i: usize = 0;
    while i < numbers.len()
        invariant
            i <= numbers.len() <= MAX_NUMBERS,
            base@.len() == i,
            forall|j: int| 0 <= j < i ==> base@[j] == leaf(numbers@[j], j),
        decreases numbers.len() - i,
    {
        let value: u128 = numbers[i];
        base.push(
            Expression { state: Rc::new(State::Base { value }), value, contains: 1u64 << i },
        );
        i = i + 1;
    }
    proof {
        assert(base@ == Seq::new(numbers@.len(), |j: int| leaf(numbers@[j], j)));
    }
    Ok(base)
}

/// The groups as sequences.
pub open spec fn views(groups: Seq<Vec<Expression>>) -> Seq<Seq<Expression>> {
    Seq::new(groups.len(), |i: int| groups[i]@)
}

/// Everything that can be built from `base`: the base itself, then what
/// uses two of its expressions, then three, up to all of them.
pub fn generate_useful(base: &[Expression]) -> (r: Result<Vec<Expression>, SolveError>)
    ensures
        match r {
            Ok(all) => useful(base@) == Ok::<Seq<Expression>, SolveError>(all@),
            Err(e) => useful(base@) == Err::<Seq<Expression>, SolveError>(e),
        },
{
    let n: usize = base.len();
    if n == 0 {
        return Err(SolveError::EmptyInput);
    }
    let mut hashes = match generate_hashes(base, &n) {
        Err(e) => {
            proof {
                lemma_grown_fail(base@, 1, n as nat);
            }
            return Err(e);
        },
        Ok(hashes) => hashes,
    };
    let mut first: Vec<Expression> = Vec::new();
    let mut b: usize = 0;
    while b < n
        invariant
            b <= n,
            n == base.len(),
            first@ == base@.take(b as int),
        decreases n - b,
    {
        first.push(base[b].clone());
        proof {
            assert(first@ == base@.take(b + 1));
        }
        b = b + 1;
    }
    proof {
        assert(base@.take(n as int) == base@);
    }
    let mut groups: Vec<Vec<Expression>> = Vec::new();
    groups.push(first);
    proof {
        assert(views(groups@) == seq![base@]);
    }
    let mut i: usize = 1;
    while i < n
        invariant
            1 <= i <= n,
            n == base.len(),
            groups@.len() == i,
            grown(base@, i as nat) == Ok::<Levels, SolveError>(
                Levels { seen: hashes@, groups: views(groups@) },
            ),
        decreases n - i,
    {
        let ghost done = views(groups@);
        let ghost seen = hashes@;
        let mut current: Vec<Expression> = Vec::new();
        let mut j: usize = 0;
        while j < i
            invariant
                j <= i < n,
                n == base.len(),
                groups@.len() == i,
                done == views(groups@),
                grown(base@, i as nat) == Ok::<Levels, SolveError>(Levels { seen, groups: done }),
                level(done, seen, j as nat, n as nat) == Ok::<Progress, SolveError>(
                    Progress { seen: hashes@, kept: current@ },
                ),
            decreases i - j,
        {
            let mut fresh = match permutations(&groups[j], &groups[i - j - 1], &mut hashes, &n) {
                Err(e) => {
                    proof {
                        assert(level(done, seen, (j + 1) as nat, n as nat) == Err::<
                            Progress,
                            SolveError,
                        >(e));
                        lemma_level_fail(done, seen, (j + 1) as nat, i as nat, n as nat);
                        assert(grown(base@, (i + 1) as nat) == Err::<Levels, SolveError>(e));
                        lemma_grown_fail(base@, (i + 1) as nat, n as nat);
                    }
                    return Err(e);
                },
                Ok(fresh) => fresh,
            };
            current.append(&mut fresh);
            j = j + 1;
        }
        groups.push(current);
        proof {
            assert(views(groups@) == done.push(current@));
        }
        i = i + 1;
    }
    let mut all: Vec<Expression> = Vec::new();
    let mut g: usize = 0;
    while g < groups.len()
        invariant
            g <= groups.len(),
            all@ == joined(views(groups@).take(g as int)),
        decreases groups.len() - g,
    {
        let group = &groups[g];
        let ghost head = all@;
        let mut x: usize = 0;
        while x < group.len()
            invariant
                x <= group.len(),
                all@ == head + group@.take(x as int),
            decreases group.len() - x,
        {
            all.push(group[x].clone());
            proof {
                assert(group@.take(x + 1) == group@.take(x as int).push(group@[x as int]));
            }
            x = x + 1;
        }
        proof {
            assert(group@.take(group.len() as int) == group@);
            assert(views(groups@).take(g + 1).drop_last() == views(groups@).take(g as int));
        }
        g = g + 1;
    }
    proof {
        assert(views(groups@).take(groups.len() as int) == views(groups@));
    }
    Ok(all)
}

} // verus!

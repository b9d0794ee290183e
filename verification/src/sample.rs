//! Sampling, for criteria the exact engine cannot express.
//!
//! Hands are dealt by a partial Fisher-Yates over the library laid out one
//! card per slot, with the randomness coming from a ChaCha generator. What is
//! proved here is everything but the randomness: every swap stays inside the
//! part of the deck not yet dealt, the deck stays a permutation of the
//! library, and each checkpoint a criterion sees is exactly the count of each
//! group among the cards dealt by then.

use vstd::prelude::*;
use rand::RngExt;
use rand::SeedableRng;
use rand_chacha::ChaCha8Rng;
use crate::board::{occ, lemma_occ_nonneg, lemma_occ_push};
use crate::engine::{Count, Evaluator, PathOutcomes, PathView, Plan, MAX_COUNT, path_over};
use crate::grouping::{Grouping, sum_of};

verus! {

#[verifier::external_type_specification]
#[verifier::external_body]
pub struct ExChaCha8Rng(ChaCha8Rng);

/// `ChaCha8Rng::seed_from_u64`: a generator whose stream is fixed by `seed`.
/// Nothing is stated of that stream.
#[verifier::external_body]
fn seeded(seed: u64) -> ChaCha8Rng {
    ChaCha8Rng::seed_from_u64(seed)
}

/// `RngExt::random_range` over `low..high`, which panics on an empty range
/// and otherwise returns some value in it. Which value rests on the state of
/// the generator, and is left open.
#[verifier::external_body]
fn pick(rng: &mut ChaCha8Rng, low: usize, high: usize) -> (r: usize)
    requires
        low < high,
    ensures
        low <= r < high,
{
    rng.random_range(low..high)
}

/// Why a sampled run was refused.
pub enum SimError<E> {
    /// The question draws more cards than the library holds.
    NotEnoughCards { population: u32, draws: u32 },
    /// There are no hands to deal.
    NoTrials,
    /// The criteria answered a different number of questions than the run
    /// was set up for.
    WrongShape { plan: Plan, held: usize, counted: usize },
    /// The criteria themselves failed.
    Evaluator(E),
}

/// What a sampled run counted: in how many hands each criterion held, and in
/// how many hands each expectation took each value from 0 to [`MAX_COUNT`].
/// Every figure is a count of hands out of `trials`.
pub struct Tally {
    pub trials: u32,
    pub hits: Vec<u32>,
    pub counts: Vec<Vec<u32>>,
}

/// In how many of `answers` criterion `c` held.
pub open spec fn held_in(answers: Seq<PathOutcomes>, c: int) -> int
    decreases answers.len(),
{
    if answers.len() == 0 {
        0
    } else {
        held_in(answers.drop_last(), c) + if answers.last().held@[c] {
            1int
        } else {
            0int
        }
    }
}

/// In how many of `answers` expectation `e` took the value `v`.
pub open spec fn valued_in(answers: Seq<PathOutcomes>, e: int, v: int) -> int
    decreases answers.len(),
{
    if answers.len() == 0 {
        0
    } else {
        valued_in(answers.drop_last(), e, v) + if answers.last().counted@[e].value() == v {
            1int
        } else {
            0int
        }
    }
}

impl Tally {
    /// Every figure counts hands out of `trials`: no criterion held in more
    /// hands than were dealt, and each expectation's buckets, one per value
    /// from 0 to [`MAX_COUNT`], add up to the hands dealt.
    pub open spec fn well_formed(self) -> bool {
        &&& forall|c: int| 0 <= c < self.hits@.len() ==> #[trigger] self.hits@[c] <= self.trials
        &&& forall|e: int|
            0 <= e < self.counts@.len() ==> (#[trigger] self.counts@[e])@.len() == MAX_COUNT + 1
                && sum_of(self.counts@[e]@, MAX_COUNT + 1) == self.trials
    }

    /// This tally is `plan`'s shape and counts exactly the hands whose
    /// answers were `answers`.
    pub open spec fn counts_exactly(self, plan: Plan, answers: Seq<PathOutcomes>) -> bool {
        &&& self.trials == answers.len()
        &&& self.hits@.len() == plan.criteria
        &&& self.counts@.len() == plan.expectations
        &&& forall|c: int| 0 <= c < plan.criteria ==> #[trigger] self.hits@[c] == held_in(answers, c)
        &&& forall|e: int, v: int|
            0 <= e < plan.expectations && 0 <= v <= MAX_COUNT ==> #[trigger] self.counts@[e]@[v]
                == valued_in(answers, e, v)
    }

    /// A tally of `plan`'s shape with no hands counted.
    pub fn empty(plan: Plan) -> (t: Tally)
        ensures
            t.well_formed(),
            t.counts_exactly(plan, Seq::empty()),
    {
        let mut hits: Vec<u32> = Vec::new();
        let mut q: usize = 0;
        while q < plan.criteria
            invariant
                q <= plan.criteria,
                hits@.len() == q,
                forall|x: int| 0 <= x < q ==> #[trigger] hits@[x] == 0,
            decreases plan.criteria - q,
        {
            hits.push(0);
            q += 1;
        }
        let mut counts: Vec<Vec<u32>> = Vec::new();
        let mut e: usize = 0;
        while e < plan.expectations
            invariant
                e <= plan.expectations,
                counts@.len() == e,
                forall|x: int|
                    0 <= x < e ==> (#[trigger] counts@[x])@.len() == MAX_COUNT + 1 && sum_of(
                        counts@[x]@,
                        MAX_COUNT + 1,
                    ) == 0 && forall|v: int| 0 <= v <= MAX_COUNT ==> #[trigger] counts@[x]@[v] == 0,
            decreases plan.expectations - e,
        {
            counts.push(zeros());
            e += 1;
        }
        Tally { trials: 0, hits, counts }
    }

    /// Count one more hand for a run set up as `plan`, if its answers are
    /// that shape; otherwise leave the tally as it was and say what shape
    /// they were: how many criteria and how many expectations they answered.
    pub fn take(&mut self, plan: Plan, outcome: &PathOutcomes) -> (r: Result<(), (usize, usize)>)
        requires
            old(self).well_formed(),
            old(self).trials < u32::MAX,
            old(self).hits@.len() == plan.criteria,
            old(self).counts@.len() == plan.expectations,
        ensures
            r is Err <==> !(outcome.held@.len() == plan.criteria && outcome.counted@.len()
                == plan.expectations),
            r matches Err((h, c)) ==> h == outcome.held@.len() && c == outcome.counted@.len()
                && *final(self) == *old(self),
            r is Ok ==> {
                &&& final(self).well_formed()
                &&& final(self).trials == old(self).trials + 1
                &&& final(self).hits@.len() == old(self).hits@.len()
                &&& final(self).counts@.len() == old(self).counts@.len()
                &&& forall|c: int|
                    0 <= c < old(self).hits@.len() ==> #[trigger] final(self).hits@[c]
                        == old(self).hits@[c] + if outcome.held@[c] {
                        1int
                    } else {
                        0int
                    }
                &&& forall|e: int, v: int|
                    0 <= e < old(self).counts@.len() && 0 <= v <= MAX_COUNT
                        ==> #[trigger] final(self).counts@[e]@[v] == old(self).counts@[e]@[v]
                        + if outcome.counted@[e].value() == v {
                        1int
                    } else {
                        0int
                    }
            },
    {
        if !outcome.fits(plan) {
            return Err((outcome.held.len(), outcome.counted.len()));
        }
        self.record(outcome);
        Ok(())
    }

    /// Count one more hand, whose answers are `outcome`: one more trial, one
    /// more hit for each criterion that held, and one more hand in the bucket
    /// of the value each expectation took.
    pub fn record(&mut self, outcome: &PathOutcomes)
        requires
            old(self).well_formed(),
            old(self).trials < u32::MAX,
            outcome.held@.len() == old(self).hits@.len(),
            outcome.counted@.len() == old(self).counts@.len(),
        ensures
            final(self).well_formed(),
            final(self).trials == old(self).trials + 1,
            final(self).hits@.len() == old(self).hits@.len(),
            final(self).counts@.len() == old(self).counts@.len(),
            forall|c: int|
                0 <= c < old(self).hits@.len() ==> #[trigger] final(self).hits@[c] == old(self).hits@[c]
                    + if outcome.held@[c] {
                    1int
                } else {
                    0int
                },
            forall|e: int, v: int|
                0 <= e < old(self).counts@.len() && 0 <= v <= MAX_COUNT
                    ==> #[trigger] final(self).counts@[e]@[v] == old(self).counts@[e]@[v] + if outcome.counted@[e].value()
                    == v {
                    1int
                } else {
                    0int
                },
    {
        let ghost h0 = self.hits@;
        let ghost c0 = self.counts@;
        let n = self.hits.len();
        let mut x: usize = 0;
        while x < n
            invariant
                n == self.hits@.len(),
                n == h0.len(),
                x <= n,
                outcome.held@.len() == n,
                self.trials < u32::MAX,
                forall|y: int| 0 <= y < x ==> #[trigger] self.hits@[y] == h0[y] + if outcome.held@[y] {
                    1int
                } else {
                    0int
                },
                forall|y: int| x <= y < n ==> #[trigger] self.hits@[y] == h0[y],
                forall|y: int| 0 <= y < n ==> #[trigger] h0[y] <= self.trials,
                self.counts@ == c0,
                self.trials == old(self).trials,
            decreases n - x,
        {
            if outcome.held[x] {
                let h = self.hits[x];
                self.hits.set(x, h + 1);
            }
            x += 1;
        }
        let ghost h1 = self.hits@;
        let m = self.counts.len();
        let mut y: usize = 0;
        while y < m
            invariant
                m == self.counts@.len(),
                m == c0.len(),
                y <= m,
                outcome.counted@.len() == m,
                self.trials < u32::MAX,
                forall|z: int|
                    0 <= z < m ==> (#[trigger] c0[z])@.len() == MAX_COUNT + 1 && sum_of(
                        c0[z]@,
                        MAX_COUNT + 1,
                    ) == self.trials,
                forall|z: int|
                    0 <= z < y ==> (#[trigger] self.counts@[z])@.len() == MAX_COUNT + 1 && sum_of(
                        self.counts@[z]@,
                        MAX_COUNT + 1,
                    ) == self.trials + 1,
                forall|z: int, v: int|
                    0 <= z < y && 0 <= v <= MAX_COUNT ==> #[trigger] self.counts@[z]@[v] == c0[z]@[v]
                        + if outcome.counted@[z].value() == v {
                        1int
                    } else {
                        0int
                    },
                forall|z: int| y <= z < m ==> #[trigger] self.counts@[z] == c0[z],
                self.hits@ == h1,
                self.trials == old(self).trials,
            decreases m - y,
        {
            let value: Count = outcome.counted[y];
            let v = value.get();
            let mut row = self.counts[y].clone();
            proof {
                assert(row@ == c0[y as int]@);
                lemma_elem_le_sum_of(row@, v as int, MAX_COUNT + 1);
                lemma_sum_set(row@, v as int, MAX_COUNT + 1);
            }
            let old_v = row[v as usize];
            row.set(v as usize, old_v + 1);
            self.counts.set(y, row);
            y += 1;
        }
        self.trials = self.trials + 1;
    }
}

/// The deck after swapping position `i` with `picks[i]`, for each `i < n` in
/// turn.
pub open spec fn shuffled(deck: Seq<usize>, picks: Seq<usize>, n: int) -> Seq<usize>
    decreases n,
{
    if n <= 0 {
        deck
    } else {
        let d = shuffled(deck, picks, n - 1);
        let i = n - 1;
        let j = picks[i] as int;
        d.update(i, d[j]).update(j, d[i])
    }
}

/// Whether `picks` is a partial Fisher-Yates over `len` slots: the `i`th swap
/// takes a slot from `i` on.
pub open spec fn fisher_yates(picks: Seq<usize>, len: int) -> bool {
    forall|i: int| 0 <= i < picks.len() ==> i <= #[trigger] picks[i] < len
}

/// Whether row `c` of `history` counts, for each group, the cards of that
/// group among the first `seen` of `deck`.
pub open spec fn counts_prefix(row: Seq<u32>, deck: Seq<usize>, seen: int, groups: int) -> bool {
    &&& row.len() == groups
    &&& forall|g: int| 0 <= g < groups ==> #[trigger] row[g] as int == occ(deck.take(seen), g)
}

/// The library laid out one card per slot, group by group: `sizes[g]` slots
/// holding `g`.
pub fn lay_out(sizes: &Vec<u32>) -> (deck: Vec<usize>)
    requires
        sum_of(sizes@, sizes@.len() as int) <= u32::MAX,
    ensures
        deck@.len() == sum_of(sizes@, sizes@.len() as int),
        forall|g: int| 0 <= g < sizes@.len() ==> occ(deck@, g) == sizes@[g] as int,
        forall|i: int| 0 <= i < deck@.len() ==> #[trigger] deck@[i] < sizes@.len(),
{
    let mut deck: Vec<usize> = Vec::new();
    let mut group: usize = 0;
    while group < sizes.len()
        invariant
            group <= sizes@.len(),
            sum_of(sizes@, sizes@.len() as int) <= u32::MAX,
            deck@.len() == sum_of(sizes@, group as int),
            forall|g: int| 0 <= g < group ==> occ(deck@, g) == sizes@[g] as int,
            forall|g: int| group <= g < sizes@.len() ==> occ(deck@, g) == 0,
            forall|i: int| 0 <= i < deck@.len() ==> #[trigger] deck@[i] < group,
        decreases sizes@.len() - group,
    {
        let size = sizes[group];
        let mut placed: u32 = 0;
        while placed < size
            invariant
                group < sizes@.len(),
                size == sizes@[group as int],
                placed <= size,
                deck@.len() == sum_of(sizes@, group as int) + placed,
                forall|g: int| 0 <= g < group ==> occ(deck@, g) == sizes@[g] as int,
                occ(deck@, group as int) == placed,
                forall|g: int| group < g < sizes@.len() ==> occ(deck@, g) == 0,
                forall|i: int| 0 <= i < deck@.len() ==> #[trigger] deck@[i] <= group,
            decreases size - placed,
        {
            proof {
                assert forall|g: int| 0 <= g < sizes@.len() implies occ(deck@.push(group), g) == occ(
                    deck@,
                    g,
                ) + if g == group {
                    1int
                } else {
                    0int
                } by {
                    lemma_occ_push(deck@, group, g);
                }
            }
            deck.push(group);
            placed += 1;
        }
        proof {
            assert forall|i: int| 0 <= i < deck@.len() implies #[trigger] deck@[i] < group + 1 by {}
        }
        group += 1;
    }
    deck
}

/// The cards seen by each checkpoint: running sums of the gaps.
pub fn reached_at(gaps: &Vec<u32>) -> (r: Vec<u32>)
    requires
        sum_of(gaps@, gaps@.len() as int) <= u32::MAX,
    ensures
        r@.len() == gaps@.len(),
        forall|c: int| 0 <= c < gaps@.len() ==> #[trigger] r@[c] as int == sum_of(gaps@, c + 1),
{
    let mut r: Vec<u32> = Vec::new();
    let mut acc: u32 = 0;
    let mut c: usize = 0;
    while c < gaps.len()
        invariant
            c <= gaps@.len(),
            sum_of(gaps@, gaps@.len() as int) <= u32::MAX,
            acc as int == sum_of(gaps@, c as int),
            r@.len() == c,
            forall|k: int| 0 <= k < c ==> #[trigger] r@[k] as int == sum_of(gaps@, k + 1),
        decreases gaps@.len() - c,
    {
        proof {
            lemma_sum_mono(gaps@, c + 1, gaps@.len() as int);
        }
        acc = acc + gaps[c];
        r.push(acc);
        c += 1;
    }
    r
}

/// Draws the swap targets of one partial Fisher-Yates over `len` slots, for
/// the first `draws` of them.
fn draw_picks(rng: &mut ChaCha8Rng, len: usize, draws: usize) -> (picks: Vec<usize>)
    requires
        draws <= len,
    ensures
        picks@.len() == draws,
        fisher_yates(picks@, len as int),
{
    let mut picks: Vec<usize> = Vec::new();
    let mut i: usize = 0;
    while i < draws
        invariant
            i <= draws <= len,
            picks@.len() == i,
            fisher_yates(picks@, len as int),
        decreases draws - i,
    {
        let j = pick(rng, i, len);
        picks.push(j);
        i += 1;
    }
    picks
}

/// Deals one hand: for each `i` in turn, swaps slot `i` with slot `picks[i]`
/// and takes the card now at `i`. Row `c` of the result counts each group
/// among the cards dealt once `reached[c]` have been, or all of them if the
/// hand ends sooner.
pub fn deal(deck: &mut Vec<usize>, picks: &Vec<usize>, reached: &Vec<u32>, groups: usize) -> (history:
    Vec<Vec<u32>>)
    requires
        picks@.len() <= old(deck)@.len() <= u32::MAX,
        fisher_yates(picks@, old(deck)@.len() as int),
        forall|i: int| 0 <= i < old(deck)@.len() ==> #[trigger] old(deck)@[i] < groups,
        forall|a: int, b: int| 0 <= a <= b < reached@.len() ==> reached@[a] <= reached@[b],
    ensures
        final(deck)@ == shuffled(old(deck)@, picks@, picks@.len() as int),
        history@.len() == reached@.len(),
        forall|c: int|
            0 <= c < reached@.len() ==> counts_prefix(
                (#[trigger] history@[c])@,
                final(deck)@,
                if reached@[c] < picks@.len() {
                    reached@[c] as int
                } else {
                    picks@.len() as int
                },
                groups as int,
            ),
{
    let ghost start = deck@;
    let k = picks.len();
    let mut cumulative: Vec<u32> = Vec::new();
    let mut g: usize = 0;
    while g < groups
        invariant
            g <= groups,
            cumulative@.len() == g,
            forall|h: int| 0 <= h < g ==> #[trigger] cumulative@[h] == 0,
        decreases groups - g,
    {
        cumulative.push(0);
        g += 1;
    }
    proof {
        assert(deck@.take(0) =~= Seq::<usize>::empty());
    }
    let mut history: Vec<Vec<u32>> = Vec::new();
    let mut checkpoint: usize = 0;
    let mut i: usize = 0;
    while i < k
        invariant
            k == picks@.len(),
            i <= k <= deck@.len(),
            deck@.len() == start.len() <= u32::MAX,
            fisher_yates(picks@, start.len() as int),
            forall|a: int, b: int| 0 <= a <= b < reached@.len() ==> reached@[a] <= reached@[b],
            deck@ == shuffled(start, picks@, i as int),
            forall|x: int| 0 <= x < deck@.len() ==> #[trigger] deck@[x] < groups,
            counts_prefix(cumulative@, deck@, i as int, groups as int),
            checkpoint <= reached@.len(),
            history@.len() == checkpoint,
            checkpoint < reached@.len() ==> reached@[checkpoint as int] >= i,
            forall|c: int| 0 <= c < checkpoint ==> #[trigger] reached@[c] <= i,
            forall|c: int|
                0 <= c < checkpoint ==> counts_prefix(
                    (#[trigger] history@[c])@,
                    deck@,
                    reached@[c] as int,
                    groups as int,
                ),
        decreases k - i,
    {
        while checkpoint < reached.len() && reached[checkpoint] as usize <= i
            invariant
                k == picks@.len(),
                i < k <= deck@.len(),
                forall|a: int, b: int| 0 <= a <= b < reached@.len() ==> reached@[a] <= reached@[b],
                counts_prefix(cumulative@, deck@, i as int, groups as int),
                checkpoint <= reached@.len(),
                history@.len() == checkpoint,
                checkpoint < reached@.len() ==> reached@[checkpoint as int] >= i,
                forall|c: int| 0 <= c < checkpoint ==> #[trigger] reached@[c] <= i,
                forall|c: int|
                    0 <= c < checkpoint ==> counts_prefix(
                        (#[trigger] history@[c])@,
                        deck@,
                        reached@[c] as int,
                        groups as int,
                    ),
            decreases reached@.len() - checkpoint,
        {
            history.push(cumulative.clone());
            checkpoint += 1;
        }
        let j = picks[i];
        let ghost before = deck@;
        let a = deck[i];
        let b = deck[j];
        deck.set(i, b);
        deck.set(j, a);
        proof {
            assert(deck@ == shuffled(start, picks@, i + 1));
            lemma_swap_keeps_prefix(before, i as int, j as int, i as int);
            lemma_take_step(deck@, i as int);
            assert forall|c: int| 0 <= c < checkpoint implies counts_prefix(
                (#[trigger] history@[c])@,
                deck@,
                reached@[c] as int,
                groups as int,
            ) by {
                assert(reached@[c] <= i);
                lemma_swap_keeps_prefix(before, i as int, j as int, reached@[c] as int);
            }
        }
        let card = deck[i];
        proof {
            assert forall|h: int| 0 <= h < groups implies occ(deck@.take(i + 1), h) == occ(
                deck@.take(i as int),
                h,
            ) + if h == card {
                1int
            } else {
                0int
            } by {
                lemma_occ_push(deck@.take(i as int), card, h);
            }
            lemma_occ_bound(deck@.take(i as int), card as int);
        }
        let n = cumulative[card];
        cumulative.set(card, n + 1);
        i += 1;
    }
    while checkpoint < reached.len()
        invariant
            k == picks@.len(),
            i == k,
            forall|a: int, b: int| 0 <= a <= b < reached@.len() ==> reached@[a] <= reached@[b],
            counts_prefix(cumulative@, deck@, k as int, groups as int),
            checkpoint <= reached@.len(),
            history@.len() == checkpoint,
            checkpoint < reached@.len() ==> reached@[checkpoint as int] >= k,
            forall|c: int|
                0 <= c < checkpoint ==> counts_prefix(
                    (#[trigger] history@[c])@,
                    deck@,
                    if reached@[c] < k {
                        reached@[c] as int
                    } else {
                        k as int
                    },
                    groups as int,
                ),
        decreases reached@.len() - checkpoint,
    {
        history.push(cumulative.clone());
        checkpoint += 1;
    }
    history
}

/// Deals `trials` hands from a generator seeded with `seed`, hands each
/// one's checkpoints to `evaluator`, and counts in how many hands each
/// criterion held and each expectation took each value.
///
/// Refused, in this order, when the checkpoints draw more cards than the
/// library holds and when there are no trials. After that the run stops at
/// the first hand the evaluator fails on or answers in the wrong shape.
/// The deck is not reset between hands: each one is dealt from where the
/// last left it.
pub fn simulate<E, V: Evaluator<Error = E>>(
    grouping: &Grouping,
    gaps: &Vec<u32>,
    trials: u32,
    seed: u64,
    plan: Plan,
    evaluator: &mut V,
) -> (r: Result<Tally, SimError<E>>)
    requires
        sum_of(gaps@, gaps@.len() as int) <= u32::MAX,
    ensures
        sum_of(gaps@, gaps@.len() as int) > sum_of(grouping.sizes_of(), grouping.sizes_of().len() as int)
            ==> (r matches Err(SimError::NotEnoughCards { population, draws })
            && population == sum_of(grouping.sizes_of(), grouping.sizes_of().len() as int)
            && draws == sum_of(gaps@, gaps@.len() as int)),
        sum_of(gaps@, gaps@.len() as int) <= sum_of(grouping.sizes_of(), grouping.sizes_of().len() as int)
            && trials == 0 ==> r matches Err(SimError::NoTrials),
        r matches Err(SimError::NotEnoughCards { .. }) ==> sum_of(gaps@, gaps@.len() as int) > sum_of(
            grouping.sizes_of(),
            grouping.sizes_of().len() as int,
        ),
        r matches Err(SimError::NoTrials) ==> trials == 0 && sum_of(gaps@, gaps@.len() as int)
            <= sum_of(grouping.sizes_of(), grouping.sizes_of().len() as int),
        r matches Ok(t) ==> {
            &&& sum_of(gaps@, gaps@.len() as int) <= sum_of(grouping.sizes_of(), grouping.sizes_of().len() as int)
            &&& trials > 0
            &&& t.trials == trials
            &&& t.well_formed()
            &&& exists|answers: Seq<PathOutcomes>| #[trigger] t.counts_exactly(plan, answers)
        },
        r matches Err(SimError::WrongShape { plan: p, held, counted }) ==> (p == plan && (held
            != plan.criteria || counted != plan.expectations) && trials > 0 && sum_of(
            gaps@,
            gaps@.len() as int,
        ) <= sum_of(grouping.sizes_of(), grouping.sizes_of().len() as int)),
        r matches Err(SimError::Evaluator(_)) ==> trials > 0 && sum_of(gaps@, gaps@.len() as int)
            <= sum_of(grouping.sizes_of(), grouping.sizes_of().len() as int),
{
    let population = grouping.population();
    let mut total_draws: u32 = 0;
    let mut c: usize = 0;
    while c < gaps.len()
        invariant
            c <= gaps@.len(),
            sum_of(gaps@, gaps@.len() as int) <= u32::MAX,
            total_draws as int == sum_of(gaps@, c as int),
        decreases gaps@.len() - c,
    {
        proof {
            lemma_sum_mono(gaps@, c + 1, gaps@.len() as int);
        }
        total_draws = total_draws + gaps[c];
        c += 1;
    }
    if total_draws > population {
        return Err(SimError::NotEnoughCards { population, draws: total_draws });
    }
    if trials == 0 {
        return Err(SimError::NoTrials);
    }
    let sizes = grouping.group_sizes();
    let groups = sizes.len();
    let mut deck = lay_out(sizes);
    let reached = reached_at(gaps);
    proof {
        assert forall|a: int, b: int| 0 <= a <= b < reached@.len() implies reached@[a]
            <= reached@[b] by {
            lemma_sum_mono(gaps@, a + 1, b + 1);
        }
    }
    let mut rng = seeded(seed);
    let mut tally = Tally::empty(plan);
    let ghost mut answers: Seq<PathOutcomes> = Seq::empty();
    let mut t: u32 = 0;
    while t < trials
        invariant
            t <= trials,
            sizes@ == grouping.sizes_of(),
            groups == sizes@.len(),
            total_draws as int == sum_of(gaps@, gaps@.len() as int),
            total_draws <= population,
            population as int == sum_of(sizes@, sizes@.len() as int),
            deck@.len() == population,
            forall|g: int| 0 <= g < groups ==> occ(deck@, g) == sizes@[g] as int,
            forall|x: int| 0 <= x < deck@.len() ==> #[trigger] deck@[x] < groups,
            reached@.len() == gaps@.len(),
            forall|a: int, b: int| 0 <= a <= b < reached@.len() ==> reached@[a] <= reached@[b],
            tally.well_formed(),
            tally.counts_exactly(plan, answers),
            tally.trials == t,
        decreases trials - t,
    {
        let picks = draw_picks(&mut rng, deck.len(), total_draws as usize);
        let ghost before = deck@;
        let history = deal(&mut deck, &picks, &reached, groups);
        proof {
            lemma_shuffle_keeps_groups(before, picks@, picks@.len() as int, groups as int);
            assert forall|h: int| 0 <= h < groups implies occ(deck@, h) == sizes@[h] as int by {
                lemma_shuffle_keeps_occ(before, picks@, picks@.len() as int, h);
            }
            assert forall|c: int| 0 <= c < history@.len() implies (#[trigger] history@[c])@.len()
                == grouping.sizes_of().len() && forall|h: int|
                0 <= h < grouping.sizes_of().len() ==> #[trigger] history@[c]@[h]
                    <= grouping.sizes_of()[h] by {
                let seen = if reached@[c] < picks@.len() {
                    reached@[c] as int
                } else {
                    picks@.len() as int
                };
                assert forall|h: int| 0 <= h < grouping.sizes_of().len() implies #[trigger] history@[c]@[h]
                    <= grouping.sizes_of()[h] by {
                    lemma_occ_take_le(deck@, seen, h);
                }
            }
            assert(path_over(*grouping, history@));
        }
        let view = PathView::new(grouping, history.as_slice());
        let results = match evaluator.evaluate(&view) {
            Ok(o) => o,
            Err(err) => {
                return Err(SimError::Evaluator(err));
            },
        };
        let ghost before = tally;
        match tally.take(plan, &results) {
            Ok(()) => {},
            Err((held, counted)) => {
                return Err(SimError::WrongShape { plan, held, counted });
            },
        }
        proof {
            let next = answers.push(results);
            assert(next.drop_last() =~= answers);
            assert forall|c: int| 0 <= c < plan.criteria implies #[trigger] tally.hits@[c] == held_in(
                next,
                c,
            ) by {
                assert(before.hits@[c] == held_in(answers, c));
            }
            assert forall|e: int, v: int|
                0 <= e < plan.expectations && 0 <= v <= MAX_COUNT implies #[trigger] tally.counts@[e]@[v]
                == valued_in(next, e, v) by {
                assert(before.counts@[e]@[v] == valued_in(answers, e, v));
            }
            answers = next;
        }
        t += 1;
    }
    Ok(tally)
}

/// One bucket per value from 0 to [`MAX_COUNT`], all empty.
fn zeros() -> (r: Vec<u32>)
    ensures
        r@.len() == MAX_COUNT + 1,
        forall|v: int| 0 <= v <= MAX_COUNT ==> #[trigger] r@[v] == 0,
        sum_of(r@, MAX_COUNT + 1) == 0,
{
    let mut r: Vec<u32> = Vec::new();
    let mut v: u32 = 0;
    while v <= MAX_COUNT
        invariant
            v <= MAX_COUNT + 1,
            r@.len() == v,
            sum_of(r@, v as int) == 0,
            forall|x: int| 0 <= x < v ==> #[trigger] r@[x] == 0,
        decreases MAX_COUNT + 1 - v,
    {
        proof {
            lemma_sum_same(r@, r@.push(0), v as int);
        }
        r.push(0);
        v += 1;
    }
    r
}

proof fn lemma_sum_same(a: Seq<u32>, b: Seq<u32>, n: int)
    requires
        0 <= n <= a.len(),
        n <= b.len(),
        forall|i: int| 0 <= i < n ==> a[i] == b[i],
    ensures
        sum_of(a, n) == sum_of(b, n),
    decreases n,
{
    if n > 0 {
        lemma_sum_same(a, b, n - 1);
    }
}

proof fn lemma_sum_mono(s: Seq<u32>, i: int, n: int)
    requires
        0 <= i <= n,
    ensures
        sum_of(s, i) <= sum_of(s, n),
    decreases n - i,
{
    if i < n {
        lemma_sum_mono(s, i, n - 1);
    }
}

proof fn lemma_elem_le_sum_of(s: Seq<u32>, v: int, n: int)
    requires
        0 <= v < n <= s.len(),
    ensures
        s[v] <= sum_of(s, n),
    decreases n,
{
    if v < n - 1 {
        lemma_elem_le_sum_of(s, v, n - 1);
    } else {
        lemma_sum_nonneg(s, n - 1);
    }
}

proof fn lemma_sum_nonneg(s: Seq<u32>, n: int)
    ensures
        sum_of(s, n) >= 0,
    decreases n,
{
    if n > 0 {
        lemma_sum_nonneg(s, n - 1);
    }
}

proof fn lemma_sum_set(s: Seq<u32>, v: int, n: int)
    requires
        0 <= v < n <= s.len(),
        s[v] < u32::MAX,
    ensures
        sum_of(s.update(v, (s[v] + 1) as u32), n) == sum_of(s, n) + 1,
    decreases n,
{
    if v < n - 1 {
        lemma_sum_set(s, v, n - 1);
    } else {
        lemma_sum_same(s, s.update(v, (s[v] + 1) as u32), n - 1);
    }
}

/// A swap of slot `i` with a slot from `i` on leaves the first `m <= i`
/// slots as they were.
proof fn lemma_swap_keeps_prefix(d: Seq<usize>, i: int, j: int, m: int)
    requires
        0 <= m <= i <= j < d.len(),
    ensures
        d.update(i, d[j]).update(j, d[i]).take(m) =~= d.take(m),
{
}

proof fn lemma_take_step(d: Seq<usize>, i: int)
    requires
        0 <= i < d.len(),
    ensures
        d.take(i + 1) =~= d.take(i).push(d[i]),
{
}

/// A prefix holds no more of a group than the whole.
proof fn lemma_occ_take_le(s: Seq<usize>, m: int, g: int)
    requires
        0 <= m <= s.len(),
    ensures
        0 <= occ(s.take(m), g) <= occ(s, g),
    decreases s.len(),
{
    lemma_occ_nonneg(s.take(m), g);
    if m == s.len() {
        assert(s.take(m) =~= s);
    } else {
        assert(s.take(m) =~= s.drop_last().take(m));
        lemma_occ_take_le(s.drop_last(), m, g);
        lemma_occ_nonneg(s.drop_last(), g);
    }
}

proof fn lemma_occ_bound(s: Seq<usize>, g: int)
    ensures
        occ(s, g) <= s.len(),
    decreases s.len(),
{
    if s.len() > 0 {
        lemma_occ_bound(s.drop_last(), g);
    }
}

/// Writing `a` at `i` moves one occurrence from the old value to `a`.
proof fn lemma_occ_update(s: Seq<usize>, i: int, a: usize, g: int)
    requires
        0 <= i < s.len(),
    ensures
        occ(s.update(i, a), g) == occ(s, g) - (if s[i] as int == g {
            1int
        } else {
            0int
        }) + (if a as int == g {
            1int
        } else {
            0int
        }),
    decreases s.len(),
{
    if i == s.len() - 1 {
        assert(s.update(i, a).drop_last() =~= s.drop_last());
    } else {
        assert(s.update(i, a).drop_last() =~= s.drop_last().update(i, a));
        lemma_occ_update(s.drop_last(), i, a, g);
    }
}

/// A partial Fisher-Yates deals from the library it was given: however the
/// swaps fall, the deck holds as many cards of each group as before.
pub proof fn lemma_shuffle_keeps_occ(deck: Seq<usize>, picks: Seq<usize>, n: int, g: int)
    requires
        0 <= n <= picks.len(),
        n <= deck.len(),
        fisher_yates(picks, deck.len() as int),
    ensures
        occ(shuffled(deck, picks, n), g) == occ(deck, g),
        shuffled(deck, picks, n).len() == deck.len(),
    decreases n,
{
    if n > 0 {
        lemma_shuffle_keeps_occ(deck, picks, n - 1, g);
        let d = shuffled(deck, picks, n - 1);
        let i = n - 1;
        let j = picks[i] as int;
        assert(i <= picks[i]);
        lemma_occ_update(d, i, d[j], g);
        lemma_occ_update(d.update(i, d[j]), j, d[i], g);
    }
}

/// Shuffling keeps every slot naming one of the groups.
proof fn lemma_shuffle_keeps_groups(deck: Seq<usize>, picks: Seq<usize>, n: int, groups: int)
    requires
        0 <= n <= picks.len(),
        n <= deck.len(),
        fisher_yates(picks, deck.len() as int),
        forall|x: int| 0 <= x < deck.len() ==> #[trigger] deck[x] < groups,
    ensures
        shuffled(deck, picks, n).len() == deck.len(),
        forall|x: int|
            0 <= x < deck.len() ==> #[trigger] shuffled(deck, picks, n)[x] < groups,
    decreases n,
{
    if n > 0 {
        lemma_shuffle_keeps_groups(deck, picks, n - 1, groups);
        let i = n - 1;
        assert(i <= picks[i]);
    }
}

} // verus!

//! What one path through the enumeration looks like to the questions asked
//! of it, and what they answer.
//!
//! A question may only ask how many cards matching a query are in a zone,
//! never which ones; that restriction is what keeps the engine exact.

use vstd::prelude::*;
use crate::grouping::{Grouping, lemma_matching_le_sum, matching_in, sum_of};
use crate::zone::Zone;
use crate::report::joined_with;
use crate::text::{decimal_spec, decimal_wide, push_chars, push_str, string_of};

verus! {

/// The largest value an expectation may take.
pub const MAX_COUNT: u32 = 1024;

/// One named quantity to report the mean and the distribution of.
#[derive(Debug, Clone, PartialEq, Eq)]
pub struct Expectation {
    pub name: String,
}

/// A value an expectation took on one path: a whole number from 0 to
/// [`MAX_COUNT`].
#[derive(Debug, Clone, Copy, PartialEq, Eq, Structural)]
pub struct Count(u32);

/// A value that has no bucket: more than [`MAX_COUNT`].
#[derive(Debug, Clone, Copy, PartialEq, Eq, Structural)]
pub struct NotACount {
    pub value: u32,
}

impl Count {
    pub closed spec fn value(self) -> u32 {
        self.0
    }

    #[verifier::type_invariant]
    spec fn in_range(self) -> bool {
        self.0 <= MAX_COUNT
    }

    /// `value` as a count, if it has a bucket.
    pub fn new(value: u32) -> (r: Result<Count, NotACount>)
        ensures
            value <= MAX_COUNT ==> (r matches Ok(c) && c.value() == value),
            value > MAX_COUNT ==> r == Err::<Count, NotACount>(NotACount { value }),
    {
        if value > MAX_COUNT {
            Err(NotACount { value })
        } else {
            Ok(Count(value))
        }
    }

    pub fn get(self) -> (r: u32)
        ensures
            r == self.value(),
            r <= MAX_COUNT,
    {
        proof {
            use_type_invariant(&self);
        }
        self.0
    }
}

/// How many questions of each kind a run answers.
#[derive(Debug, Clone, Copy, Default, PartialEq, Eq, Structural)]
pub struct Plan {
    pub criteria: usize,
    pub expectations: usize,
}

/// What every registered question answered on one path: a criterion slot
/// can only hold a bool and an expectation slot only a [`Count`].
#[derive(Debug, Clone, Default)]
pub struct PathOutcomes {
    /// One per criterion, in registration order: did it hold on this path?
    pub held: Vec<bool>,
    /// One per expectation, in registration order: what value did it take?
    pub counted: Vec<Count>,
}

impl PathOutcomes {
    /// Whether these answers are the shape `plan` set the run up for.
    pub fn fits(&self, plan: Plan) -> (r: bool)
        ensures
            r == (self.held@.len() == plan.criteria && self.counted@.len() == plan.expectations),
    {
        self.held.len() == plan.criteria && self.counted.len() == plan.expectations
    }
}

/// What a criterion is allowed to see: counts, never cards.
pub struct PathView<'a> {
    grouping: &'a Grouping,
    history: &'a [Vec<u32>],
}

/// Whether `history` is a path over `grouping`: one row per checkpoint, one
/// count per group, never more than the group holds.
pub open spec fn path_over(grouping: Grouping, history: Seq<Vec<u32>>) -> bool {
    forall|c: int|
        0 <= c < history.len() ==> (#[trigger] history[c])@.len() == grouping.sizes_of().len()
            && forall|g: int|
            0 <= g < grouping.sizes_of().len() ==> #[trigger] history[c]@[g]
                <= grouping.sizes_of()[g]
}

impl<'a> PathView<'a> {
    pub closed spec fn grouping_of(self) -> Grouping {
        *self.grouping
    }

    pub closed spec fn history_of(self) -> Seq<Vec<u32>> {
        self.history@
    }

    #[verifier::type_invariant]
    spec fn fits(self) -> bool {
        path_over(*self.grouping, self.history@)
    }

    pub fn new(grouping: &'a Grouping, history: &'a [Vec<u32>]) -> (v: PathView<'a>)
        requires
            path_over(*grouping, history@),
        ensures
            v.grouping_of() == *grouping,
            v.history_of() == history@,
    {
        PathView { grouping, history }
    }

    /// A view of `history`, if it is a path over `grouping`: one row per
    /// checkpoint, one count per group, none above its group's size.
    pub fn checked(grouping: &'a Grouping, history: &'a [Vec<u32>]) -> (r: Option<PathView<'a>>)
        ensures
            r is Some <==> path_over(*grouping, history@),
            r matches Some(v) ==> v.grouping_of() == *grouping && v.history_of() == history@,
    {
        let sizes = grouping.group_sizes();
        let mut c: usize = 0;
        while c < history.len()
            invariant
                c <= history@.len(),
                sizes@ == grouping.sizes_of(),
                forall|k: int|
                    0 <= k < c ==> (#[trigger] history@[k])@.len() == grouping.sizes_of().len()
                        && forall|g: int|
                        0 <= g < grouping.sizes_of().len() ==> #[trigger] history@[k]@[g]
                            <= grouping.sizes_of()[g],
            decreases history@.len() - c,
        {
            let row = &history[c];
            if row.len() != sizes.len() {
                proof {
                    assert(history@[c as int]@.len() != grouping.sizes_of().len());
                }
                return None;
            }
            let mut g: usize = 0;
            while g < row.len()
                invariant
                    g <= row@.len(),
                    row@.len() == sizes@.len(),
                    sizes@ == grouping.sizes_of(),
                    c < history@.len(),
                    *row == history@[c as int],
                    forall|h: int| 0 <= h < g ==> #[trigger] row@[h] <= sizes@[h],
                decreases row@.len() - g,
            {
                if row[g] > sizes[g] {
                    proof {
                        assert(history@[c as int]@[g as int] > grouping.sizes_of()[g as int]);
                    }
                    return None;
                }
                g += 1;
            }
            c += 1;
        }
        Some(PathView::new(grouping, history))
    }

    pub fn checkpoints(&self) -> (r: usize)
        ensures
            r == self.history_of().len(),
    {
        self.history.len()
    }

    /// How many cards matching `query_idx` are in `zone` at `checkpoint`:
    /// everything drawn is in hand, nothing is in the graveyard, and the
    /// library holds the rest. 0 for a checkpoint beyond the path.
    /// What [`PathView::count_in`] answers.
    pub open spec fn count_spec(self, checkpoint: int, query_idx: int, zone: Zone) -> int {
        if checkpoint < 0 || checkpoint >= self.history_of().len() || query_idx < 0 || query_idx
            >= self.grouping_of().queries_of().len() {
            0
        } else {
            let masks = self.grouping_of().masks_of();
            let g = self.grouping_of().sizes_of().len() as int;
            let drawn = matching_in(masks, self.history_of()[checkpoint]@, query_idx, g);
            match zone {
                Zone::Hand => drawn,
                Zone::Graveyard => 0,
                Zone::Library => matching_in(masks, self.grouping_of().sizes_of(), query_idx, g)
                    - drawn,
            }
        }
    }

    pub fn count_in(&self, checkpoint: usize, query_idx: usize, zone: Zone) -> (r: u32)
        ensures
            r == self.count_spec(checkpoint as int, query_idx as int, zone),
            r == if checkpoint >= self.history_of().len() || query_idx
                >= self.grouping_of().queries_of().len() {
                0
            } else {
                let masks = self.grouping_of().masks_of();
                let g = self.grouping_of().sizes_of().len() as int;
                let drawn = matching_in(
                    masks,
                    self.history_of()[checkpoint as int]@,
                    query_idx as int,
                    g,
                );
                match zone {
                    Zone::Hand => drawn,
                    Zone::Graveyard => 0,
                    Zone::Library => matching_in(
                        masks,
                        self.grouping_of().sizes_of(),
                        query_idx as int,
                        g,
                    ) - drawn,
                }
            },
    {
        proof {
            use_type_invariant(self);
        }
        if checkpoint >= self.history.len() {
            return 0;
        }
        let sizes = self.grouping.group_sizes();
        let counts = &self.history[checkpoint];
        proof {
            let g = sizes@.len() as int;
            let masks = self.grouping_of().masks_of();
            assert(counts@.len() == g);
            lemma_matching_pointwise(masks, counts@, sizes@, query_idx as int, g);
            lemma_matching_le_sum(masks, sizes@, query_idx as int, g);
        }
        let drawn = self.grouping.count_matching(counts, query_idx);
        match zone {
            Zone::Hand => drawn,
            Zone::Graveyard => 0,
            Zone::Library => self.grouping.matching_total(query_idx) - drawn,
        }
    }
}

proof fn lemma_matching_pointwise(masks: Seq<u64>, a: Seq<u32>, b: Seq<u32>, q: int, n: int)
    requires
        0 <= n <= a.len(),
        n <= b.len(),
        n <= masks.len(),
        forall|i: int| 0 <= i < n ==> #[trigger] a[i] <= b[i],
    ensures
        0 <= matching_in(masks, a, q, n) <= matching_in(masks, b, q, n),
    decreases n,
{
    if n > 0 {
        lemma_matching_pointwise(masks, a, b, q, n - 1);
    }
}


/// Above this many compositions, enumeration stops being instant and starts
/// being a hang.
pub const MAX_PATHS: u128 = 5_000_000;

/// Why an exact run was refused.
pub enum RunError<E> {
    /// Too many compositions to enumerate; names every query so the reader
    /// can see which to drop.
    TooWide { paths: u128, groups: usize, queries: Vec<String> },
    /// Every card in the list is a commander or outside the deck.
    EmptyLibrary,
    /// The checkpoints draw more cards than the library holds, so there is
    /// no path at all.
    NotEnoughCards { population: u32, draws: u32 },
    /// The criteria answered a different number of questions than the run
    /// was set up for.
    WrongShape { plan: Plan, held: usize, counted: usize },
    /// The criteria themselves failed.
    Evaluator(E),
}

/// `a * b`, or `u128::MAX` where that does not fit.
pub open spec fn saturating_product(a: int, b: int) -> int {
    if a * b > u128::MAX {
        u128::MAX as int
    } else {
        a * b
    }
}

/// The running binomial `C(n, i)` built one factor at a time, each product
/// saturating at `u128::MAX` before its division.
pub open spec fn binomial_steps(n: int, i: int) -> int
    decreases i,
{
    if i <= 0 {
        1
    } else {
        saturating_product(binomial_steps(n, i - 1), n - (i - 1)) / i
    }
}

/// The estimated number of compositions over the first `k` gaps: for each
/// gap, the compositions of that many cards over `bins + 1` groups, the
/// whole product saturating.
pub open spec fn paths_estimate(bins: int, gaps: Seq<u32>, k: int) -> int
    decreases k,
{
    if k <= 0 {
        1
    } else {
        saturating_product(
            paths_estimate(bins, gaps, k - 1),
            binomial_steps(gaps[k - 1] + bins, bins),
        )
    }
}

fn saturating_times(a: u128, b: u128) -> (r: u128)
    ensures
        r == saturating_product(a as int, b as int),
{
    match a.checked_mul(b) {
        Some(v) => v,
        None => u128::MAX,
    }
}

proof fn lemma_binomial_steps_bounded(n: int, i: int)
    requires
        0 <= i <= n,
    ensures
        0 <= binomial_steps(n, i) <= u128::MAX,
    decreases i,
{
    if i > 0 {
        lemma_binomial_steps_bounded(n, i - 1);
        let a = binomial_steps(n, i - 1);
        let f = n - (i - 1);
        assert(a * f >= 0) by (nonlinear_arith)
            requires
                a >= 0,
                f >= 0,
        ;
        let p = saturating_product(a, f);
        assert(0 <= p / i <= p) by (nonlinear_arith)
            requires
                p >= 0,
                i >= 1,
        ;
    }
}

/// Estimated number of compositions, used only to refuse impossible
/// questions before spending an hour on them.
pub fn estimate_paths(groups: usize, gaps: &Vec<u32>) -> (r: u128)
    ensures
        r == paths_estimate(if groups == 0 {
            0
        } else {
            groups - 1
        }, gaps@, gaps@.len() as int),
{
    let bins: u128 = if groups == 0 {
        0
    } else {
        (groups - 1) as u128
    };
    let mut total: u128 = 1;
    let mut k: usize = 0;
    while k < gaps.len()
        invariant
            k <= gaps@.len(),
            bins == (if groups == 0 {
                0
            } else {
                groups - 1
            }),
            total == paths_estimate(bins as int, gaps@, k as int),
        decreases gaps@.len() - k,
    {
        let n: u128 = gaps[k] as u128 + bins;
        let mut acc: u128 = 1;
        let mut i: u128 = 0;
        while i < bins
            invariant
                i <= bins,
                n == gaps@[k as int] + bins,
                acc == binomial_steps(n as int, i as int),
            decreases bins - i,
        {
            proof {
                lemma_binomial_steps_bounded(n as int, i + 1);
            }
            let product = saturating_times(acc, n - i);
            acc = product / (i + 1);
            i += 1;
        }
        total = saturating_times(total, acc);
        k += 1;
    }
    total
}

/// The refusals an exact run makes before it enumerates anything: an empty
/// library, more draws than cards, and too many compositions, in that order.
pub fn preflight<E>(grouping: &Grouping, gaps: &Vec<u32>) -> (r: Result<(), RunError<E>>)
    requires
        sum_of(gaps@, gaps@.len() as int) <= u32::MAX,
    ensures
        grouping.sizes_of().len() == 0 ==> r matches Err(RunError::EmptyLibrary),
        grouping.sizes_of().len() > 0 && sum_of(gaps@, gaps@.len() as int) > sum_of(
            grouping.sizes_of(),
            grouping.sizes_of().len() as int,
        ) ==> (r matches Err(RunError::NotEnoughCards { population, draws }) && population
            == sum_of(grouping.sizes_of(), grouping.sizes_of().len() as int) && draws == sum_of(
            gaps@,
            gaps@.len() as int,
        )),
        grouping.sizes_of().len() > 0 && sum_of(gaps@, gaps@.len() as int) <= sum_of(
            grouping.sizes_of(),
            grouping.sizes_of().len() as int,
        ) ==> (paths_estimate(grouping.sizes_of().len() - 1, gaps@, gaps@.len() as int)
            > MAX_PATHS <==> r is Err),
        grouping.sizes_of().len() > 0 && sum_of(gaps@, gaps@.len() as int) <= sum_of(
            grouping.sizes_of(),
            grouping.sizes_of().len() as int,
        ) && paths_estimate(grouping.sizes_of().len() - 1, gaps@, gaps@.len() as int) > MAX_PATHS
            ==> r matches Err(RunError::TooWide { .. }),
        r matches Err(RunError::TooWide { paths, groups, queries }) ==> (paths
            == paths_estimate(grouping.sizes_of().len() - 1, gaps@, gaps@.len() as int) && groups
            == grouping.sizes_of().len() && queries@ == grouping.queries_of()),
{
    let groups = grouping.group_sizes().len();
    if groups == 0 {
        return Err(RunError::EmptyLibrary);
    }
    let population = grouping.population();
    let mut draws: u32 = 0;
    let mut c: usize = 0;
    while c < gaps.len()
        invariant
            c <= gaps@.len(),
            sum_of(gaps@, gaps@.len() as int) <= u32::MAX,
            draws as int == sum_of(gaps@, c as int),
        decreases gaps@.len() - c,
    {
        proof {
            lemma_sum_upto(gaps@, c + 1, gaps@.len() as int);
        }
        draws = draws + gaps[c];
        c += 1;
    }
    if draws > population {
        return Err(RunError::NotEnoughCards { population, draws });
    }
    let paths = estimate_paths(groups, gaps);
    if paths > MAX_PATHS {
        let queries = grouping.queries().clone();
        proof {
            assert(queries@ =~= grouping.queries_of());
        }
        return Err(RunError::TooWide { paths, groups, queries });
    }
    Ok(())
}

proof fn lemma_sum_upto(s: Seq<u32>, i: int, n: int)
    requires
        0 <= i <= n,
    ensures
        sum_of(s, i) <= sum_of(s, n),
    decreases n - i,
{
    if i < n {
        lemma_sum_upto(s, i, n - 1);
    }
}

/// Evaluates every registered question against one path.
pub trait Evaluator {
    type Error;

    fn evaluate(&mut self, view: &PathView<'_>) -> Result<PathOutcomes, Self::Error>;
}

/// What a refusal for width says: how wide, and every query asked about, so
/// the reader can see which to drop.
pub open spec fn too_wide_text(paths: nat, groups: nat, queries: Seq<String>) -> Seq<char> {
    "this question is too wide to answer exactly: "@ + decimal_spec(paths) + " compositions across "@
        + decimal_spec(groups) + " groups.\nIt asks about "@ + decimal_spec(queries.len())
        + " queries: "@ + joined_with(queries.map_values(|q: String| q@), ", "@)
        + "\nReduce the number of distinct queries, or ask about an earlier turn."@
}

/// The refusal [`too_wide_text`] gives.
pub fn too_wide_message(paths: u128, groups: usize, queries: &[String]) -> (r: String)
    ensures
        r@ == too_wide_text(paths as nat, groups as nat, queries@),
{
    let mut out: Vec<char> = Vec::new();
    push_str(&mut out, "this question is too wide to answer exactly: ");
    push_chars(&mut out, decimal_wide(paths).as_slice());
    push_str(&mut out, " compositions across ");
    push_chars(&mut out, decimal_wide(groups as u128).as_slice());
    push_str(&mut out, " groups.\nIt asks about ");
    push_chars(&mut out, decimal_wide(queries.len() as u128).as_slice());
    push_str(&mut out, " queries: ");
    let ghost before = out@;
    let mut i: usize = 0;
    while i < queries.len()
        invariant
            i <= queries@.len(),
            out@ == before + joined_with(queries@.subrange(0, i as int).map_values(|q: String| q@), ", "@),
        decreases queries@.len() - i,
    {
        let ghost was = out@;
        if i > 0 {
            push_str(&mut out, ", ");
        }
        push_str(&mut out, queries[i].as_str());
        proof {
            let done = queries@.subrange(0, i + 1).map_values(|q: String| q@);
            assert(done.drop_last() =~= queries@.subrange(0, i as int).map_values(|q: String| q@));
            assert(done.last() =~= queries@[i as int]@);
            assert(out@ =~= before + joined_with(done, ", "@));
        }
        i += 1;
    }
    proof {
        assert(queries@.subrange(0, queries@.len() as int) =~= queries@);
    }
    push_str(&mut out, "\nReduce the number of distinct queries, or ask about an earlier turn.");
    proof {
        assert(out@ =~= too_wide_text(paths as nat, groups as nat, queries@));
    }
    string_of(out.as_slice())
}

} // verus!

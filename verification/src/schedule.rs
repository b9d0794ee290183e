//! When this run sees cards, and what it gets to do about it.
//!
//! A run is a list of gaps — how many more cards each checkpoint draws — and
//! a turn is a span of checkpoints: the draw first, then one slot per card a
//! live effect may look at, so the enumeration can tell the order cards came
//! off the top.

use vstd::prelude::*;
use crate::effect::Effect;
use crate::policy::LandDropPolicy;

verus! {

/// The opening hand, before anybody has drawn for turn.
pub const OPENING_HAND: u32 = 7;

/// How much of a run's turn structure one class of questions reads.
#[derive(Debug, Clone, Copy, PartialEq, Eq, Structural)]
pub enum Reading {
    /// Only how many cards had been seen by the turns it names.
    Cumulative,
    /// The turn-by-turn history up to the last turn it names.
    PerTurn,
}

/// Cards drawn on `turn`: none on turn 0 (the opening hand is its own gap)
/// and none on turn 1 on the play.
pub open spec fn draws_on(turn: int, on_the_draw: bool) -> u32 {
    if turn > 0 && (on_the_draw || turn > 1) {
        1
    } else {
        0
    }
}

/// The sum of the first `n` gaps.
pub open spec fn drawn_by(gaps: Seq<u32>, n: int) -> int
    decreases n,
{
    if n <= 0 {
        0
    } else {
        drawn_by(gaps, n - 1) + gaps[n - 1]
    }
}

/// Cards seen by the end of `turn`: everything drawn up to its last
/// checkpoint.
pub open spec fn seen_by(gaps: Seq<u32>, spans: Seq<(usize, usize)>, turn: usize) -> int {
    drawn_by(gaps, spans[turn as int].1 + 1)
}

/// The spans tile the checkpoints: turn `t` owns `spans[t].0..=spans[t].1`,
/// each turn starts where the one before ended, and the last ends at the last
/// checkpoint.
pub open spec fn tiles(len: int, spans: Seq<(usize, usize)>) -> bool {
    &&& (spans.len() == 0) == (len == 0)
    &&& spans.len() > 0 ==> spans[0].0 == 0 && spans[spans.len() - 1].1 == len - 1
    &&& forall|t: int| 0 <= t < spans.len() ==> (#[trigger] spans[t]).0 <= spans[t].1
    &&& forall|t: int| 0 <= t < spans.len() - 1 ==> #[trigger] spans[t + 1].0 == spans[t].1 + 1
}

/// The gaps of a built schedule: the opening hand, then for each turn its
/// draw followed by `slots` single-card look slots.
pub open spec fn built_gaps(horizon: int, on_the_draw: bool, slots: int) -> Seq<u32>
    decreases horizon,
{
    if horizon <= 0 {
        seq![OPENING_HAND]
    } else {
        built_gaps(horizon - 1, on_the_draw, slots).push(draws_on(horizon, on_the_draw)) + Seq::new(
            slots as nat,
            |i: int| 1u32,
        )
    }
}

/// The spans of a built schedule.
pub open spec fn built_spans(horizon: int, on_the_draw: bool, slots: int) -> Seq<(usize, usize)>
    decreases horizon,
{
    if horizon <= 0 {
        seq![(0usize, 0usize)]
    } else {
        let first = built_gaps(horizon - 1, on_the_draw, slots).len();
        built_spans(horizon - 1, on_the_draw, slots).push(
            (first as usize, (first + slots) as usize),
        )
    }
}

/// The deepest look among `effects`, or 0.
pub open spec fn deepest_look(effects: Seq<Effect>) -> int
    decreases effects.len(),
{
    if effects.len() == 0 {
        0
    } else {
        let rest = deepest_look(effects.drop_last());
        if effects.last().look > rest {
            effects.last().look as int
        } else {
            rest
        }
    }
}

/// A run's turn structure: which checkpoints belong to which turn, and what
/// happens on each of them.
#[derive(Debug)]
pub struct Schedule {
    gaps: Vec<u32>,
    spans: Vec<(usize, usize)>,
    effects: Vec<Effect>,
    land_drop: Option<LandDropPolicy>,
}

impl Schedule {
    #[verifier::type_invariant]
    spec fn well_formed(self) -> bool {
        &&& tiles(self.gaps@.len() as int, self.spans@)
        &&& drawn_by(self.gaps@, self.gaps@.len() as int) <= u32::MAX
    }

    pub closed spec fn gaps_of(self) -> Seq<u32> {
        self.gaps@
    }

    pub closed spec fn spans_of(self) -> Seq<(usize, usize)> {
        self.spans@
    }

    pub closed spec fn effects_of(self) -> Seq<Effect> {
        self.effects@
    }

    pub closed spec fn land_drop_of(self) -> Option<(Seq<usize>, usize)> {
        match self.land_drop {
            Some(p) => Some(p@),
            None => None,
        }
    }

    /// One checkpoint per turn and no effects.
    pub fn plain(gaps: &[u32]) -> (s: Schedule)
        requires
            drawn_by(gaps@, gaps@.len() as int) <= u32::MAX,
        ensures
            s.gaps_of() == gaps@,
            s.spans_of().len() == gaps@.len(),
            forall|t: int| 0 <= t < gaps@.len() ==> #[trigger] s.spans_of()[t] == (t as usize, t as usize),
            s.effects_of().len() == 0,
            s.land_drop_of() is None,
    {
        let mut g: Vec<u32> = Vec::new();
        let mut spans: Vec<(usize, usize)> = Vec::new();
        let mut t: usize = 0;
        while t < gaps.len()
            invariant
                t <= gaps@.len(),
                g@ =~= gaps@.subrange(0, t as int),
                spans@.len() == t,
                forall|k: int| 0 <= k < t ==> #[trigger] spans@[k] == (k as usize, k as usize),
            decreases gaps@.len() - t,
        {
            g.push(gaps[t]);
            spans.push((t, t));
            t += 1;
        }
        assert(g@ =~= gaps@);
        Schedule { gaps: g, spans, effects: Vec::new(), land_drop: None }
    }

    /// [`Schedule::plain`] with a land-drop priority declared.
    pub fn plain_under(gaps: &[u32], land_drop: LandDropPolicy) -> (s: Schedule)
        requires
            drawn_by(gaps@, gaps@.len() as int) <= u32::MAX,
        ensures
            s.gaps_of() == gaps@,
            s.spans_of().len() == gaps@.len(),
            forall|t: int| 0 <= t < gaps@.len() ==> #[trigger] s.spans_of()[t] == (t as usize, t as usize),
            s.effects_of().len() == 0,
            s.land_drop_of() == Some(land_drop@),
    {
        let plain = Schedule::plain(gaps);
        proof {
            use_type_invariant(&plain);
        }
        Schedule { gaps: plain.gaps, spans: plain.spans, effects: plain.effects, land_drop: Some(land_drop) }
    }

    /// The schedule for `horizon` turns with `effects` live: the opening hand,
    /// then per turn its draw and one look slot per card the deepest look
    /// examines.
    pub fn build(
        horizon: u32,
        on_the_draw: bool,
        effects: Vec<Effect>,
        land_drop: Option<LandDropPolicy>,
    ) -> (s: Schedule)
        requires
            (horizon as int) * (1 + deepest_look(effects@)) + 8 <= u32::MAX,
        ensures
            s.gaps_of() == built_gaps(horizon as int, on_the_draw, deepest_look(effects@)),
            s.spans_of() == built_spans(horizon as int, on_the_draw, deepest_look(effects@)),
            s.effects_of() == effects@,
            s.land_drop_of() == match land_drop {
                Some(p) => Some(p@),
                None => None,
            },
    {
        let look_slots = deepest(&effects);
        let ghost l = look_slots as int;
        let mut gaps: Vec<u32> = Vec::new();
        gaps.push(OPENING_HAND);
        let mut spans: Vec<(usize, usize)> = Vec::new();
        spans.push((0, 0));
        let mut turn: u32 = 1;
        proof {
            assert((horizon as int) + 8 <= u32::MAX) by (nonlinear_arith)
                requires
                    (horizon as int) * (1 + l) + 8 <= u32::MAX,
                    l >= 0,
            ;
            lemma_built_shape(0, on_the_draw, l);
            assert(gaps@ =~= built_gaps(0, on_the_draw, l));
            assert(spans@ =~= built_spans(0, on_the_draw, l));
        }
        while turn <= horizon
            invariant
                1 <= turn,
                turn <= horizon + 1,
                l == deepest_look(effects@),
                l == look_slots,
                (horizon as int) * (1 + l) + 8 <= u32::MAX,
                (horizon as int) + 8 <= u32::MAX,
                gaps@ == built_gaps(turn - 1, on_the_draw, l),
                spans@ == built_spans(turn - 1, on_the_draw, l),
                gaps@.len() == 1 + (turn - 1) * (1 + l),
            decreases horizon + 1 - turn,
        {
            let first = gaps.len();
            let ghost before = gaps@;
            gaps.push(draw_for(turn, on_the_draw));
            let mut k: u32 = 0;
            proof {
                assert((turn as int) * (1 + l) <= (horizon as int) * (1 + l)) by (nonlinear_arith)
                    requires
                        turn <= horizon,
                        l >= 0,
                ;
                assert(first + 1 + l == 1 + (turn as int) * (1 + l)) by (nonlinear_arith)
                    requires
                        first == 1 + (turn - 1) * (1 + l),
                ;
            }
            while k < look_slots
                invariant
                    k <= look_slots,
                    l == look_slots,
                    first + 1 + l <= u32::MAX,
                    gaps@ =~= before.push(draw_for_spec(turn, on_the_draw)) + Seq::new(
                        k as nat,
                        |i: int| 1u32,
                    ),
                    first == before.len(),
                decreases look_slots - k,
            {
                gaps.push(1);
                k += 1;
            }
            spans.push((first, gaps.len() - 1));
            proof {
                assert((turn as int) * (1 + l) <= (horizon as int) * (1 + l)) by (nonlinear_arith)
                    requires
                        turn <= horizon,
                        l >= 0,
                ;
                lemma_built_shape(turn as int, on_the_draw, l);
                assert(gaps@ =~= built_gaps(turn as int, on_the_draw, l));
                assert(spans@ =~= built_spans(turn as int, on_the_draw, l));
            }
            turn += 1;
        }
        proof {
            lemma_built_shape(horizon as int, on_the_draw, l);
        }
        Schedule { gaps, spans, effects, land_drop }
    }

    /// This run as one class of questions sees it: the same turns, drawing
    /// the same cards, revealed only where that class looks.
    ///
    /// A checkpoint nobody in the class reads draws nothing, and what it would
    /// have revealed is revealed at the next checkpoint that is read, so the
    /// counts at every observed turn are the counts the full schedule produces
    /// there. Draws after the last observed turn are dropped. A cumulative
    /// reading only collapses checkpoints when no effect is live, because
    /// routing reads the order cards came off the top.
    pub fn narrowed(&self, observed: &[usize], reading: Reading) -> (s: Schedule)
        ensures
            s.gaps_of().len() == self.gaps_of().len(),
            s.spans_of() == self.spans_of(),
            s.effects_of() == self.effects_of(),
            s.land_drop_of() == self.land_drop_of(),
            (forall|t: int| 0 <= t < observed@.len() ==> observed@[t] >= self.spans_of().len())
                ==> forall|c: int| 0 <= c < s.gaps_of().len() ==> #[trigger] s.gaps_of()[c] == 0,
            forall|t: int|
                0 <= t < observed@.len() && observed@[t] < self.spans_of().len()
                    ==> #[trigger] seen_by(s.gaps_of(), self.spans_of(), observed@[t]) == seen_by(
                    self.gaps_of(),
                    self.spans_of(),
                    observed@[t],
                ),
            forall|c: int|
                0 <= c < s.gaps_of().len() && (forall|t: int|
                    0 <= t < observed@.len() && observed@[t] < self.spans_of().len() ==> c
                        > self.spans_of()[observed@[t] as int].1) ==> #[trigger] s.gaps_of()[c] == 0,
            reading is PerTurn || self.effects_of().len() > 0 ==> forall|c: int|
                0 <= c < s.gaps_of().len() && (exists|t: int|
                    0 <= t < observed@.len() && observed@[t] < self.spans_of().len() && c
                        <= self.spans_of()[observed@[t] as int].1) ==> #[trigger] s.gaps_of()[c]
                    == self.gaps_of()[c],
            reading is Cumulative && self.effects_of().len() == 0 ==> forall|c: int|
                0 <= c < s.gaps_of().len() && #[trigger] s.gaps_of()[c] != 0 ==> exists|t: int|
                    0 <= t < observed@.len() && observed@[t] < self.spans_of().len()
                        && self.spans_of()[observed@[t] as int].0 == c,
    {
        proof {
            use_type_invariant(self);
        }
        let len = self.gaps.len();
        let turns = self.spans.len();
        let mut gaps: Vec<u32> = Vec::new();
        let mut c: usize = 0;
        while c < len
            invariant
                c <= len,
                gaps@.len() == c,
                forall|k: int| 0 <= k < c ==> #[trigger] gaps@[k] == 0,
            decreases len - c,
        {
            gaps.push(0);
            c += 1;
        }
        let mut last: Option<usize> = None;
        let mut i: usize = 0;
        while i < observed.len()
            invariant
                i <= observed@.len(),
                turns == self.spans@.len(),
                match last {
                    None => forall|k: int| 0 <= k < i ==> observed@[k] >= turns,
                    Some(l) => l < turns && (exists|k: int| 0 <= k < i && observed@[k] == l)
                        && forall|k: int| 0 <= k < i && observed@[k] < turns ==> observed@[k] <= l,
                },
            decreases observed@.len() - i,
        {
            let t = observed[i];
            if t < turns {
                last = match last {
                    None => Some(t),
                    Some(l) => if t > l {
                        Some(t)
                    } else {
                        Some(l)
                    },
                };
            }
            i += 1;
        }
        let ghost old = self.gaps@;
        let ghost spans = self.spans@;
        if let Some(last) = last {
            proof {
                lemma_span_in_range(len as int, spans, last as int);
            }
            let collapse = reading == Reading::Cumulative && self.effects.len() == 0;
            if collapse {
                let mut carried: u32 = 0;
                let mut turn: usize = 0;
                while turn <= last
                    invariant
                        len == old.len(),
                        turns == spans.len(),
                        spans == self.spans@,
                        old == self.gaps@,
                        last < turns,
                        tiles(len as int, spans),
                        drawn_by(old, len as int) <= u32::MAX,
                        turn <= last + 1,
                        gaps@.len() == len,
                        ({
                            let at = if turn == 0 {
                                0
                            } else {
                                spans[turn - 1].1 + 1
                            };
                            &&& drawn_by(gaps@, at) + carried == drawn_by(old, at)
                            &&& forall|k: int| at <= k < len ==> #[trigger] gaps@[k] == 0
                        }),
                        forall|k: int|
                            0 <= k < len && #[trigger] gaps@[k] != 0 ==> exists|t: int|
                                0 <= t < observed@.len() && observed@[t] < turns
                                    && spans[observed@[t] as int].0 == k,
                        forall|t: int|
                            0 <= t < observed@.len() && observed@[t] < turn ==> #[trigger] seen_by(
                                gaps@,
                                spans,
                                observed@[t],
                            ) == seen_by(old, spans, observed@[t]),
                    decreases last + 1 - turn,
                {
                    proof {
                        lemma_span_in_range(len as int, spans, turn as int);
                        if turn > 0 {
                            assert(spans[(turn - 1) + 1].0 == spans[turn - 1].1 + 1);
                        }
                    }
                    let (first, end) = self.spans[turn];
                    let mut k: usize = first;
                    while k <= end
                        invariant
                            first <= k <= end + 1,
                            end < len,
                            len == old.len(),
                            old == self.gaps@,
                            gaps@.len() == len,
                            drawn_by(old, len as int) <= u32::MAX,
                            drawn_by(gaps@, first as int) + carried == drawn_by(old, k as int),
                            forall|j: int| first <= j < len ==> #[trigger] gaps@[j] == 0,
                        decreases end + 1 - k,
                    {
                        proof {
                            lemma_drawn_mono(old, (k + 1) as int, len as int);
                            lemma_drawn_nonneg(gaps@, first as int);
                        }
                        carried = carried + self.gaps[k];
                        k += 1;
                    }
                    proof {
                        lemma_drawn_zero_tail(gaps@, first as int, (end + 1) as int);
                    }
                    if contains_turn(observed, turn) {
                        let ghost before = gaps@;
                        gaps.set(first, carried);
                        proof {
                            lemma_drawn_set_beyond(before, first as int, carried, first as int);
                            lemma_drawn_set_tail(before, first as int, carried, (end + 1) as int);
                            assert forall|t: int|
                                0 <= t < observed@.len() && observed@[t] < turn + 1 implies #[trigger] seen_by(
                                gaps@,
                                spans,
                                observed@[t],
                            ) == seen_by(old, spans, observed@[t]) by {
                                if observed@[t] < turn {
                                    assert(seen_by(before, spans, observed@[t]) == seen_by(
                                        old,
                                        spans,
                                        observed@[t],
                                    ));
                                    lemma_span_in_range(len as int, spans, observed@[t] as int);
                                    lemma_spans_ordered(
                                        len as int,
                                        spans,
                                        observed@[t] as int,
                                        turn as int,
                                    );
                                    lemma_drawn_set_beyond(
                                        before,
                                        first as int,
                                        carried,
                                        spans[observed@[t] as int].1 + 1,
                                    );
                                } else {
                                    assert(observed@[t] == turn);
                                    assert(spans[observed@[t] as int].1 == end);
                                }
                            }
                            let w = choose|t: int| 0 <= t < observed@.len() && observed@[t] == turn;
                            assert forall|j: int|
                                0 <= j < len && #[trigger] gaps@[j] != 0 implies exists|t: int|
                                    0 <= t < observed@.len() && observed@[t] < turns
                                        && spans[observed@[t] as int].0 == j by {
                                if j == first {
                                    assert(observed@[w] < turns && spans[observed@[w] as int].0 == j);
                                } else {
                                    assert(gaps@[j] == before[j]);
                                }
                            }
                        }
                        carried = 0;
                    } else {
                        proof {
                            assert forall|t: int|
                                0 <= t < observed@.len() && observed@[t] < turn + 1 implies #[trigger] seen_by(
                                gaps@,
                                spans,
                                observed@[t],
                            ) == seen_by(old, spans, observed@[t]) by {
                                if observed@[t] == turn {
                                    assert(false);
                                }
                            }
                        }
                    }
                    turn += 1;
                }
                proof {
                    let at = spans[last as int].1 + 1;
                    lemma_span_in_range(len as int, spans, last as int);
                    lemma_drawn_zero_tail(gaps@, at, len as int);
                    lemma_drawn_mono(old, at, len as int);
                    assert forall|c: int|
                        0 <= c < len && (forall|t: int|
                            0 <= t < observed@.len() && observed@[t] < turns ==> c
                                > spans[observed@[t] as int].1) implies #[trigger] gaps@[c] == 0 by {
                        let k = choose|k: int| 0 <= k < observed@.len() && observed@[k] == last;
                        assert(c > spans[observed@[k] as int].1);
                    }
                }
            } else {
                let end = self.spans[last].1;
                let mut k: usize = 0;
                while k <= end
                    invariant
                        k <= end + 1,
                        end < len,
                        len == old.len(),
                        old == self.gaps@,
                        gaps@.len() == len,
                        forall|j: int| 0 <= j < k ==> #[trigger] gaps@[j] == old[j],
                        forall|j: int| k <= j < len ==> #[trigger] gaps@[j] == 0,
                    decreases end + 1 - k,
                {
                    gaps.set(k, self.gaps[k]);
                    k += 1;
                }
                proof {
                    assert forall|t: int|
                        0 <= t < observed@.len() && observed@[t] < turns implies #[trigger] seen_by(
                        gaps@,
                        spans,
                        observed@[t],
                    ) == seen_by(old, spans, observed@[t]) by {
                        lemma_span_in_range(len as int, spans, observed@[t] as int);
                        lemma_spans_ordered(len as int, spans, observed@[t] as int, last as int);
                        lemma_drawn_same(gaps@, old, spans[observed@[t] as int].1 + 1);
                    }
                    lemma_span_in_range(len as int, spans, last as int);
                    lemma_drawn_zero_tail(gaps@, end + 1, len as int);
                    lemma_drawn_same(gaps@, old, end + 1);
                    lemma_drawn_mono(old, end + 1, len as int);
                    assert forall|c: int|
                        0 <= c < len && (exists|t: int|
                            0 <= t < observed@.len() && observed@[t] < turns && c
                                <= spans[observed@[t] as int].1) implies #[trigger] gaps@[c]
                        == old[c] by {
                        let t = choose|t: int|
                            0 <= t < observed@.len() && observed@[t] < turns && c
                                <= spans[observed@[t] as int].1;
                        lemma_span_in_range(len as int, spans, observed@[t] as int);
                        lemma_spans_ordered(len as int, spans, observed@[t] as int, last as int);
                    }
                    assert forall|c: int|
                        0 <= c < len && (forall|t: int|
                            0 <= t < observed@.len() && observed@[t] < turns ==> c
                                > spans[observed@[t] as int].1) implies #[trigger] gaps@[c] == 0 by {
                        let k = choose|k: int| 0 <= k < observed@.len() && observed@[k] == last;
                        assert(c > spans[observed@[k] as int].1);
                    }
                }
            }
        } else {
            proof {
                lemma_drawn_zero_tail(gaps@, 0, len as int);
            }
        }
        Schedule {
            gaps,
            spans: copy_spans(&self.spans),
            effects: copy_effects(&self.effects),
            land_drop: match &self.land_drop {
                Some(p) => Some(p.copy()),
                None => None,
            },
        }
    }

    pub fn gaps(&self) -> (r: &Vec<u32>)
        ensures
            r@ == self.gaps_of(),
            tiles(self.gaps_of().len() as int, self.spans_of()),
            drawn_by(self.gaps_of(), self.gaps_of().len() as int) <= u32::MAX,
    {
        proof {
            use_type_invariant(self);
        }
        &self.gaps
    }

    pub fn effects(&self) -> (r: &Vec<Effect>)
        ensures
            r@ == self.effects_of(),
    {
        &self.effects
    }

    /// The declared priority over the land drop, if this run has one.
    pub fn land_drop(&self) -> (r: Option<&LandDropPolicy>)
        ensures
            match (r, self.land_drop_of()) {
                (Some(p), Some(q)) => p@ == q,
                (None, None) => true,
                _ => false,
            },
    {
        self.land_drop.as_ref()
    }

    /// Turns this run covers, counting turn 0, the opening hand.
    pub fn turns(&self) -> (r: usize)
        ensures
            r == self.spans_of().len(),
            tiles(self.gaps_of().len() as int, self.spans_of()),
            drawn_by(self.gaps_of(), self.gaps_of().len() as int) <= u32::MAX,
    {
        proof {
            use_type_invariant(self);
        }
        self.spans.len()
    }

    /// The first and last checkpoint of `turn`, inclusive.
    pub fn checkpoints_of(&self, turn: usize) -> (r: (usize, usize))
        requires
            turn < self.spans_of().len(),
        ensures
            r == self.spans_of()[turn as int],
            r.0 <= r.1 < self.gaps_of().len(),
    {
        proof {
            use_type_invariant(self);
            lemma_span_in_range(self.gaps@.len() as int, self.spans@, turn as int);
        }
        self.spans[turn]
    }

    /// How many cards `turn` draws into hand before anything else happens.
    pub fn draw_at(&self, turn: usize) -> (r: u32)
        requires
            turn < self.spans_of().len(),
        ensures
            r == self.gaps_of()[self.spans_of()[turn as int].0 as int],
    {
        proof {
            use_type_invariant(self);
            lemma_span_in_range(self.gaps@.len() as int, self.spans@, turn as int);
        }
        self.gaps[self.spans[turn].0]
    }

    /// Whether any live effect can put a card in the graveyard.
    pub fn routes_to_graveyard(&self) -> (r: bool)
        ensures
            r == exists|i: int|
                0 <= i < self.effects_of().len() && !(#[trigger] self.effects_of()[i].route is Nowhere),
    {
        let mut i: usize = 0;
        while i < self.effects.len()
            invariant
                i <= self.effects@.len(),
                forall|j: int| 0 <= j < i ==> (#[trigger] self.effects@[j]).route is Nowhere,
            decreases self.effects@.len() - i,
        {
            if self.effects[i].route.is_live() {
                return true;
            }
            i += 1;
        }
        false
    }
}

fn contains_turn(observed: &[usize], turn: usize) -> (r: bool)
    ensures
        r == exists|t: int| 0 <= t < observed@.len() && observed@[t] == turn,
{
    let mut i: usize = 0;
    while i < observed.len()
        invariant
            i <= observed@.len(),
            forall|t: int| 0 <= t < i ==> observed@[t] != turn,
        decreases observed@.len() - i,
    {
        if observed[i] == turn {
            return true;
        }
        i += 1;
    }
    false
}

fn copy_spans(v: &Vec<(usize, usize)>) -> (r: Vec<(usize, usize)>)
    ensures
        r@ == v@,
{
    let mut out: Vec<(usize, usize)> = Vec::new();
    let mut i: usize = 0;
    while i < v.len()
        invariant
            i <= v@.len(),
            out@ =~= v@.subrange(0, i as int),
        decreases v@.len() - i,
    {
        out.push(v[i]);
        i += 1;
    }
    assert(out@ =~= v@);
    out
}

fn copy_effects(v: &Vec<Effect>) -> (r: Vec<Effect>)
    ensures
        r@ == v@,
{
    let mut out: Vec<Effect> = Vec::new();
    let mut i: usize = 0;
    while i < v.len()
        invariant
            i <= v@.len(),
            out@ =~= v@.subrange(0, i as int),
        decreases v@.len() - i,
    {
        out.push(v[i]);
        i += 1;
    }
    assert(out@ =~= v@);
    out
}

proof fn lemma_drawn_nonneg(g: Seq<u32>, n: int)
    requires
        n <= g.len(),
    ensures
        drawn_by(g, n) >= 0,
    decreases n,
{
    if n > 0 {
        lemma_drawn_nonneg(g, n - 1);
    }
}

proof fn lemma_drawn_mono(g: Seq<u32>, i: int, n: int)
    requires
        0 <= i <= n <= g.len(),
    ensures
        0 <= drawn_by(g, i) <= drawn_by(g, n),
    decreases n - i,
{
    if i < n {
        lemma_drawn_mono(g, i, n - 1);
    } else {
        lemma_drawn_nonneg(g, i);
    }
}

proof fn lemma_drawn_zero_tail(g: Seq<u32>, a: int, b: int)
    requires
        0 <= a <= b <= g.len(),
        forall|j: int| a <= j < g.len() ==> #[trigger] g[j] == 0,
    ensures
        drawn_by(g, b) == drawn_by(g, a),
    decreases b - a,
{
    if a < b {
        lemma_drawn_zero_tail(g, a, b - 1);
    }
}

proof fn lemma_drawn_set_beyond(g: Seq<u32>, k: int, v: u32, n: int)
    requires
        0 <= k < g.len(),
        0 <= n <= k,
    ensures
        drawn_by(g.update(k, v), n) == drawn_by(g, n),
    decreases n,
{
    if n > 0 {
        lemma_drawn_set_beyond(g, k, v, n - 1);
    }
}

proof fn lemma_drawn_set_tail(g: Seq<u32>, k: int, v: u32, n: int)
    requires
        0 <= k < n <= g.len(),
        forall|j: int| k <= j < g.len() ==> #[trigger] g[j] == 0,
    ensures
        drawn_by(g.update(k, v), n) == drawn_by(g, k) + v,
    decreases n,
{
    if n - 1 > k {
        lemma_drawn_set_tail(g, k, v, n - 1);
    } else {
        lemma_drawn_set_beyond(g, k, v, k);
    }
}

proof fn lemma_spans_ordered(len: int, spans: Seq<(usize, usize)>, a: int, b: int)
    requires
        tiles(len, spans),
        0 <= a <= b < spans.len(),
    ensures
        spans[a].1 <= spans[b].1,
        a < b ==> spans[a].1 < spans[b].0,
    decreases b - a,
{
    if a < b {
        lemma_spans_ordered(len, spans, a, b - 1);
        assert(spans[(b - 1) + 1].0 == spans[b - 1].1 + 1);
    }
}

/// Cards drawn on `turn`.
pub open spec fn draw_for_spec(turn: u32, on_the_draw: bool) -> u32 {
    draws_on(turn as int, on_the_draw)
}

fn draw_for(turn: u32, on_the_draw: bool) -> (r: u32)
    ensures
        r == draws_on(turn as int, on_the_draw),
{
    if turn > 0 && (on_the_draw || turn > 1) {
        1
    } else {
        0
    }
}

/// The deepest look among `effects`, or 0.
fn deepest(effects: &Vec<Effect>) -> (r: u32)
    ensures
        r == deepest_look(effects@),
{
    let mut best: u32 = 0;
    let mut i: usize = 0;
    while i < effects.len()
        invariant
            i <= effects@.len(),
            best == deepest_look(effects@.subrange(0, i as int)),
        decreases effects@.len() - i,
    {
        let ghost pre = effects@.subrange(0, i as int);
        assert(effects@.subrange(0, i + 1).drop_last() =~= pre);
        if effects[i].look > best {
            best = effects[i].look;
        }
        i += 1;
    }
    assert(effects@.subrange(0, effects@.len() as int) =~= effects@);
    best
}

pub proof fn lemma_span_in_range(len: int, spans: Seq<(usize, usize)>, t: int)
    requires
        tiles(len, spans),
        0 <= t < spans.len(),
    ensures
        spans[t].0 <= spans[t].1 < len,
    decreases spans.len() - t,
{
    if t < spans.len() - 1 {
        lemma_span_in_range(len, spans, t + 1);
        assert(spans[t + 1].0 == spans[t].1 + 1);
    }
}

proof fn lemma_drawn_concat(a: Seq<u32>, b: Seq<u32>, k: int)
    requires
        0 <= k <= b.len(),
    ensures
        drawn_by(a + b, a.len() + k) == drawn_by(a, a.len() as int) + drawn_by(b, k),
    decreases k,
{
    if k > 0 {
        lemma_drawn_concat(a, b, k - 1);
        assert((a + b)[a.len() + k - 1] == b[k - 1]);
    } else {
        lemma_drawn_same(a + b, a, a.len() as int);
    }
}

proof fn lemma_drawn_same(a: Seq<u32>, b: Seq<u32>, n: int)
    requires
        0 <= n <= a.len(),
        n <= b.len(),
        forall|i: int| 0 <= i < n ==> a[i] == b[i],
    ensures
        drawn_by(a, n) == drawn_by(b, n),
    decreases n,
{
    if n > 0 {
        lemma_drawn_same(a, b, n - 1);
    }
}

proof fn lemma_drawn_ones(l: int, k: int)
    requires
        0 <= k <= l,
    ensures
        drawn_by(Seq::new(l as nat, |i: int| 1u32), k) == k,
    decreases k,
{
    if k > 0 {
        lemma_drawn_ones(l, k - 1);
    }
}

proof fn lemma_built_shape(h: int, d: bool, l: int)
    requires
        h >= 0,
        l >= 0,
        1 + h * (1 + l) <= u32::MAX,
    ensures
        built_gaps(h, d, l).len() == 1 + h * (1 + l),
        built_spans(h, d, l).len() == h + 1,
        tiles(built_gaps(h, d, l).len() as int, built_spans(h, d, l)),
        drawn_by(built_gaps(h, d, l), built_gaps(h, d, l).len() as int) <= 7 + h * (1 + l),
    decreases h,
{
    if h > 0 {
        assert((h - 1) * (1 + l) <= h * (1 + l)) by (nonlinear_arith)
            requires
                h >= 1,
                l >= 0,
        ;
        lemma_built_shape(h - 1, d, l);
        assert(1 + (h - 1) * (1 + l) + 1 + l == 1 + h * (1 + l)) by (nonlinear_arith);
        let prev = built_gaps(h - 1, d, l);
        let pushed = prev.push(draws_on(h, d));
        let ones = Seq::new(l as nat, |i: int| 1u32);
        let ps = built_spans(h - 1, d, l);
        let now = ps.push((prev.len() as usize, (prev.len() + l) as usize));
        assert(built_spans(h, d, l) == now);
        assert forall|t: int| 0 <= t < now.len() implies (#[trigger] now[t]).0 <= now[t].1 by {
            if t < ps.len() {
                assert(now[t] == ps[t]);
            }
        }
        assert forall|t: int| 0 <= t < now.len() - 1 implies #[trigger] now[t + 1].0 == now[t].1
            + 1 by {
            if t + 1 < ps.len() {
                assert(now[t + 1] == ps[t + 1] && now[t] == ps[t]);
            } else {
                assert(now[t] == ps[ps.len() - 1]);
            }
        }
        assert(built_gaps(h, d, l) == pushed + ones);
        assert((pushed + ones).len() == prev.len() + 1 + l);
        lemma_drawn_concat(pushed, ones, l);
        lemma_drawn_ones(l, l);
        assert(7 + (h - 1) * (1 + l) + 1 + l == 7 + h * (1 + l)) by (nonlinear_arith);
        assert(drawn_by(pushed, pushed.len() as int) == drawn_by(prev, prev.len() as int) + draws_on(
            h,
            d,
        )) by {
            lemma_drawn_same(pushed, prev, prev.len() as int);
        }
    } else {
        assert(h * (1 + l) == 0) by (nonlinear_arith)
            requires
                h == 0,
        ;
        assert(drawn_by(built_gaps(h, d, l), 1) == drawn_by(built_gaps(h, d, l), 0) + 7);
    }
}

} // verus!

//! One enumeration per class of question, rather than one for the whole file.
//!
//! Questions that read the same things are one class, each class gets the
//! cheapest enumeration that can answer it, and the answers are stitched back
//! together by position. What a class keeps is what its own clauses read plus
//! the grouping bits the walk itself reads: which cards a live effect applies
//! to and where it sends them, which spells a casting priority names, and
//! which land the declared priority plays.

use vstd::prelude::*;
use crate::grouping::Grouping;
use crate::mana::Palette;
use crate::schedule::{Reading, Schedule, seen_by};

verus! {

/// What the live effects make every class read.
#[derive(Debug, Clone, Copy, PartialEq, Eq, Structural)]
pub struct Effects {
    /// Which cards each live effect applies to, where it routes them, and what
    /// it would go and fetch.
    pub queries: u64,
    /// Whether any of them fires on the land drop.
    pub on_the_drop: bool,
}

/// What a declared casting priority makes every class read.
#[derive(Debug, Clone, Copy, PartialEq, Eq, Structural)]
pub struct Casting {
    /// The priority's own queries, which decide which spells are cast and in
    /// what order.
    pub queries: u64,
    /// The pip kinds every cost in the declared line demands, joined.
    pub demands: Palette,
}

/// Grouping bits the walk itself reads, whatever any criterion asks about.
#[derive(Debug, Clone, Copy, PartialEq, Eq, Structural)]
pub struct Shared {
    /// `None` when nothing in this run moves a card at all.
    pub effects: Option<Effects>,
    /// The declared land-drop priority's bits, `None` when the file declared
    /// none.
    pub land_drop: Option<u64>,
    /// The declared casting priority, `None` when the file declared none.
    pub casting: Option<Casting>,
}

/// Whether anything but the cost gets to choose which land was played: a
/// declared land-drop priority, or an effect that fires on the drop.
pub open spec fn picks_a_land_spec(shared: Shared) -> bool {
    shared.land_drop is Some || (shared.effects matches Some(e) && e.on_the_drop)
}

impl Shared {
    fn picks_a_land(&self) -> (r: bool)
        ensures
            r == picks_a_land_spec(*self),
    {
        self.land_drop.is_some() || match self.effects {
            Some(e) => e.on_the_drop,
            None => false,
        }
    }
}

/// How much of what a land makes a class can tell apart.
#[derive(Debug, Clone, Copy, PartialEq, Eq, Structural)]
pub enum LandDetail {
    /// Nothing here asks whether a cost could have been paid.
    Ignored,
    /// Only these pip kinds.
    Pips(Palette),
}

/// What one question reads.
#[derive(Debug, Clone)]
pub struct Reads {
    /// The grouping bits of the queries its clauses name.
    pub queries: u64,
    /// The pip kinds its costs demand, joined; `None` when it asks about no
    /// cost.
    pub demands: Option<Palette>,
    /// Whether it asks about the battlefield.
    pub battlefield: bool,
    /// The turns it names.
    pub turns: Vec<usize>,
}

/// What every question of a file reads, in the file's order.
#[derive(Debug, Clone)]
pub struct QuestionReads {
    pub criteria: Vec<Reads>,
    pub expectations: Vec<Reads>,
}

/// What one question needs of an enumeration.
pub struct NeedView {
    pub keep: u64,
    pub mana: LandDetail,
    pub reading: Reading,
    pub turns: Seq<usize>,
}

/// The largest of the first `n` turns.
pub open spec fn max_of(s: Seq<usize>, n: int) -> usize
    decreases n,
{
    if n <= 1 {
        s[0]
    } else {
        let m = max_of(s, n - 1);
        if s[n - 1] > m {
            s[n - 1]
        } else {
            m
        }
    }
}

/// Whether a question reads history rather than a total: anything about a
/// cost or the battlefield, and anything at all beside a casting priority.
pub open spec fn reads_history(r: Reads, shared: Shared) -> bool {
    r.demands is Some || r.battlefield || shared.casting is Some
}

/// What one question needs, once the walk's own bits are in.
///
/// It keeps its own queries, those of every live effect and of the casting
/// priority, and the land-drop priority's where something reads the drops
/// or an effect fires off the land chosen. A cost keeps only the pips it and
/// the casting line demand, unless something else picks the land, and then
/// every pip. History is read per turn up to the last turn named; a total
/// only at the turns named.
pub open spec fn need_of(r: Reads, shared: Shared) -> NeedView {
    let history = reads_history(r, shared);
    let own = r.queries | (match shared.effects {
        Some(e) => e.queries,
        None => 0u64,
    }) | (match shared.casting {
        Some(c) => c.queries,
        None => 0u64,
    });
    let keep = if history || (shared.effects matches Some(e) && e.on_the_drop) {
        own | match shared.land_drop {
            Some(l) => l,
            None => 0u64,
        }
    } else {
        own
    };
    let demanded: Option<u8> = match (r.demands, shared.casting) {
        (None, None) => None,
        (clause, line) => Some(
            (match clause {
                Some(p) => p.0,
                None => 0u8,
            }) | (match line {
                Some(c) => c.demands.0,
                None => 0u8,
            }),
        ),
    };
    NeedView {
        keep,
        mana: match demanded {
            None => LandDetail::Ignored,
            Some(d) => if picks_a_land_spec(shared) {
                LandDetail::Pips(Palette(63))
            } else {
                LandDetail::Pips(Palette(d))
            },
        },
        reading: if history {
            Reading::PerTurn
        } else {
            Reading::Cumulative
        },
        turns: if history {
            if r.turns@.len() == 0 {
                Seq::empty()
            } else {
                seq![max_of(r.turns@, r.turns@.len() as int)]
            }
        } else {
            r.turns@
        },
    }
}

/// The needs of a list of questions, in order.
pub open spec fn needs_of(rs: Seq<Reads>, shared: Shared) -> Seq<NeedView> {
    rs.map_values(|r: Reads| need_of(r, shared))
}

/// The distinct values among the first `n` of `s`, each where it first
/// appears.
pub open spec fn firsts(s: Seq<NeedView>, n: int) -> Seq<NeedView>
    decreases n,
{
    if n <= 0 {
        Seq::empty()
    } else {
        let before = firsts(s, n - 1);
        if before.contains(s[n - 1]) {
            before
        } else {
            before.push(s[n - 1])
        }
    }
}

/// The positions among the first `n` of `s` that hold `x`, in order.
pub open spec fn positions(s: Seq<NeedView>, x: NeedView, n: int) -> Seq<usize>
    decreases n,
{
    if n <= 0 {
        Seq::empty()
    } else if s[n - 1] == x {
        positions(s, x, n - 1).push((n - 1) as usize)
    } else {
        positions(s, x, n - 1)
    }
}

/// One class of questions and the enumeration that answers it.
#[derive(Debug, Clone)]
pub struct Class {
    keep: u64,
    mana: LandDetail,
    reading: Reading,
    turns: Vec<usize>,
    criteria: Vec<usize>,
    expectations: Vec<usize>,
}

impl Class {
    /// What this class needs of its enumeration.
    pub closed spec fn need(self) -> NeedView {
        NeedView { keep: self.keep, mana: self.mana, reading: self.reading, turns: self.turns@ }
    }

    /// Which criteria, by position in the file, this class answers.
    pub closed spec fn criteria_of(self) -> Seq<usize> {
        self.criteria@
    }

    /// Which expectations, by position in the file, this class answers.
    pub closed spec fn expectations_of(self) -> Seq<usize> {
        self.expectations@
    }

    /// The shortest schedule that still answers it.
    ///
    /// It has the full schedule's turns, spans, effects and land drop, and
    /// at every turn this class reads it has revealed exactly as many cards
    /// as the full schedule has.
    pub fn schedule(&self, full: &Schedule) -> (s: Schedule)
        ensures
            s.gaps_of().len() == full.gaps_of().len(),
            s.spans_of() == full.spans_of(),
            s.effects_of() == full.effects_of(),
            s.land_drop_of() == full.land_drop_of(),
            (forall|t: int|
                0 <= t < self.need().turns.len() ==> self.need().turns[t] >= full.spans_of().len())
                ==> forall|c: int| 0 <= c < s.gaps_of().len() ==> #[trigger] s.gaps_of()[c] == 0,
            forall|t: int|
                0 <= t < self.need().turns.len() && self.need().turns[t] < full.spans_of().len()
                    ==> #[trigger] seen_by(s.gaps_of(), full.spans_of(), self.need().turns[t])
                    == seen_by(full.gaps_of(), full.spans_of(), self.need().turns[t]),
            forall|c: int|
                0 <= c < s.gaps_of().len() && (forall|t: int|
                    0 <= t < self.need().turns.len() && self.need().turns[t] < full.spans_of().len()
                        ==> c > full.spans_of()[self.need().turns[t] as int].1)
                    ==> #[trigger] s.gaps_of()[c] == 0,
            self.need().reading is PerTurn || full.effects_of().len() > 0 ==> forall|c: int|
                0 <= c < s.gaps_of().len() && (exists|t: int|
                    0 <= t < self.need().turns.len() && self.need().turns[t] < full.spans_of().len()
                        && c <= full.spans_of()[self.need().turns[t] as int].1)
                    ==> #[trigger] s.gaps_of()[c] == full.gaps_of()[c],
            self.need().reading is Cumulative && full.effects_of().len() == 0 ==> forall|c: int|
                0 <= c < s.gaps_of().len() && #[trigger] s.gaps_of()[c] != 0 ==> exists|t: int|
                    0 <= t < self.need().turns.len() && self.need().turns[t] < full.spans_of().len()
                        && full.spans_of()[self.need().turns[t] as int].0 == c,
    {
        let observed = self.turns.as_slice();
        proof {
            assert(observed@ == self.need().turns);
        }
        full.narrowed(observed, self.reading)
    }

    /// The queries this class can tell apart, by name, in grouping order.
    pub fn queries(&self, full: &Grouping) -> (r: Vec<String>)
        ensures
            r@ == kept_names(full.queries_of(), self.need().keep, full.queries_of().len() as int),
    {
        let names = full.queries();
        let mut out: Vec<String> = Vec::new();
        let mut i: usize = 0;
        while i < names.len()
            invariant
                i <= names@.len(),
                names@ == full.queries_of(),
                out@ == kept_names(names@, self.keep, i as int),
            decreases names@.len() - i,
        {
            if i < 64 && self.keep & (1u64 << i as u64) != 0 {
                out.push(names[i].clone());
            }
            i += 1;
        }
        out
    }

    /// The grouping bits this class can tell apart; everything else merges.
    pub fn keep(&self) -> (r: u64)
        ensures
            r == self.need().keep,
    {
        self.keep
    }

    /// The pip kinds this class can tell lands apart by: `None` where
    /// nothing here prices mana.
    pub fn pips(&self) -> (r: Option<Palette>)
        ensures
            r == match self.need().mana {
                LandDetail::Ignored => None,
                LandDetail::Pips(p) => Some(p),
            },
    {
        match self.mana {
            LandDetail::Ignored => None,
            LandDetail::Pips(palette) => Some(palette),
        }
    }

    /// The turns whose counts this class reads.
    pub fn turns(&self) -> (r: &[usize])
        ensures
            r@ == self.need().turns,
    {
        self.turns.as_slice()
    }

    /// How it reads them.
    pub fn reading(&self) -> (r: Reading)
        ensures
            r == self.need().reading,
    {
        self.reading
    }

    /// The criteria it answers, by position in the file.
    pub fn criteria(&self) -> (r: &[usize])
        ensures
            r@ == self.criteria_of(),
    {
        self.criteria.as_slice()
    }

    /// The expectations it answers, by position in the file.
    pub fn expectations(&self) -> (r: &[usize])
        ensures
            r@ == self.expectations_of(),
    {
        self.expectations.as_slice()
    }
}

/// How many of the first `n` queries a mask keeps.
pub open spec fn kept_names(names: Seq<String>, keep: u64, n: int) -> Seq<String>
    decreases n,
{
    if n <= 0 {
        Seq::empty()
    } else if n - 1 < 64 && keep & (1u64 << (n - 1) as u64) != 0 {
        kept_names(names, keep, n - 1).push(names[n - 1])
    } else {
        kept_names(names, keep, n - 1)
    }
}

fn max_turn(turns: &Vec<usize>) -> (m: usize)
    requires
        turns@.len() > 0,
    ensures
        m == max_of(turns@, turns@.len() as int),
{
    let mut m = turns[0];
    let mut i: usize = 1;
    while i < turns.len()
        invariant
            1 <= i <= turns@.len(),
            m == max_of(turns@, i as int),
        decreases turns@.len() - i,
    {
        if turns[i] > m {
            m = turns[i];
        }
        i += 1;
    }
    m
}

/// What one question needs, as [`need_of`] says.
fn need(r: &Reads, shared: &Shared) -> (n: (u64, LandDetail, Reading, Vec<usize>))
    ensures
        need_of(*r, *shared) == (NeedView { keep: n.0, mana: n.1, reading: n.2, turns: n.3@ }),
{
    let history = r.demands.is_some() || r.battlefield || shared.casting.is_some();
    let own = r.queries | (match shared.effects {
        Some(e) => e.queries,
        None => 0u64,
    }) | (match shared.casting {
        Some(c) => c.queries,
        None => 0u64,
    });
    let on_the_drop = match shared.effects {
        Some(e) => e.on_the_drop,
        None => false,
    };
    let keep = if history || on_the_drop {
        own | match shared.land_drop {
            Some(l) => l,
            None => 0u64,
        }
    } else {
        own
    };
    let demanded: Option<u8> = match (r.demands, shared.casting) {
        (None, None) => None,
        (clause, line) => Some(
            (match clause {
                Some(p) => p.0,
                None => 0u8,
            }) | (match line {
                Some(c) => c.demands.0,
                None => 0u8,
            }),
        ),
    };
    let mana = match demanded {
        None => LandDetail::Ignored,
        Some(d) => if shared.picks_a_land() {
            LandDetail::Pips(Palette(63))
        } else {
            LandDetail::Pips(Palette(d))
        },
    };
    let reading = if history {
        Reading::PerTurn
    } else {
        Reading::Cumulative
    };
    let turns = if history {
        if r.turns.len() == 0 {
            Vec::new()
        } else {
            let mut v = Vec::new();
            v.push(max_turn(&r.turns));
            v
        }
    } else {
        r.turns.clone()
    };
    proof {
        if history && r.turns@.len() > 0 {
            assert(turns@ =~= seq![max_of(r.turns@, r.turns@.len() as int)]);
        }
        if history && r.turns@.len() == 0 {
            assert(turns@ =~= Seq::<usize>::empty());
        }
        if !history {
            assert(turns@ =~= r.turns@);
        }
    }
    (keep, mana, reading, turns)
}

fn same_turns(a: &Vec<usize>, b: &Vec<usize>) -> (r: bool)
    ensures
        r == (a@ == b@),
{
    if a.len() != b.len() {
        return false;
    }
    let mut i: usize = 0;
    while i < a.len()
        invariant
            i <= a@.len() == b@.len(),
            forall|k: int| 0 <= k < i ==> a@[k] == b@[k],
        decreases a@.len() - i,
    {
        if a[i] != b[i] {
            return false;
        }
        i += 1;
    }
    proof {
        assert(a@ =~= b@);
    }
    true
}

proof fn lemma_firsts_contains(s: Seq<NeedView>, n: int, x: NeedView)
    requires
        0 <= n <= s.len(),
    ensures
        firsts(s, n).contains(x) <==> exists|i: int| 0 <= i < n && s[i] == x,
        forall|a: int, b: int|
            0 <= a < b < firsts(s, n).len() ==> firsts(s, n)[a] != firsts(s, n)[b],
    decreases n,
{
    if n > 0 {
        lemma_firsts_contains(s, n - 1, x);
        let before = firsts(s, n - 1);
        if !before.contains(s[n - 1]) {
            assert(before.push(s[n - 1]).contains(s[n - 1]) ==> true);
            if before.push(s[n - 1]).contains(x) {
                let pushed = before.push(s[n - 1]);
                let k = choose|k: int| 0 <= k < pushed.len() && #[trigger] pushed[k] == x;
                if k < before.len() {
                    assert(before[k] == x);
                }
            }
            if exists|i: int| 0 <= i < n && s[i] == x {
                let i = choose|i: int| 0 <= i < n && s[i] == x;
                if i == n - 1 {
                    assert(before.push(s[n - 1])[before.len() as int] == x);
                } else {
                    assert(before.contains(x));
                    let k = choose|k: int| 0 <= k < before.len() && before[k] == x;
                    assert(before.push(s[n - 1])[k] == x);
                }
            }
        } else {
            if exists|i: int| 0 <= i < n && s[i] == x {
                let i = choose|i: int| 0 <= i < n && s[i] == x;
                if i == n - 1 {
                    assert(before.contains(x));
                }
            }
        }
    }
}

proof fn lemma_positions_none(s: Seq<NeedView>, x: NeedView, n: int)
    requires
        0 <= n <= s.len(),
        forall|i: int| 0 <= i < n ==> s[i] != x,
    ensures
        positions(s, x, n) == Seq::<usize>::empty(),
    decreases n,
{
    if n > 0 {
        lemma_positions_none(s, x, n - 1);
    }
}

/// The classes so far are the distinct needs of the criteria read so far
/// and then of the expectations read so far, each where it first appears,
/// and each lists exactly the questions that need it.
pub open spec fn placed(
    classes: Seq<Class>,
    crit: Seq<NeedView>,
    ci: int,
    exps: Seq<NeedView>,
    ei: int,
) -> bool {
    &&& classes.map_values(|c: Class| c.need()) == firsts(crit + exps.take(ei), ci + ei)
    &&& forall|k: int|
        0 <= k < classes.len() ==> (#[trigger] classes[k]).criteria_of() == positions(
            crit,
            classes[k].need(),
            ci,
        ) && classes[k].expectations_of() == positions(exps, classes[k].need(), ei)
}

/// Partitions a file's questions into classes that can each be answered on
/// their own.
///
/// Questions land together exactly when they need the same enumeration: the
/// classes are the distinct needs of the criteria and then the expectations,
/// in the order they first appear, and each class lists, in order, exactly
/// the criteria and the expectations that need what it does.
pub fn partition(reads: &QuestionReads, shared: &Shared) -> (classes: Vec<Class>)
    ensures
        placed(
            classes@,
            needs_of(reads.criteria@, *shared),
            reads.criteria@.len() as int,
            needs_of(reads.expectations@, *shared),
            reads.expectations@.len() as int,
        ),
{
    let ghost crit = needs_of(reads.criteria@, *shared);
    let ghost exps = needs_of(reads.expectations@, *shared);
    let mut classes: Vec<Class> = Vec::new();
    proof {
        assert(classes@.map_values(|c: Class| c.need()) =~= firsts(crit + exps.take(0), 0));
    }
    let mut i: usize = 0;
    while i < reads.criteria.len()
        invariant
            i <= reads.criteria@.len(),
            crit == needs_of(reads.criteria@, *shared),
            exps == needs_of(reads.expectations@, *shared),
            placed(classes@, crit, i as int, exps, 0),
        decreases reads.criteria@.len() - i,
    {
        let (keep, mana, reading, turns) = need(&reads.criteria[i], shared);
        let ghost nv = NeedView { keep, mana, reading, turns: turns@ };
        proof {
            assert(crit[i as int] == nv);
            assert(crit.take(i + 1) =~= crit.take(i as int).push(nv));
        }
        place(&mut classes, keep, mana, reading, turns, true, i, Ghost(crit), Ghost(i as int), Ghost(exps), Ghost(0));
        i += 1;
    }
    let mut j: usize = 0;
    while j < reads.expectations.len()
        invariant
            j <= reads.expectations@.len(),
            i == reads.criteria@.len(),
            crit == needs_of(reads.criteria@, *shared),
            exps == needs_of(reads.expectations@, *shared),
            placed(classes@, crit, i as int, exps, j as int),
        decreases reads.expectations@.len() - j,
    {
        let (keep, mana, reading, turns) = need(&reads.expectations[j], shared);
        let ghost nv = NeedView { keep, mana, reading, turns: turns@ };
        proof {
            assert(exps[j as int] == nv);
        }
        place(&mut classes, keep, mana, reading, turns, false, j, Ghost(crit), Ghost(i as int), Ghost(exps), Ghost(j as int));
        j += 1;
    }
    proof {
        assert(exps.take(exps.len() as int) =~= exps);
    }
    classes
}

/// Files question `q` (a criterion if `criterion`, else an expectation) in
/// the class that needs what it does, opening one at the end if none does.
fn place(
    classes: &mut Vec<Class>,
    keep: u64,
    mana: LandDetail,
    reading: Reading,
    turns: Vec<usize>,
    criterion: bool,
    q: usize,
    Ghost(crit): Ghost<Seq<NeedView>>,
    Ghost(ci): Ghost<int>,
    Ghost(exps): Ghost<Seq<NeedView>>,
    Ghost(ei): Ghost<int>,
)
    requires
        0 <= ci <= crit.len(),
        0 <= ei <= exps.len(),
        criterion ==> ei == 0 && ci < crit.len() && q == ci && crit[ci] == (NeedView {
            keep,
            mana,
            reading,
            turns: turns@,
        }),
        !criterion ==> ci == crit.len() && ei < exps.len() && q == ei && exps[ei] == (NeedView {
            keep,
            mana,
            reading,
            turns: turns@,
        }),
        placed(old(classes)@, crit, ci, exps, ei),
    ensures
        criterion ==> placed(final(classes)@, crit, ci + 1, exps, ei),
        !criterion ==> placed(final(classes)@, crit, ci, exps, ei + 1),
{
    let ghost nv = NeedView { keep, mana, reading, turns: turns@ };
    let ghost all = crit + exps.take(ei);
    let ghost n = ci + ei;
    let ghost next_all = if criterion {
        crit + exps.take(ei)
    } else {
        crit + exps.take(ei + 1)
    };
    proof {
        assert(all.len() >= n);
        assert(next_all.len() >= n + 1);
        assert forall|k: int| 0 <= k < n implies next_all[k] == all[k] by {}
        assert(next_all[n] == nv);
        lemma_firsts_same(all, next_all, n);
        lemma_firsts_contains(all, n, nv);
    }
    let mut slot: usize = 0;
    let mut found = false;
    while slot < classes.len() && !found
        invariant
            slot <= classes@.len(),
            nv == (NeedView { keep, mana, reading, turns: turns@ }),
            found ==> slot < classes@.len() && classes@[slot as int].need() == nv,
            forall|k: int| 0 <= k < slot && !(found && k == slot) ==> (#[trigger] classes@[k]).need() != nv,
        decreases classes@.len() - slot, if found { 0int } else { 1int },
    {
        let c = &classes[slot];
        if c.keep == keep && c.mana == mana && c.reading == reading && same_turns(&c.turns, &turns) {
            found = true;
        } else {
            slot += 1;
        }
    }
    let ghost before = classes@;
    proof {
        assert(before.map_values(|c: Class| c.need()) == firsts(all, n));
        lemma_firsts_contains(all, n, nv);
    }
    if found {
        proof {
            assert(before.map_values(|c: Class| c.need())[slot as int] == nv);
            assert(firsts(all, n).contains(nv));
        }
        if criterion {
            classes[slot].criteria.push(q);
        } else {
            classes[slot].expectations.push(q);
        }
        proof {
            assert(firsts(next_all, n + 1) == firsts(next_all, n));
            assert(classes@.map_values(|c: Class| c.need()) =~= before.map_values(|c: Class| c.need()));
            assert forall|k: int| 0 <= k < classes@.len() implies (#[trigger] classes@[k]).criteria_of()
                == positions(crit, classes@[k].need(), if criterion { ci + 1 } else { ci })
                && classes@[k].expectations_of() == positions(
                exps,
                classes@[k].need(),
                if criterion { ei } else { ei + 1 },
            ) by {
                if k != slot {
                    assert(before.map_values(|c: Class| c.need())[k] != before.map_values(
                        |c: Class| c.need(),
                    )[slot as int]);
                    assert(classes@[k] == before[k]);
                }
            }
        }
    } else {
        proof {
            assert(!firsts(all, n).contains(nv)) by {
                if firsts(all, n).contains(nv) {
                    let k = choose|k: int| 0 <= k < firsts(all, n).len() && firsts(all, n)[k] == nv;
                    assert(before.map_values(|c: Class| c.need())[k] == nv);
                    assert(before[k].need() != nv);
                }
            }
            assert forall|x: int| 0 <= x < ci implies crit[x] != nv by {
                assert(all[x] == crit[x]);
            }
            assert forall|x: int| 0 <= x < ei implies exps[x] != nv by {
                assert(all[ci + x] == exps[x]);
            }
            lemma_positions_none(crit, nv, ci);
            lemma_positions_none(exps, nv, ei);
        }
        let mut criteria: Vec<usize> = Vec::new();
        let mut expectations: Vec<usize> = Vec::new();
        if criterion {
            criteria.push(q);
        } else {
            expectations.push(q);
        }
        classes.push(Class { keep, mana, reading, turns, criteria, expectations });
        proof {
            assert(firsts(next_all, n + 1) == firsts(next_all, n).push(nv));
            assert(classes@.map_values(|c: Class| c.need()) =~= before.map_values(|c: Class| c.need()).push(nv));
            let last = classes@.len() - 1;
            assert(classes@[last].need() == nv);
            assert(classes@[last].criteria_of() =~= positions(
                crit,
                nv,
                if criterion { ci + 1 } else { ci },
            ));
            assert(classes@[last].expectations_of() =~= positions(
                exps,
                nv,
                if criterion { ei } else { ei + 1 },
            ));
            assert forall|k: int| 0 <= k < classes@.len() implies (#[trigger] classes@[k]).criteria_of()
                == positions(crit, classes@[k].need(), if criterion { ci + 1 } else { ci })
                && classes@[k].expectations_of() == positions(
                exps,
                classes@[k].need(),
                if criterion { ei } else { ei + 1 },
            ) by {
                if k < last {
                    assert(classes@[k] == before[k]);
                    assert(before.map_values(|c: Class| c.need())[k] != nv);
                }
            }
        }
    }
}

proof fn lemma_firsts_same(a: Seq<NeedView>, b: Seq<NeedView>, n: int)
    requires
        0 <= n <= a.len(),
        n <= b.len(),
        forall|k: int| 0 <= k < n ==> a[k] == b[k],
    ensures
        firsts(a, n) == firsts(b, n),
    decreases n,
{
    if n > 0 {
        lemma_firsts_same(a, b, n - 1);
    }
}


proof fn lemma_positions_contains(s: Seq<NeedView>, x: NeedView, n: int, i: int)
    requires
        0 <= n <= s.len(),
        n <= usize::MAX,
        0 <= i <= usize::MAX,
    ensures
        positions(s, x, n).contains(i as usize) <==> (i < n && s[i] == x),
    decreases n,
{
    if n > 0 {
        lemma_positions_contains(s, x, n - 1, i);
        let before = positions(s, x, n - 1);
        if s[n - 1] == x {
            let after = before.push((n - 1) as usize);
            if after.contains(i as usize) {
                let k = choose|k: int| 0 <= k < after.len() && #[trigger] after[k] == i as usize;
                if k < before.len() {
                    assert(before[k] == i as usize);
                }
            }
            if i < n - 1 && s[i] == x {
                let k = choose|k: int| 0 <= k < before.len() && #[trigger] before[k] == i as usize;
                assert(after[k] == i as usize);
            }
            if i == n - 1 {
                assert(after[before.len() as int] == i as usize);
            }
        }
    }
}

/// Every criterion lands in exactly one class, the one that needs what it
/// does, and likewise every expectation; no two classes need the same
/// enumeration.
pub proof fn partition_places_each_question_once(
    classes: Seq<Class>,
    crit: Seq<NeedView>,
    exps: Seq<NeedView>,
)
    requires
        crit.len() <= usize::MAX,
        exps.len() <= usize::MAX,
        placed(classes, crit, crit.len() as int, exps, exps.len() as int),
    ensures
        forall|a: int, b: int|
            0 <= a < b < classes.len() ==> classes[a].need() != classes[b].need(),
        forall|i: int|
            #![trigger crit[i]]
            0 <= i < crit.len() ==> exists|k: int|
                0 <= k < classes.len() && classes[k].need() == crit[i] && (
                #[trigger] classes[k].criteria_of()).contains(i as usize),
        forall|i: int, k: int|
            0 <= i < crit.len() && 0 <= k < classes.len() && #[trigger] classes[k].criteria_of().contains(
                i as usize,
            ) ==> classes[k].need()
                == crit[i],
        forall|i: int|
            #![trigger exps[i]]
            0 <= i < exps.len() ==> exists|k: int|
                0 <= k < classes.len() && classes[k].need() == exps[i] && (
                #[trigger] classes[k].expectations_of()).contains(i as usize),
        forall|i: int, k: int|
            0 <= i < exps.len() && 0 <= k < classes.len() && #[trigger] classes[k].expectations_of().contains(
                i as usize,
            ) ==> classes[k].need()
                == exps[i],
{
    let all = crit + exps.take(exps.len() as int);
    let n = (crit.len() + exps.len()) as int;
    let needs = classes.map_values(|c: Class| c.need());
    assert(exps.take(exps.len() as int) =~= exps);
    lemma_firsts_contains(all, n, crit[0]);
    assert forall|a: int, b: int| 0 <= a < b < classes.len() implies classes[a].need()
        != classes[b].need() by {
        assert(needs[a] == classes[a].need());
        assert(needs[b] == classes[b].need());
    }
    assert forall|i: int| #![trigger crit[i]] 0 <= i < crit.len() implies exists|k: int|
        0 <= k < classes.len() && classes[k].need() == crit[i] && (
        #[trigger] classes[k].criteria_of()).contains(i as usize) by {
        lemma_firsts_contains(all, n, crit[i]);
        assert(all[i] == crit[i]);
        let k = choose|k: int| 0 <= k < needs.len() && needs[k] == crit[i];
        assert(classes[k].need() == crit[i]);
        lemma_positions_contains(crit, crit[i], crit.len() as int, i);
    }
    assert forall|i: int, k: int|
        0 <= i < crit.len() && 0 <= k < classes.len() && #[trigger] classes[k].criteria_of().contains(
            i as usize,
        ) implies classes[k].need()
        == crit[i] by {
        lemma_positions_contains(crit, classes[k].need(), crit.len() as int, i);
    }
    assert forall|i: int| #![trigger exps[i]] 0 <= i < exps.len() implies exists|k: int|
        0 <= k < classes.len() && classes[k].need() == exps[i] && (
        #[trigger] classes[k].expectations_of()).contains(i as usize) by {
        lemma_firsts_contains(all, n, exps[i]);
        assert(all[crit.len() + i] == exps[i]);
        let k = choose|k: int| 0 <= k < needs.len() && needs[k] == exps[i];
        assert(classes[k].need() == exps[i]);
        lemma_positions_contains(exps, exps[i], exps.len() as int, i);
    }
    assert forall|i: int, k: int|
        0 <= i < exps.len() && 0 <= k < classes.len() && #[trigger] classes[k].expectations_of().contains(
            i as usize,
        ) implies classes[k].need()
        == exps[i] by {
        lemma_positions_contains(exps, classes[k].need(), exps.len() as int, i);
    }
}

} // verus!

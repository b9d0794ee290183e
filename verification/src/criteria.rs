//! Criteria files, once decoded: checking them and compiling them into
//! questions the engine can answer.
//!
//! A criteria file is data. Each question is a turn, a query and a range of
//! counts, so the whole query set and the whole turn horizon are known before
//! the engine starts. Decoding the TOML happens before this module sees the
//! file; what is here is every rule about what the decoded tables must say,
//! and the first table that breaks one is the one the error names.

use vstd::prelude::*;
use crate::effect::{Trigger, trigger_kind};
use crate::engine::{Count, Evaluator, Expectation, NotACount, PathOutcomes, PathView, Plan, MAX_COUNT};
use crate::text::{chars_of, decimal_spec, decimal_wide, push_chars, push_str, str_eq, string_of};
use crate::query::{debug_quoted, debug_text};
use crate::zone::{Zone, ZoneError, parse_zone};

verus! {

/// The deepest look an effect may declare: a bound on the work.
pub const MAX_LOOK: u32 = 10;

/// The deepest turn a criteria file may name: a bound on the work.
pub const MAX_TURN: u32 = 100;

/// What a criteria file spells `to_graveyard = "*"`.
pub const EVERYTHING: &'static str = "*";

/// One `[[effect]]` table as written.
#[derive(Debug, Clone)]
pub struct EffectSpec {
    pub matches: Option<String>,
    pub look: Option<i64>,
    pub on: Option<String>,
    pub to_graveyard: Option<String>,
}

/// One clause of a `require` as written.
#[derive(Debug, Clone)]
pub struct ClauseSpec {
    pub turn: Option<i64>,
    pub query: Option<String>,
    pub zone: Option<String>,
    pub min: Option<i64>,
    pub max: Option<i64>,
}

/// One `[[criterion.any_of]]` branch as written.
#[derive(Debug, Clone)]
pub struct BranchSpec {
    pub require: Vec<ClauseSpec>,
}

/// One `[[criterion]]` table as written. `threshold_ok` says whether its
/// `at_least` is absent or a probability, which is all this module needs to
/// know about it.
#[derive(Debug, Clone)]
pub struct CriterionSpec {
    pub name: Option<String>,
    pub threshold_ok: bool,
    pub require: Vec<ClauseSpec>,
    pub any_of: Option<Vec<BranchSpec>>,
}

/// One `[[expect]]` table as written.
#[derive(Debug, Clone)]
pub struct ExpectSpec {
    pub name: Option<String>,
    pub turn: Option<i64>,
    pub query: Option<String>,
    pub zone: Option<String>,
}

/// A whole criteria file as written.
#[derive(Debug, Clone)]
pub struct FileSpec {
    pub criterion: Vec<CriterionSpec>,
    pub expect: Vec<ExpectSpec>,
    pub effect: Vec<EffectSpec>,
}

/// Which table a problem is in, by position.
#[derive(Debug, Clone, Copy, PartialEq, Eq, Structural)]
pub enum Place {
    /// The `[[effect]]` at this index.
    Effect(usize),
    /// A `require` clause of a criterion.
    Clause { criterion: usize, clause: usize },
    /// A clause of one `any_of` branch of a criterion.
    BranchClause { criterion: usize, branch: usize, clause: usize },
    /// The `[[expect]]` at this index.
    Expectation(usize),
}

/// Which kind of table.
#[derive(Debug, Clone, Copy, PartialEq, Eq, Structural)]
pub enum Table {
    Criterion,
    Expect,
}

/// A key a table is missing.
#[derive(Debug, Clone, Copy, PartialEq, Eq, Structural)]
pub enum Key {
    Match,
    On,
    Look,
    Query,
    Turn,
}

/// Which bound of a clause.
#[derive(Debug, Clone, Copy, PartialEq, Eq, Structural)]
pub enum Bound {
    Min,
    Max,
}

/// Something wrong with a decoded criteria file. Tables are named by
/// position; [`CriteriaError::message`] puts it in words, naming criteria
/// by the names the file gave them.
#[derive(Debug, Clone, Copy, PartialEq, Eq, Structural)]
pub enum ErrorKind {
    /// No `[[criterion]]` and no `[[expect]]` tables.
    AsksNothing,
    /// A question with no `name`; `position` counts from one.
    Unnamed { table: Table, position: usize },
    /// A criterion with neither `require` nor `any_of`.
    NoClauses { criterion: usize },
    /// A criterion whose `any_of` has no branches.
    EmptyAnyOf { criterion: usize },
    /// An `any_of` branch with no clauses; `position` counts from one.
    EmptyBranch { criterion: usize, position: usize },
    Missing { at: Place, key: Key },
    /// A clause with neither `min` nor `max`.
    NoBounds { at: Place },
    EmptyRange { at: Place, min: u32, max: u32 },
    BadCount { at: Place, key: Bound, value: i64 },
    BadTurn { at: Place, turn: i64 },
    /// A criterion whose `at_least` is not a probability.
    BadThreshold { criterion: usize },
    /// A trigger the engine does not fire; `needs_mana` when it is one of
    /// the mana-gated ones.
    BadTrigger { effect: usize, needs_mana: bool },
    BadLook { effect: usize, look: i64 },
    /// A zone the engine does not model; `battlefield` when it is that one.
    BadZone { at: Place, battlefield: bool },
}

/// Something wrong with a criteria file, named against the file.
#[derive(Debug, Clone)]
pub struct CriteriaError {
    pub origin: String,
    pub kind: ErrorKind,
}

/// What the routing policy sends to the graveyard.
#[derive(Debug, Clone, PartialEq, Eq)]
pub enum Destination {
    /// `to_graveyard = "*"`.
    Everything,
    /// `to_graveyard = '<query>'`.
    Matching(String),
}

/// One effect, validated but not yet resolved against any deck.
#[derive(Debug, Clone, PartialEq, Eq)]
pub struct EffectEntry {
    /// Which cards this effect is about.
    pub matches: String,
    pub look: u32,
    pub trigger: Trigger,
    /// Which of the looked-at cards go to the graveyard; `None` is none.
    pub to_graveyard: Option<Destination>,
    /// Which file declared it.
    pub origin: String,
}

/// What is wrong with the `[[effect]]` at index `i`, if anything: its
/// match, its trigger and its look are checked in that order.
pub open spec fn effect_problem(def: EffectSpec, i: int) -> Option<ErrorKind> {
    if def.matches is None {
        Some(ErrorKind::Missing { at: Place::Effect(i as usize), key: Key::Match })
    } else if def.on is None {
        Some(ErrorKind::Missing { at: Place::Effect(i as usize), key: Key::On })
    } else if trigger_kind(def.on->0@) != 0 {
        Some(ErrorKind::BadTrigger { effect: i as usize, needs_mana: trigger_kind(def.on->0@) == 1 })
    } else if def.look is None {
        Some(ErrorKind::Missing { at: Place::Effect(i as usize), key: Key::Look })
    } else if !(1 <= def.look->0 && def.look->0 <= MAX_LOOK) {
        Some(ErrorKind::BadLook { effect: i as usize, look: def.look->0 })
    } else {
        None
    }
}

/// The first problem among the first `n` effects.
pub open spec fn first_effect_problem(defs: Seq<EffectSpec>, n: int) -> Option<ErrorKind>
    decreases n,
{
    if n <= 0 {
        None
    } else {
        match first_effect_problem(defs, n - 1) {
            Some(e) => Some(e),
            None => effect_problem(defs[n - 1], n - 1),
        }
    }
}

/// Whether `entry` is what a valid `def` compiles to, from file `origin`.
pub open spec fn entry_of(entry: EffectEntry, def: EffectSpec, origin: Seq<char>) -> bool {
    &&& entry.matches@ == def.matches->0@
    &&& entry.look == def.look->0
    &&& entry.trigger == Trigger::LandDrop
    &&& entry.origin@ == origin
    &&& match (entry.to_graveyard, def.to_graveyard) {
        (None, None) => true,
        (Some(Destination::Everything), Some(d)) => d@ == EVERYTHING@,
        (Some(Destination::Matching(q)), Some(d)) => d@ != EVERYTHING@ && q@ == d@,
        _ => false,
    }
}

/// The effects a run has loaded, in load order: where two match one card,
/// the later wins.
#[derive(Debug, Clone, PartialEq, Eq)]
pub struct EffectLibrary {
    entries: Vec<EffectEntry>,
}

impl Default for EffectLibrary {
    /// The library with no effects loaded.
    fn default() -> (r: EffectLibrary)
        ensures
            r.entries_of() == Seq::<EffectEntry>::empty(),
    {
        EffectLibrary { entries: Vec::new() }
    }
}

/// Loading libraries one after another is associative, the empty library
/// is an identity on either side, and the result is empty exactly when both
/// parts are: over what `followed_by` and `default` are said to give.
pub proof fn loading_is_a_monoid(a: EffectLibrary, b: EffectLibrary, c: EffectLibrary)
    ensures
        (a.entries_of() + b.entries_of()) + c.entries_of() == a.entries_of() + (b.entries_of()
            + c.entries_of()),
        Seq::<EffectEntry>::empty() + a.entries_of() == a.entries_of(),
        a.entries_of() + Seq::<EffectEntry>::empty() == a.entries_of(),
        (a.entries_of() + b.entries_of()).len() == 0 <==> (a.entries_of().len() == 0
            && b.entries_of().len() == 0),
{
    assert((a.entries_of() + b.entries_of()) + c.entries_of() =~= a.entries_of() + (b.entries_of()
        + c.entries_of()));
    assert(Seq::<EffectEntry>::empty() + a.entries_of() =~= a.entries_of());
    assert(a.entries_of() + Seq::<EffectEntry>::empty() =~= a.entries_of());
}

/// Check and compile the `[[effect]]` tables.
fn effects_of(defs: &Vec<EffectSpec>, origin: &str) -> (r: Result<EffectLibrary, ErrorKind>)
    ensures
        match first_effect_problem(defs@, defs@.len() as int) {
            Some(e) => r == Err::<EffectLibrary, ErrorKind>(e),
            None => r matches Ok(lib) && lib.entries_of().len() == defs@.len() && forall|k: int|
                0 <= k < defs@.len() ==> entry_of(#[trigger] lib.entries_of()[k], defs@[k], origin@),
        },
{
    let mut entries: Vec<EffectEntry> = Vec::new();
    let mut i: usize = 0;
    while i < defs.len()
        invariant
            i <= defs@.len(),
            first_effect_problem(defs@, i as int) is None,
            entries@.len() == i,
            forall|k: int| 0 <= k < i ==> entry_of(#[trigger] entries@[k], defs@[k], origin@),
        decreases defs@.len() - i,
    {
        let def = &defs[i];
        let matches = match &def.matches {
            Some(m) => m.clone(),
            None => {
                proof {
                    lemma_first_effect_stays(defs@, (i + 1) as int, defs@.len() as int);
                }
                return Err(ErrorKind::Missing { at: Place::Effect(i), key: Key::Match });
            },
        };
        let on = match &def.on {
            Some(o) => o,
            None => {
                proof {
                    lemma_first_effect_stays(defs@, (i + 1) as int, defs@.len() as int);
                }
                return Err(ErrorKind::Missing { at: Place::Effect(i), key: Key::On });
            },
        };
        let trigger = match Trigger::parse(on.as_str()) {
            Ok(t) => t,
            Err(t) => {
                proof {
                    lemma_first_effect_stays(defs@, (i + 1) as int, defs@.len() as int);
                }
                let needs_mana = match t {
                    crate::effect::TriggerError::NeedsMana { .. } => true,
                    _ => false,
                };
                return Err(ErrorKind::BadTrigger { effect: i, needs_mana });
            },
        };
        let look = match def.look {
            Some(l) => l,
            None => {
                proof {
                    lemma_first_effect_stays(defs@, (i + 1) as int, defs@.len() as int);
                }
                return Err(ErrorKind::Missing { at: Place::Effect(i), key: Key::Look });
            },
        };
        if look < 1 || look > MAX_LOOK as i64 {
            proof {
                lemma_first_effect_stays(defs@, (i + 1) as int, defs@.len() as int);
            }
            return Err(ErrorKind::BadLook { effect: i, look });
        }
        let to_graveyard = match &def.to_graveyard {
            None => None,
            Some(d) => if str_eq(d.as_str(), EVERYTHING) {
                Some(Destination::Everything)
            } else {
                Some(Destination::Matching(d.clone()))
            },
        };
        let entry = EffectEntry {
            matches,
            look: look as u32,
            trigger,
            to_graveyard,
            origin: origin.to_owned(),
        };
        proof {
            assert(trigger == Trigger::LandDrop);
        }
        entries.push(entry);
        i += 1;
    }
    Ok(EffectLibrary { entries })
}

proof fn lemma_first_effect_stays(defs: Seq<EffectSpec>, i: int, n: int)
    requires
        0 <= i <= n,
        first_effect_problem(defs, i) is Some,
    ensures
        first_effect_problem(defs, n) == first_effect_problem(defs, i),
    decreases n - i,
{
    if i < n {
        lemma_first_effect_stays(defs, i, n - 1);
    }
}

impl EffectLibrary {
    pub closed spec fn entries_of(self) -> Seq<EffectEntry> {
        self.entries@
    }

    /// Check and compile the `[[effect]]` tables of a decoded file, which may
    /// hold nothing else. `origin` names the file, for the errors and for
    /// the entries.
    pub fn parse(file: &FileSpec, origin: &str) -> (r: Result<EffectLibrary, CriteriaError>)
        ensures
            match first_effect_problem(file.effect@, file.effect@.len() as int) {
                Some(e) => r matches Err(err) && err.kind == e && err.origin@ == origin@,
                None => r matches Ok(lib) && lib.entries_of().len() == file.effect@.len() && forall|
                    k: int,
                |
                    0 <= k < file.effect@.len() ==> entry_of(
                        #[trigger] lib.entries_of()[k],
                        file.effect@[k],
                        origin@,
                    ),
            },
    {
        match effects_of(&file.effect, origin) {
            Ok(lib) => Ok(lib),
            Err(kind) => Err(CriteriaError { origin: origin.to_owned(), kind }),
        }
    }

    /// `self`, then `later`, so `later` wins wherever both match a card.
    pub fn followed_by(self, later: EffectLibrary) -> (r: EffectLibrary)
        ensures
            r.entries_of() == self.entries_of() + later.entries_of(),
    {
        let mut entries = self.entries;
        let mut rest = later.entries;
        entries.append(&mut rest);
        EffectLibrary { entries }
    }

    pub fn entries(&self) -> (r: &[EffectEntry])
        ensures
            r@ == self.entries_of(),
    {
        self.entries.as_slice()
    }

    pub fn is_empty(&self) -> (r: bool)
        ensures
            r == (self.entries_of().len() == 0),
    {
        self.entries.len() == 0
    }
}

/// How many matching cards a clause accepts: never neither bound, and never
/// a minimum above the maximum.
#[derive(Debug, Clone, Copy, PartialEq, Eq, Structural)]
pub enum Bounds {
    AtLeast(u32),
    AtMost(u32),
    Between { min: u32, max: u32 },
}

/// Whether `count` is within `b`.
pub open spec fn within(b: Bounds, count: int) -> bool {
    match b {
        Bounds::AtLeast(min) => count >= min,
        Bounds::AtMost(max) => count <= max,
        Bounds::Between { min, max } => count >= min && count <= max,
    }
}

/// How a clause's bounds judge a count: `min` is a floor that a count meets
/// from itself upwards and `max` a ceiling it meets from itself downwards;
/// both together hold exactly where each alone does, so a count above the
/// maximum never satisfies a clause, nor one below the minimum.
pub proof fn bounds_are_a_floor_and_a_ceiling(min: u32, max: u32, count: int, more: int)
    requires
        count <= more,
    ensures
        within(Bounds::AtLeast(min), min as int),
        !within(Bounds::AtLeast(min), min - 1),
        within(Bounds::AtLeast(min), count) ==> within(Bounds::AtLeast(min), more),
        within(Bounds::AtMost(max), max as int),
        !within(Bounds::AtMost(max), max + 1),
        within(Bounds::AtMost(max), more) ==> within(Bounds::AtMost(max), count),
        within(Bounds::Between { min, max }, count) <==> (within(Bounds::AtLeast(min), count)
            && within(Bounds::AtMost(max), count)),
        count > max ==> !within(Bounds::Between { min, max }, count),
        count < min ==> !within(Bounds::Between { min, max }, count),
{
}

impl Bounds {
    pub fn holds(self, count: u32) -> (r: bool)
        ensures
            r == within(self, count as int),
    {
        match self {
            Bounds::AtLeast(min) => count >= min,
            Bounds::AtMost(max) => count <= max,
            Bounds::Between { min, max } => count >= min && count <= max,
        }
    }
}

/// One requirement, with its query resolved to a position in the file's
/// query list and its zone settled.
#[derive(Debug, Clone, Copy, PartialEq, Eq, Structural)]
pub struct Clause {
    pub turn: usize,
    pub query: usize,
    pub zone: Zone,
    pub bounds: Bounds,
}

/// Where an expectation reads its number.
#[derive(Debug, Clone, Copy, PartialEq, Eq, Structural)]
pub struct Probe {
    pub turn: usize,
    pub query: usize,
    pub zone: Zone,
}

/// What a criterion asks of one path: never neither half.
#[derive(Debug, Clone)]
pub enum Predicate {
    /// `require` alone.
    All(Vec<Clause>),
    /// `any_of` alone: the union of the branches.
    Any(Vec<Vec<Clause>>),
    /// Shared preconditions, then alternative routes off them.
    AllAndAny { all: Vec<Clause>, any: Vec<Vec<Clause>> },
}

/// A predicate as its two halves: every clause of `all`, and, when it is a
/// disjunction at all, some branch of `any`.
pub struct PredicateView {
    pub all: Seq<Clause>,
    pub any: Seq<Seq<Clause>>,
    pub disjunctive: bool,
}

/// The branches as sequences.
pub open spec fn branch_rows(b: Seq<Vec<Clause>>) -> Seq<Seq<Clause>> {
    b.map_values(|r: Vec<Clause>| r@)
}

impl Predicate {
    pub open spec fn view_of(self) -> PredicateView {
        match self {
            Predicate::All(a) => PredicateView { all: a@, any: Seq::empty(), disjunctive: false },
            Predicate::Any(b) => PredicateView {
                all: Seq::empty(),
                any: branch_rows(b@),
                disjunctive: true,
            },
            Predicate::AllAndAny { all, any } => PredicateView {
                all: all@,
                any: branch_rows(any@),
                disjunctive: true,
            },
        }
    }
}

/// Whether every clause of `cs` holds on `view`.
pub open spec fn all_hold(cs: Seq<Clause>, view: PathView) -> bool {
    forall|k: int|
        0 <= k < cs.len() ==> within(
            (#[trigger] cs[k]).bounds,
            view.count_spec(cs[k].turn as int, cs[k].query as int, cs[k].zone),
        )
}

/// Whether a predicate holds on `view`.
pub open spec fn pred_holds(p: PredicateView, view: PathView) -> bool {
    all_hold(p.all, view) && (!p.disjunctive || exists|b: int|
        0 <= b < p.any.len() && all_hold(#[trigger] p.any[b], view))
}

fn clauses_hold(cs: &Vec<Clause>, view: &PathView) -> (r: bool)
    ensures
        r == all_hold(cs@, *view),
{
    let mut k: usize = 0;
    while k < cs.len()
        invariant
            k <= cs@.len(),
            forall|j: int|
                0 <= j < k ==> within(
                    (#[trigger] cs@[j]).bounds,
                    view.count_spec(cs@[j].turn as int, cs@[j].query as int, cs@[j].zone),
                ),
        decreases cs@.len() - k,
    {
        let c = cs[k];
        if !c.bounds.holds(view.count_in(c.turn, c.query, c.zone)) {
            return false;
        }
        k += 1;
    }
    true
}

fn some_branch_holds(bs: &Vec<Vec<Clause>>, view: &PathView) -> (r: bool)
    ensures
        r == exists|b: int| 0 <= b < bs@.len() && all_hold(#[trigger] branch_rows(bs@)[b], *view),
{
    let mut b: usize = 0;
    while b < bs.len()
        invariant
            b <= bs@.len(),
            forall|j: int| 0 <= j < b ==> !all_hold(#[trigger] branch_rows(bs@)[j], *view),
        decreases bs@.len() - b,
    {
        if clauses_hold(&bs[b], view) {
            proof {
                assert(branch_rows(bs@)[b as int] == bs@[b as int]@);
            }
            return true;
        }
        proof {
            assert(branch_rows(bs@)[b as int] == bs@[b as int]@);
        }
        b += 1;
    }
    false
}

impl Predicate {
    /// Whether this predicate holds on one path.
    pub fn holds(&self, path: &PathView) -> (r: bool)
        ensures
            r == pred_holds(self.view_of(), *path),
    {
        let res = match self {
            Predicate::All(all) => clauses_hold(all, path),
            Predicate::Any(any) => some_branch_holds(any, path),
            Predicate::AllAndAny { all, any } => {
                let a = clauses_hold(all, path);
                let b = some_branch_holds(any, path);
                a && b
            },
        };
        proof {
            let pv = self.view_of();
            match self {
                Predicate::All(all) => {
                    assert(res == all_hold(pv.all, *path));
                    assert(res == pred_holds(pv, *path));
                },
                Predicate::Any(any) => {
                    assert(all_hold(pv.all, *path));
                    lemma_some_branch(any@, pv, *path);
                },
                Predicate::AllAndAny { all, any } => {
                    lemma_some_branch(any@, pv, *path);
                },
            }
            assert(res == pred_holds(pv, *path));
            assert(res == pred_holds(self.view_of(), *path));
        }
        res
    }
}

proof fn lemma_some_branch(bs: Seq<Vec<Clause>>, pv: PredicateView, path: PathView)
    requires
        pv.any == branch_rows(bs),
    ensures
        (exists|b: int| 0 <= b < bs.len() && all_hold(#[trigger] branch_rows(bs)[b], path)) == (
        exists|b: int| 0 <= b < pv.any.len() && all_hold(#[trigger] pv.any[b], path)),
{
    assert(pv.any.len() == bs.len());
}

/// What a file has asked about so far: its distinct queries and zones in
/// first-mention order, and its deepest turn.
pub struct VocabView {
    pub queries: Seq<Seq<char>>,
    pub zones: Seq<Zone>,
    pub horizon: u32,
}

/// The position of `q` among the first `n` queries.
pub open spec fn find_query(qs: Seq<Seq<char>>, q: Seq<char>, n: int) -> Option<int>
    decreases n,
{
    if n <= 0 {
        None
    } else {
        match find_query(qs, q, n - 1) {
            Some(i) => Some(i),
            None => if qs[n - 1] == q {
                Some(n - 1)
            } else {
                None
            },
        }
    }
}

/// Note a question about `q` in `zone` on `turn`: the horizon reaches the
/// turn, the zone and the query are added if new, and the query's position
/// comes back.
pub open spec fn intern_spec(v: VocabView, q: Seq<char>, turn: u32, zone: Zone) -> (VocabView, int) {
    let h = if turn > v.horizon {
        turn
    } else {
        v.horizon
    };
    let zs = if v.zones.contains(zone) {
        v.zones
    } else {
        v.zones.push(zone)
    };
    match find_query(v.queries, q, v.queries.len() as int) {
        Some(i) => (VocabView { queries: v.queries, zones: zs, horizon: h }, i),
        None => (VocabView { queries: v.queries.push(q), zones: zs, horizon: h }, v.queries.len() as int),
    }
}

/// The turn a table names, checked.
pub open spec fn turn_check(turn: Option<i64>, at: Place) -> Result<u32, ErrorKind> {
    match turn {
        None => Err(ErrorKind::Missing { at, key: Key::Turn }),
        Some(t) => if 0 <= t && t <= MAX_TURN {
            Ok(t as u32)
        } else {
            Err(ErrorKind::BadTurn { at, turn: t })
        },
    }
}

/// The zone a table names, checked; silence means the hand.
pub open spec fn zone_check(zone: Option<String>, at: Place) -> Result<Zone, ErrorKind> {
    match zone {
        None => Ok(Zone::Hand),
        Some(z) => match parse_zone(z@) {
            Ok(found) => Ok(found),
            Err(_) => Err(ErrorKind::BadZone { at, battlefield: z@ == "battlefield"@ }),
        },
    }
}

/// The bounds a clause names, checked: at least one, each a number of
/// cards, and the minimum not above the maximum.
pub open spec fn bounds_check(min: Option<i64>, max: Option<i64>, at: Place) -> Result<Bounds, ErrorKind> {
    match (min, max) {
        (None, None) => Err(ErrorKind::NoBounds { at }),
        (Some(m), None) => if 0 <= m && m <= u32::MAX {
            Ok(Bounds::AtLeast(m as u32))
        } else {
            Err(ErrorKind::BadCount { at, key: Bound::Min, value: m })
        },
        (None, Some(x)) => if 0 <= x && x <= u32::MAX {
            Ok(Bounds::AtMost(x as u32))
        } else {
            Err(ErrorKind::BadCount { at, key: Bound::Max, value: x })
        },
        (Some(m), Some(x)) => if !(0 <= m && m <= u32::MAX) {
            Err(ErrorKind::BadCount { at, key: Bound::Min, value: m })
        } else if !(0 <= x && x <= u32::MAX) {
            Err(ErrorKind::BadCount { at, key: Bound::Max, value: x })
        } else if m > x {
            Err(ErrorKind::EmptyRange { at, min: m as u32, max: x as u32 })
        } else {
            Ok(Bounds::Between { min: m as u32, max: x as u32 })
        },
    }
}

/// Where clause `j` of a criterion's `require`, or of one of its branches,
/// is.
pub open spec fn place_of(criterion: usize, branch: Option<usize>, j: int) -> Place {
    match branch {
        None => Place::Clause { criterion, clause: j as usize },
        Some(b) => Place::BranchClause { criterion, branch: b, clause: j as usize },
    }
}

/// One clause checked and compiled: its query, turn, zone and bounds are
/// checked in that order, then the query is interned.
pub open spec fn clause_step(v: VocabView, c: ClauseSpec, at: Place) -> Result<(VocabView, Clause), ErrorKind> {
    if c.query is None {
        Err(ErrorKind::Missing { at, key: Key::Query })
    } else {
        match turn_check(c.turn, at) {
            Err(e) => Err(e),
            Ok(turn) => match zone_check(c.zone, at) {
                Err(e) => Err(e),
                Ok(zone) => match bounds_check(c.min, c.max, at) {
                    Err(e) => Err(e),
                    Ok(bounds) => {
                        let (v2, q) = intern_spec(v, c.query->0@, turn, zone);
                        Ok((v2, Clause { turn: turn as usize, query: q as usize, zone, bounds }))
                    },
                },
            },
        }
    }
}

/// The first `n` clauses of a conjunction, checked and compiled.
pub open spec fn conj_spec(
    v: VocabView,
    defs: Seq<ClauseSpec>,
    criterion: usize,
    branch: Option<usize>,
    n: int,
) -> Result<(VocabView, Seq<Clause>), ErrorKind>
    decreases n,
{
    if n <= 0 {
        Ok((v, Seq::empty()))
    } else {
        match conj_spec(v, defs, criterion, branch, n - 1) {
            Err(e) => Err(e),
            Ok((v1, cs)) => match clause_step(v1, defs[n - 1], place_of(criterion, branch, n - 1)) {
                Err(e) => Err(e),
                Ok((v2, c)) => Ok((v2, cs.push(c))),
            },
        }
    }
}

/// The first `n` branches of a criterion's `any_of`, checked and compiled.
pub open spec fn branches_spec(v: VocabView, bs: Seq<BranchSpec>, criterion: usize, n: int) -> Result<
    (VocabView, Seq<Seq<Clause>>),
    ErrorKind,
>
    decreases n,
{
    if n <= 0 {
        Ok((v, Seq::empty()))
    } else {
        match branches_spec(v, bs, criterion, n - 1) {
            Err(e) => Err(e),
            Ok((v1, compiled)) => if bs[n - 1].require@.len() == 0 {
                Err(ErrorKind::EmptyBranch { criterion, position: n as usize })
            } else {
                match conj_spec(
                    v1,
                    bs[n - 1].require@,
                    criterion,
                    Some((n - 1) as usize),
                    bs[n - 1].require@.len() as int,
                ) {
                    Err(e) => Err(e),
                    Ok((v2, cs)) => Ok((v2, compiled.push(cs))),
                }
            },
        }
    }
}

/// A criterion with its halves compiled: refused if it has neither.
pub open spec fn finish_spec(v: VocabView, all: Seq<Clause>, any: Seq<Seq<Clause>>, i: int) -> Result<
    (VocabView, PredicateView),
    ErrorKind,
> {
    if all.len() == 0 && any.len() == 0 {
        Err(ErrorKind::NoClauses { criterion: i as usize })
    } else {
        Ok((v, PredicateView { all, any, disjunctive: any.len() > 0 }))
    }
}

/// The criterion at index `i`, checked and compiled: its name, its
/// threshold, its `require`, then its `any_of`.
pub open spec fn criterion_step(v: VocabView, def: CriterionSpec, i: int) -> Result<
    (VocabView, PredicateView),
    ErrorKind,
> {
    if def.name is None {
        Err(ErrorKind::Unnamed { table: Table::Criterion, position: (i + 1) as usize })
    } else if !def.threshold_ok {
        Err(ErrorKind::BadThreshold { criterion: i as usize })
    } else {
        match conj_spec(v, def.require@, i as usize, None, def.require@.len() as int) {
            Err(e) => Err(e),
            Ok((v1, all)) => match def.any_of {
                None => finish_spec(v1, all, Seq::empty(), i),
                Some(bs) => if bs@.len() == 0 {
                    Err(ErrorKind::EmptyAnyOf { criterion: i as usize })
                } else {
                    match branches_spec(v1, bs@, i as usize, bs@.len() as int) {
                        Err(e) => Err(e),
                        Ok((v2, any)) => finish_spec(v2, all, any, i),
                    }
                },
            },
        }
    }
}

/// The first `n` criteria, checked and compiled.
pub open spec fn criteria_spec(v: VocabView, defs: Seq<CriterionSpec>, n: int) -> Result<
    (VocabView, Seq<PredicateView>),
    ErrorKind,
>
    decreases n,
{
    if n <= 0 {
        Ok((v, Seq::empty()))
    } else {
        match criteria_spec(v, defs, n - 1) {
            Err(e) => Err(e),
            Ok((v1, ps)) => match criterion_step(v1, defs[n - 1], n - 1) {
                Err(e) => Err(e),
                Ok((v2, p)) => Ok((v2, ps.push(p))),
            },
        }
    }
}

/// The expectation at index `i`, checked and compiled: its name, query,
/// turn and zone in that order.
pub open spec fn expect_step(v: VocabView, def: ExpectSpec, i: int) -> Result<(VocabView, Probe), ErrorKind> {
    let at = Place::Expectation(i as usize);
    if def.name is None {
        Err(ErrorKind::Unnamed { table: Table::Expect, position: (i + 1) as usize })
    } else if def.query is None {
        Err(ErrorKind::Missing { at, key: Key::Query })
    } else {
        match turn_check(def.turn, at) {
            Err(e) => Err(e),
            Ok(turn) => match zone_check(def.zone, at) {
                Err(e) => Err(e),
                Ok(zone) => {
                    let (v2, q) = intern_spec(v, def.query->0@, turn, zone);
                    Ok((v2, Probe { turn: turn as usize, query: q as usize, zone }))
                },
            },
        }
    }
}

/// The first `n` expectations, checked and compiled.
pub open spec fn expects_spec(v: VocabView, defs: Seq<ExpectSpec>, n: int) -> Result<
    (VocabView, Seq<Probe>),
    ErrorKind,
>
    decreases n,
{
    if n <= 0 {
        Ok((v, Seq::empty()))
    } else {
        match expects_spec(v, defs, n - 1) {
            Err(e) => Err(e),
            Ok((v1, ps)) => match expect_step(v1, defs[n - 1], n - 1) {
                Err(e) => Err(e),
                Ok((v2, p)) => Ok((v2, ps.push(p))),
            },
        }
    }
}

/// A compiled file, as the questions see it.
pub struct BuildView {
    pub vocab: VocabView,
    pub predicates: Seq<PredicateView>,
    pub probes: Seq<Probe>,
}

/// What a decoded file compiles to, or the first thing wrong with it: a
/// file that asks nothing, then the effects, then the criteria, then the
/// expectations.
pub open spec fn build_spec(file: FileSpec) -> Result<BuildView, ErrorKind> {
    if file.criterion@.len() == 0 && file.expect@.len() == 0 {
        Err(ErrorKind::AsksNothing)
    } else {
        match first_effect_problem(file.effect@, file.effect@.len() as int) {
            Some(e) => Err(e),
            None => match criteria_spec(
                VocabView { queries: Seq::empty(), zones: Seq::empty(), horizon: 0 },
                file.criterion@,
                file.criterion@.len() as int,
            ) {
                Err(e) => Err(e),
                Ok((v1, preds)) => match expects_spec(v1, file.expect@, file.expect@.len() as int) {
                    Err(e) => Err(e),
                    Ok((v2, probes)) => Ok(BuildView { vocab: v2, predicates: preds, probes }),
                },
            },
        }
    }
}

/// The questions a file has asked so far.
struct Vocabulary {
    queries: Vec<String>,
    zones: Vec<Zone>,
    horizon: u32,
}

/// The queries' texts.
pub open spec fn texts(qs: Seq<String>) -> Seq<Seq<char>> {
    qs.map_values(|q: String| q@)
}

/// Whether two vocabularies are the same.
pub open spec fn same_vocab(a: VocabView, b: VocabView) -> bool {
    a.queries == b.queries && a.zones == b.zones && a.horizon == b.horizon
}

impl Vocabulary {
    spec fn view_of(&self) -> VocabView {
        VocabView { queries: texts(self.queries@), zones: self.zones@, horizon: self.horizon }
    }

    /// Note a question about `query` in `zone` on `turn`, and where the
    /// query sits in the list.
    fn intern(&mut self, query: String, turn: u32, zone: Zone) -> (r: usize)
        ensures
            same_vocab(final(self).view_of(), intern_spec(old(self).view_of(), query@, turn, zone).0),
            r == intern_spec(old(self).view_of(), query@, turn, zone).1,
    {
        let ghost v = self.view_of();
        if turn > self.horizon {
            self.horizon = turn;
        }
        let mut seen = false;
        let mut k: usize = 0;
        while k < self.zones.len()
            invariant
                k <= self.zones@.len(),
                v == old(self).view_of(),
                self.zones@ == v.zones,
                seen == exists|j: int| 0 <= j < k && self.zones@[j] == zone,
            decreases self.zones@.len() - k,
        {
            if self.zones[k] == zone {
                seen = true;
            }
            k += 1;
        }
        proof {
            if seen {
                let j = choose|j: int| 0 <= j < k && self.zones@[j] == zone;
                assert(v.zones.contains(zone));
            } else {
                assert(!v.zones.contains(zone));
            }
        }
        if !seen {
            self.zones.push(zone);
        }
        let mut i: usize = 0;
        while i < self.queries.len()
            invariant
                i <= self.queries@.len(),
                v == old(self).view_of(),
                texts(self.queries@) == v.queries,
                find_query(v.queries, query@, i as int) is None,
                self.horizon == (if turn > v.horizon {
                    turn
                } else {
                    v.horizon
                }),
                self.zones@ == (if v.zones.contains(zone) {
                    v.zones
                } else {
                    v.zones.push(zone)
                }),
            decreases self.queries@.len() - i,
        {
            if str_eq(self.queries[i].as_str(), query.as_str()) {
                proof {
                    assert(v.queries[i as int] == self.queries@[i as int]@);
                    assert(find_query(v.queries, query@, (i + 1) as int) == Some(i as int));
                    lemma_find_query_stays(v.queries, query@, (i + 1) as int, v.queries.len() as int);
                    assert(intern_spec(v, query@, turn, zone).1 == i);
                    assert(same_vocab(self.view_of(), intern_spec(v, query@, turn, zone).0));
                }
                return i;
            }
            proof {
                assert(v.queries[i as int] == self.queries@[i as int]@);
            }
            i += 1;
        }
        let ghost before = self.queries@;
        self.queries.push(query);
        proof {
            assert(texts(self.queries@) =~= texts(before).push(self.queries@[i as int]@));
        }
        i
    }
}

proof fn lemma_find_query_stays(qs: Seq<Seq<char>>, q: Seq<char>, i: int, n: int)
    requires
        0 <= i <= n,
        find_query(qs, q, i) is Some,
    ensures
        find_query(qs, q, n) == find_query(qs, q, i),
    decreases n - i,
{
    if i < n {
        lemma_find_query_stays(qs, q, i, n - 1);
    }
}

fn turn_of(turn: Option<i64>, at: Place) -> (r: Result<u32, ErrorKind>)
    ensures
        r == turn_check(turn, at),
{
    match turn {
        None => Err(ErrorKind::Missing { at, key: Key::Turn }),
        Some(t) => if 0 <= t && t <= MAX_TURN as i64 {
            Ok(t as u32)
        } else {
            Err(ErrorKind::BadTurn { at, turn: t })
        },
    }
}

fn zone_of(zone: &Option<String>, at: Place) -> (r: Result<Zone, ErrorKind>)
    ensures
        r == zone_check(*zone, at),
{
    match zone {
        None => Ok(Zone::Hand),
        Some(name) => match Zone::parse(name.as_str()) {
            Ok(z) => Ok(z),
            Err(e) => {
                let battlefield = match e {
                    ZoneError::Battlefield => true,
                    _ => false,
                };
                Err(ErrorKind::BadZone { at, battlefield })
            },
        },
    }
}

fn bounds_of(min: Option<i64>, max: Option<i64>, at: Place) -> (r: Result<Bounds, ErrorKind>)
    ensures
        r == bounds_check(min, max, at),
{
    match (min, max) {
        (None, None) => Err(ErrorKind::NoBounds { at }),
        (Some(m), None) => if 0 <= m && m <= u32::MAX as i64 {
            Ok(Bounds::AtLeast(m as u32))
        } else {
            Err(ErrorKind::BadCount { at, key: Bound::Min, value: m })
        },
        (None, Some(x)) => if 0 <= x && x <= u32::MAX as i64 {
            Ok(Bounds::AtMost(x as u32))
        } else {
            Err(ErrorKind::BadCount { at, key: Bound::Max, value: x })
        },
        (Some(m), Some(x)) => if !(0 <= m && m <= u32::MAX as i64) {
            Err(ErrorKind::BadCount { at, key: Bound::Min, value: m })
        } else if !(0 <= x && x <= u32::MAX as i64) {
            Err(ErrorKind::BadCount { at, key: Bound::Max, value: x })
        } else if m > x {
            Err(ErrorKind::EmptyRange { at, min: m as u32, max: x as u32 })
        } else {
            Ok(Bounds::Between { min: m as u32, max: x as u32 })
        },
    }
}

fn place(criterion: usize, branch: Option<usize>, j: usize) -> (r: Place)
    ensures
        r == place_of(criterion, branch, j as int),
{
    match branch {
        None => Place::Clause { criterion, clause: j },
        Some(b) => Place::BranchClause { criterion, branch: b, clause: j },
    }
}

impl Vocabulary {
    /// One list of clauses, all of which must hold.
    fn conjunction(&mut self, defs: &Vec<ClauseSpec>, criterion: usize, branch: Option<usize>) -> (r:
        Result<Vec<Clause>, ErrorKind>)
        ensures
            match conj_spec(old(self).view_of(), defs@, criterion, branch, defs@.len() as int) {
                Err(e) => r == Err::<Vec<Clause>, ErrorKind>(e),
                Ok((v, cs)) => r matches Ok(out) && out@ == cs && same_vocab(final(self).view_of(), v),
            },
    {
        let ghost v0 = self.view_of();
        let mut out: Vec<Clause> = Vec::new();
        let mut j: usize = 0;
        while j < defs.len()
            invariant
                j <= defs@.len(),
                v0 == old(self).view_of(),
                conj_spec(v0, defs@, criterion, branch, j as int) matches Ok((v, cs)) && cs == out@
                    && same_vocab(self.view_of(), v),
            decreases defs@.len() - j,
        {
            let ghost prev = conj_spec(v0, defs@, criterion, branch, j as int);
            proof {
                lemma_conj_same(v0, defs@, criterion, branch, j as int, self.view_of());
            }
            let c = &defs[j];
            let at = place(criterion, branch, j);
            let query = match &c.query {
                Some(q) => q.clone(),
                None => {
                    proof {
                        assert(defs@[(j + 1) - 1] == *c);
                        assert(conj_spec(v0, defs@, criterion, branch, (j + 1) as int) == Err::<(VocabView, Seq<Clause>), ErrorKind>(ErrorKind::Missing { at, key: Key::Query }));
                        lemma_conj_err_stays(v0, defs@, criterion, branch, (j + 1) as int, defs@.len() as int);
                    }
                    return Err(ErrorKind::Missing { at, key: Key::Query });
                },
            };
            let turn = match turn_of(c.turn, at) {
                Ok(t) => t,
                Err(e) => {
                    proof {
                        assert(defs@[(j + 1) - 1] == *c);
                        assert(conj_spec(v0, defs@, criterion, branch, (j + 1) as int) == Err::<(VocabView, Seq<Clause>), ErrorKind>(e));
                        lemma_conj_err_stays(v0, defs@, criterion, branch, (j + 1) as int, defs@.len() as int);
                    }
                    return Err(e);
                },
            };
            let zone = match zone_of(&c.zone, at) {
                Ok(z) => z,
                Err(e) => {
                    proof {
                        assert(defs@[(j + 1) - 1] == *c);
                        assert(conj_spec(v0, defs@, criterion, branch, (j + 1) as int) == Err::<(VocabView, Seq<Clause>), ErrorKind>(e));
                        lemma_conj_err_stays(v0, defs@, criterion, branch, (j + 1) as int, defs@.len() as int);
                    }
                    return Err(e);
                },
            };
            let bounds = match bounds_of(c.min, c.max, at) {
                Ok(b) => b,
                Err(e) => {
                    proof {
                        assert(defs@[(j + 1) - 1] == *c);
                        assert(conj_spec(v0, defs@, criterion, branch, (j + 1) as int) == Err::<(VocabView, Seq<Clause>), ErrorKind>(e));
                        lemma_conj_err_stays(v0, defs@, criterion, branch, (j + 1) as int, defs@.len() as int);
                    }
                    return Err(e);
                },
            };
            let q = self.intern(query, turn, zone);
            out.push(Clause { turn: turn as usize, query: q, zone, bounds });
            j += 1;
        }
        Ok(out)
    }
}

/// The clauses compiled so far depend on the vocabulary only through its
/// view.
proof fn lemma_conj_same(
    v0: VocabView,
    defs: Seq<ClauseSpec>,
    criterion: usize,
    branch: Option<usize>,
    j: int,
    now: VocabView,
)
    requires
        conj_spec(v0, defs, criterion, branch, j) matches Ok((v, cs)) && same_vocab(now, v),
    ensures
        conj_spec(v0, defs, criterion, branch, j) matches Ok((v, cs)) && v == now,
{
    let (v, cs) = conj_spec(v0, defs, criterion, branch, j)->Ok_0;
    assert(v.queries =~= now.queries);
    assert(v.zones =~= now.zones);
}

proof fn lemma_conj_err_stays(
    v0: VocabView,
    defs: Seq<ClauseSpec>,
    criterion: usize,
    branch: Option<usize>,
    i: int,
    n: int,
)
    requires
        0 <= i <= n,
        conj_spec(v0, defs, criterion, branch, i) is Err,
    ensures
        conj_spec(v0, defs, criterion, branch, n) == conj_spec(v0, defs, criterion, branch, i),
    decreases n - i,
{
    if i < n {
        lemma_conj_err_stays(v0, defs, criterion, branch, i, n - 1);
    }
}

proof fn lemma_branches_err_stays(v0: VocabView, bs: Seq<BranchSpec>, criterion: usize, i: int, n: int)
    requires
        0 <= i <= n,
        branches_spec(v0, bs, criterion, i) is Err,
    ensures
        branches_spec(v0, bs, criterion, n) == branches_spec(v0, bs, criterion, i),
    decreases n - i,
{
    if i < n {
        lemma_branches_err_stays(v0, bs, criterion, i, n - 1);
    }
}

proof fn lemma_vocab_eq(a: VocabView, b: VocabView)
    requires
        same_vocab(a, b),
    ensures
        a == b,
{
    assert(a.queries =~= b.queries);
    assert(a.zones =~= b.zones);
}

impl Vocabulary {
    /// The branches of a criterion's `any_of`.
    fn branches(&mut self, bs: &Vec<BranchSpec>, criterion: usize) -> (r: Result<Vec<Vec<Clause>>, ErrorKind>)
        ensures
            match branches_spec(old(self).view_of(), bs@, criterion, bs@.len() as int) {
                Err(e) => r == Err::<Vec<Vec<Clause>>, ErrorKind>(e),
                Ok((v, compiled)) => r matches Ok(out) && branch_rows(out@) == compiled && same_vocab(
                    final(self).view_of(),
                    v,
                ),
            },
    {
        let ghost v0 = self.view_of();
        let mut out: Vec<Vec<Clause>> = Vec::new();
        let mut k: usize = 0;
        while k < bs.len()
            invariant
                k <= bs@.len(),
                v0 == old(self).view_of(),
                branches_spec(v0, bs@, criterion, k as int) matches Ok((v, compiled)) && compiled
                    == branch_rows(out@) && same_vocab(self.view_of(), v),
            decreases bs@.len() - k,
        {
            proof {
                let (v, compiled) = branches_spec(v0, bs@, criterion, k as int)->Ok_0;
                lemma_vocab_eq(self.view_of(), v);
                assert(bs@[(k + 1) - 1] == bs@[k as int]);
            }
            if bs[k].require.len() == 0 {
                proof {
                    lemma_branches_err_stays(v0, bs@, criterion, (k + 1) as int, bs@.len() as int);
                }
                return Err(ErrorKind::EmptyBranch { criterion, position: k + 1 });
            }
            match self.conjunction(&bs[k].require, criterion, Some(k)) {
                Err(e) => {
                    proof {
                        lemma_branches_err_stays(v0, bs@, criterion, (k + 1) as int, bs@.len() as int);
                    }
                    return Err(e);
                },
                Ok(cs) => {
                    let ghost before = out@;
                    let ghost csv = cs@;
                    out.push(cs);
                    proof {
                        assert(branch_rows(out@) =~= branch_rows(before).push(csv));
                    }
                },
            }
            k += 1;
        }
        Ok(out)
    }
}

/// The criterion at index `i`, past its name: its threshold, its
/// `require`, then its `any_of`.
fn compile_criterion(vocab: &mut Vocabulary, def: &CriterionSpec, i: usize) -> (r: Result<Predicate, ErrorKind>)
    requires
        def.name is Some,
    ensures
        match criterion_step(old(vocab).view_of(), *def, i as int) {
            Err(e) => r == Err::<Predicate, ErrorKind>(e),
            Ok((v, p)) => r matches Ok(pred) && pred.view_of() == p && same_vocab(final(vocab).view_of(), v),
        },
{
    let ghost v0 = vocab.view_of();
    if !def.threshold_ok {
        return Err(ErrorKind::BadThreshold { criterion: i });
    }
    let all = match vocab.conjunction(&def.require, i, None) {
        Ok(cs) => cs,
        Err(e) => {
            return Err(e);
        },
    };
    let ghost v1 = vocab.view_of();
    proof {
        let (w, cs) = conj_spec(v0, def.require@, i, None, def.require@.len() as int)->Ok_0;
        lemma_vocab_eq(v1, w);
    }
    let any: Vec<Vec<Clause>> = match &def.any_of {
        None => Vec::new(),
        Some(bs) => {
            if bs.len() == 0 {
                return Err(ErrorKind::EmptyAnyOf { criterion: i });
            }
            match vocab.branches(bs, i) {
                Ok(compiled) => compiled,
                Err(e) => {
                    return Err(e);
                },
            }
        },
    };
    proof {
        if def.any_of is None {
            assert(branch_rows(any@) =~= Seq::<Seq<Clause>>::empty());
        } else {
            let (w, compiled) = branches_spec(v1, (def.any_of->0)@, i, (def.any_of->0)@.len() as int)->Ok_0;
            lemma_vocab_eq(vocab.view_of(), w);
        }
    }
    if all.len() == 0 && any.len() == 0 {
        return Err(ErrorKind::NoClauses { criterion: i });
    }
    let predicate = if any.len() == 0 {
        Predicate::All(all)
    } else if all.len() == 0 {
        Predicate::Any(any)
    } else {
        Predicate::AllAndAny { all, any }
    };
    proof {
        let pv = predicate.view_of();
        if pv.all.len() == 0 {
            assert(pv.all =~= Seq::<Clause>::empty());
        }
        if pv.any.len() == 0 {
            assert(pv.any =~= Seq::<Seq<Clause>>::empty());
        }
    }
    Ok(predicate)
}

/// A parsed criteria file, ready to answer.
#[derive(Debug)]
pub struct Criteria {
    /// Every distinct query the file names, in first-mention order.
    queries: Vec<String>,
    /// Every distinct zone the file asks about, in first-mention order.
    zones: Vec<Zone>,
    horizon: u32,
    /// The criteria's names, parallel to `predicates`.
    names: Vec<String>,
    predicates: Vec<Predicate>,
    expectations: Vec<Expectation>,
    probes: Vec<Probe>,
    effects: EffectLibrary,
}

/// The predicates' views.
pub open spec fn pred_views(ps: Seq<Predicate>) -> Seq<PredicateView> {
    ps.map_values(|p: Predicate| p.view_of())
}

impl Criteria {
    pub closed spec fn queries_of(self) -> Seq<Seq<char>> {
        texts(self.queries@)
    }

    pub closed spec fn zones_of(self) -> Seq<Zone> {
        self.zones@
    }

    pub closed spec fn horizon_of(self) -> u32 {
        self.horizon
    }

    pub closed spec fn names_of(self) -> Seq<Seq<char>> {
        texts(self.names@)
    }

    pub closed spec fn predicates_of(self) -> Seq<PredicateView> {
        pred_views(self.predicates@)
    }

    pub closed spec fn expectation_names_of(self) -> Seq<Seq<char>> {
        self.expectations@.map_values(|e: Expectation| e.name@)
    }

    pub closed spec fn probes_of(self) -> Seq<Probe> {
        self.probes@
    }

    pub closed spec fn effects_of(self) -> EffectLibrary {
        self.effects
    }

    #[verifier::type_invariant]
    spec fn parallel(self) -> bool {
        &&& self.names@.len() == self.predicates@.len()
        &&& self.expectations@.len() == self.probes@.len()
    }

    /// Check and compile a decoded criteria file. `origin` names it, for
    /// the errors and for the effects it declares.
    pub fn parse(file: &FileSpec, origin: &str) -> (r: Result<Criteria, CriteriaError>)
        ensures
            match build_spec(*file) {
                Err(e) => r matches Err(err) && err.kind == e && err.origin@ == origin@,
                Ok(b) => r matches Ok(c) && c.queries_of() == b.vocab.queries && c.zones_of()
                    == b.vocab.zones && c.horizon_of() == b.vocab.horizon && c.predicates_of()
                    == b.predicates && c.probes_of() == b.probes && c.names_of().len()
                    == file.criterion@.len() && (forall|i: int|
                    0 <= i < file.criterion@.len() ==> #[trigger] c.names_of()[i]
                        == file.criterion@[i].name->0@) && c.expectation_names_of().len()
                    == file.expect@.len() && (forall|i: int|
                    0 <= i < file.expect@.len() ==> #[trigger] c.expectation_names_of()[i]
                        == file.expect@[i].name->0@) && c.effects_of().entries_of().len()
                    == file.effect@.len() && (forall|k: int|
                    0 <= k < file.effect@.len() ==> entry_of(
                        #[trigger] c.effects_of().entries_of()[k],
                        file.effect@[k],
                        origin@,
                    )),
            },
    {
        match Criteria::compile(file, origin) {
            Ok(c) => Ok(c),
            Err(kind) => Err(CriteriaError { origin: origin.to_owned(), kind }),
        }
    }

    fn compile(file: &FileSpec, origin: &str) -> (r: Result<Criteria, ErrorKind>)
        ensures
            match build_spec(*file) {
                Err(e) => r == Err::<Criteria, ErrorKind>(e),
                Ok(b) => r matches Ok(c) && c.queries_of() == b.vocab.queries && c.zones_of()
                    == b.vocab.zones && c.horizon_of() == b.vocab.horizon && c.predicates_of()
                    == b.predicates && c.probes_of() == b.probes && c.names_of().len()
                    == file.criterion@.len() && (forall|i: int|
                    0 <= i < file.criterion@.len() ==> #[trigger] c.names_of()[i]
                        == file.criterion@[i].name->0@) && c.expectation_names_of().len()
                    == file.expect@.len() && (forall|i: int|
                    0 <= i < file.expect@.len() ==> #[trigger] c.expectation_names_of()[i]
                        == file.expect@[i].name->0@) && c.effects_of().entries_of().len()
                    == file.effect@.len() && (forall|k: int|
                    0 <= k < file.effect@.len() ==> entry_of(
                        #[trigger] c.effects_of().entries_of()[k],
                        file.effect@[k],
                        origin@,
                    )),
            },
    {
        if file.criterion.len() == 0 && file.expect.len() == 0 {
            return Err(ErrorKind::AsksNothing);
        }
        let effects = match effects_of(&file.effect, origin) {
            Ok(lib) => lib,
            Err(e) => {
                return Err(e);
            },
        };
        let mut vocab = Vocabulary { queries: Vec::new(), zones: Vec::new(), horizon: 0 };
        let ghost v0 = vocab.view_of();
        proof {
            assert(v0 == VocabView { queries: Seq::empty(), zones: Seq::empty(), horizon: 0 }) by {
                assert(v0.queries =~= Seq::<Seq<char>>::empty());
            }
        }
        let mut names: Vec<String> = Vec::new();
        let mut predicates: Vec<Predicate> = Vec::new();
        let mut i: usize = 0;
        while i < file.criterion.len()
            invariant
                i <= file.criterion@.len(),
                !(file.criterion@.len() == 0 && file.expect@.len() == 0),
                first_effect_problem(file.effect@, file.effect@.len() as int) is None,
                effects.entries_of().len() == file.effect@.len(),
                forall|k: int|
                    0 <= k < file.effect@.len() ==> entry_of(
                        #[trigger] effects.entries_of()[k],
                        file.effect@[k],
                        origin@,
                    ),
                v0 == (VocabView { queries: Seq::empty(), zones: Seq::empty(), horizon: 0 }),
                criteria_spec(v0, file.criterion@, i as int) matches Ok((v, ps)) && ps == pred_views(
                    predicates@,
                ) && same_vocab(vocab.view_of(), v),
                names@.len() == i,
                predicates@.len() == i,
                forall|k: int| 0 <= k < i ==> (#[trigger] names@[k])@ == file.criterion@[k].name->0@,
            decreases file.criterion@.len() - i,
        {
            let ghost before = criteria_spec(v0, file.criterion@, i as int);
            proof {
                let (v, ps) = before->Ok_0;
                lemma_vocab_eq(vocab.view_of(), v);
                assert(file.criterion@[(i + 1) - 1] == file.criterion@[i as int]);
            }
            let def = &file.criterion[i];
            let name = match &def.name {
                Some(n) => n.clone(),
                None => {
                    proof {
                        lemma_criteria_err_stays(v0, file.criterion@, (i + 1) as int, file.criterion@.len() as int);
                    }
                    return Err(ErrorKind::Unnamed { table: Table::Criterion, position: i + 1 });
                },
            };
            let predicate = match compile_criterion(&mut vocab, def, i) {
                Ok(p) => p,
                Err(e) => {
                    proof {
                        lemma_criteria_err_stays(v0, file.criterion@, (i + 1) as int, file.criterion@.len() as int);
                    }
                    return Err(e);
                },
            };
            let ghost preds_before = predicates@;
            let ghost pv_new = predicate.view_of();
            predicates.push(predicate);
            names.push(name);
            proof {
                assert(pred_views(predicates@) =~= pred_views(preds_before).push(pv_new));
            }
            i += 1;
        }
        let mut expectations: Vec<Expectation> = Vec::new();
        let mut probes: Vec<Probe> = Vec::new();
        let ghost (v1, all_preds) = criteria_spec(v0, file.criterion@, file.criterion@.len() as int)->Ok_0;
        let mut k: usize = 0;
        while k < file.expect.len()
            invariant
                k <= file.expect@.len(),
                !(file.criterion@.len() == 0 && file.expect@.len() == 0),
                first_effect_problem(file.effect@, file.effect@.len() as int) is None,
                effects.entries_of().len() == file.effect@.len(),
                forall|j: int|
                    0 <= j < file.effect@.len() ==> entry_of(
                        #[trigger] effects.entries_of()[j],
                        file.effect@[j],
                        origin@,
                    ),
                v0 == (VocabView { queries: Seq::empty(), zones: Seq::empty(), horizon: 0 }),
                criteria_spec(v0, file.criterion@, file.criterion@.len() as int) == Ok::<
                    (VocabView, Seq<PredicateView>),
                    ErrorKind,
                >((v1, all_preds)),
                all_preds == pred_views(predicates@),
                names@.len() == file.criterion@.len(),
                predicates@.len() == file.criterion@.len(),
                forall|j: int|
                    0 <= j < file.criterion@.len() ==> (#[trigger] names@[j])@
                        == file.criterion@[j].name->0@,
                probes@.len() == k,
                expects_spec(v1, file.expect@, k as int) matches Ok((v, ps)) && ps == probes@
                    && same_vocab(vocab.view_of(), v),
                expectations@.len() == k,
                forall|j: int|
                    0 <= j < k ==> (#[trigger] expectations@[j]).name@ == file.expect@[j].name->0@,
            decreases file.expect@.len() - k,
        {
            proof {
                let (v, ps) = expects_spec(v1, file.expect@, k as int)->Ok_0;
                lemma_vocab_eq(vocab.view_of(), v);
                assert(file.expect@[(k + 1) - 1] == file.expect@[k as int]);
            }
            let def = &file.expect[k];
            let at = Place::Expectation(k);
            let name = match &def.name {
                Some(n) => n.clone(),
                None => {
                    proof {
                        lemma_expects_err_stays(v1, file.expect@, (k + 1) as int, file.expect@.len() as int);
                    }
                    return Err(ErrorKind::Unnamed { table: Table::Expect, position: k + 1 });
                },
            };
            let query = match &def.query {
                Some(q) => q.clone(),
                None => {
                    proof {
                        lemma_expects_err_stays(v1, file.expect@, (k + 1) as int, file.expect@.len() as int);
                    }
                    return Err(ErrorKind::Missing { at, key: Key::Query });
                },
            };
            let turn = match turn_of(def.turn, at) {
                Ok(t) => t,
                Err(e) => {
                    proof {
                        lemma_expects_err_stays(v1, file.expect@, (k + 1) as int, file.expect@.len() as int);
                    }
                    return Err(e);
                },
            };
            let zone = match zone_of(&def.zone, at) {
                Ok(z) => z,
                Err(e) => {
                    proof {
                        lemma_expects_err_stays(v1, file.expect@, (k + 1) as int, file.expect@.len() as int);
                    }
                    return Err(e);
                },
            };
            let q = vocab.intern(query, turn, zone);
            probes.push(Probe { turn: turn as usize, query: q, zone });
            expectations.push(Expectation { name });
            k += 1;
        }
        proof {
            let (v2, ps) = expects_spec(v1, file.expect@, file.expect@.len() as int)->Ok_0;
            lemma_vocab_eq(vocab.view_of(), v2);
        }
        Ok(Criteria {
            queries: vocab.queries,
            zones: vocab.zones,
            horizon: vocab.horizon,
            names,
            predicates,
            expectations,
            probes,
            effects,
        })
    }
}

proof fn lemma_criteria_err_stays(v0: VocabView, defs: Seq<CriterionSpec>, i: int, n: int)
    requires
        0 <= i <= n,
        criteria_spec(v0, defs, i) is Err,
    ensures
        criteria_spec(v0, defs, n) == criteria_spec(v0, defs, i),
    decreases n - i,
{
    if i < n {
        lemma_criteria_err_stays(v0, defs, i, n - 1);
    }
}

proof fn lemma_expects_err_stays(v0: VocabView, defs: Seq<ExpectSpec>, i: int, n: int)
    requires
        0 <= i <= n,
        expects_spec(v0, defs, i) is Err,
    ensures
        expects_spec(v0, defs, n) == expects_spec(v0, defs, i),
    decreases n - i,
{
    if i < n {
        lemma_expects_err_stays(v0, defs, i, n - 1);
    }
}

/// What a question can be asked about: counting in a zone, or a query.
#[derive(Debug, Clone, Copy, PartialEq, Eq, Structural)]
pub enum Mention {
    Zone(Zone),
    Query(usize),
}

pub open spec fn clause_mentions(c: Clause, m: Mention) -> bool {
    match m {
        Mention::Zone(z) => c.zone == z,
        Mention::Query(q) => c.query == q,
    }
}

pub open spec fn probe_mentions(p: Probe, m: Mention) -> bool {
    match m {
        Mention::Zone(z) => p.zone == z,
        Mention::Query(q) => p.query == q,
    }
}

/// Whether some clause of `p`, wherever it was written, mentions `m`.
pub open spec fn some_clause(p: PredicateView, m: Mention) -> bool {
    (exists|k: int| 0 <= k < p.all.len() && clause_mentions(#[trigger] p.all[k], m)) || (exists|
        b: int,
        k: int,
    | 0 <= b < p.any.len() && 0 <= k < p.any[b].len() && clause_mentions(#[trigger] p.any[b][k], m))
}

/// The first of the first `n` predicates with a clause mentioning `m`.
pub open spec fn first_pred(ps: Seq<PredicateView>, m: Mention, n: int) -> Option<int>
    decreases n,
{
    if n <= 0 {
        None
    } else {
        match first_pred(ps, m, n - 1) {
            Some(i) => Some(i),
            None => if some_clause(ps[n - 1], m) {
                Some(n - 1)
            } else {
                None
            },
        }
    }
}

/// The first of the first `n` probes mentioning `m`.
pub open spec fn first_probe(ps: Seq<Probe>, m: Mention, n: int) -> Option<int>
    decreases n,
{
    if n <= 0 {
        None
    } else {
        match first_probe(ps, m, n - 1) {
            Some(i) => Some(i),
            None => if probe_mentions(ps[n - 1], m) {
                Some(n - 1)
            } else {
                None
            },
        }
    }
}

/// Which question first mentions `m`: a criterion before any expectation.
pub open spec fn asked_first(c: Criteria, m: Mention) -> Option<Seq<char>> {
    match first_pred(c.predicates_of(), m, c.predicates_of().len() as int) {
        Some(i) => Some(c.names_of()[i]),
        None => match first_probe(c.probes_of(), m, c.probes_of().len() as int) {
            Some(j) => Some(c.expectation_names_of()[j]),
            None => None,
        },
    }
}

proof fn lemma_first_pred_stays(ps: Seq<PredicateView>, m: Mention, i: int, n: int)
    requires
        0 <= i <= n,
        first_pred(ps, m, i) is Some,
    ensures
        first_pred(ps, m, n) == first_pred(ps, m, i),
    decreases n - i,
{
    if i < n {
        lemma_first_pred_stays(ps, m, i, n - 1);
    }
}

proof fn lemma_first_probe_stays(ps: Seq<Probe>, m: Mention, i: int, n: int)
    requires
        0 <= i <= n,
        first_probe(ps, m, i) is Some,
    ensures
        first_probe(ps, m, n) == first_probe(ps, m, i),
    decreases n - i,
{
    if i < n {
        lemma_first_probe_stays(ps, m, i, n - 1);
    }
}

fn clause_mention(c: Clause, m: Mention) -> (r: bool)
    ensures
        r == clause_mentions(c, m),
{
    match m {
        Mention::Zone(z) => c.zone == z,
        Mention::Query(q) => c.query == q,
    }
}

/// Whether some clause of `cs` mentions `m`.
fn clauses_mention(cs: &Vec<Clause>, m: Mention) -> (r: bool)
    ensures
        r == exists|k: int| 0 <= k < cs@.len() && clause_mentions(#[trigger] cs@[k], m),
{
    let mut k: usize = 0;
    while k < cs.len()
        invariant
            k <= cs@.len(),
            forall|j: int| 0 <= j < k ==> !clause_mentions(#[trigger] cs@[j], m),
        decreases cs@.len() - k,
    {
        if clause_mention(cs[k], m) {
            return true;
        }
        k += 1;
    }
    false
}

impl Predicate {
    /// Whether some clause, wherever it was written, mentions `m`.
    fn mentions(&self, m: Mention) -> (r: bool)
        ensures
            r == some_clause(self.view_of(), m),
    {
        let ghost pv = self.view_of();
        let in_all = match self {
            Predicate::All(a) => clauses_mention(a, m),
            Predicate::Any(_) => false,
            Predicate::AllAndAny { all, .. } => clauses_mention(all, m),
        };
        proof {
            match self {
                Predicate::All(a) => {
                    assert(pv.all == a@);
                },
                Predicate::AllAndAny { all, .. } => {
                    assert(pv.all == all@);
                },
                Predicate::Any(_) => {
                    assert(pv.all =~= Seq::<Clause>::empty());
                },
            }
            if in_all {
                let k = choose|k: int| 0 <= k < pv.all.len() && clause_mentions(pv.all[k], m);
                assert(clause_mentions(pv.all[k], m));
            }
        }
        if in_all {
            return true;
        }
        let any: Option<&Vec<Vec<Clause>>> = match self {
            Predicate::All(_) => None,
            Predicate::Any(b) => Some(b),
            Predicate::AllAndAny { any, .. } => Some(any),
        };
        match any {
            None => {
                proof {
                    assert(pv.any =~= Seq::<Seq<Clause>>::empty());
                }
                false
            },
            Some(bs) => {
                proof {
                    assert(pv.any == branch_rows(bs@));
                }
                let mut b: usize = 0;
                while b < bs.len()
                    invariant
                        b <= bs@.len(),
                        pv == self.view_of(),
                        pv.any == branch_rows(bs@),
                        forall|x: int, k: int|
                            0 <= x < b && 0 <= k < pv.any[x].len() ==> !clause_mentions(
                                #[trigger] pv.any[x][k],
                                m,
                            ),
                    decreases bs@.len() - b,
                {
                    proof {
                        assert(pv.any[b as int] == bs@[b as int]@);
                    }
                    if clauses_mention(&bs[b], m) {
                        proof {
                            let k = choose|k: int|
                                0 <= k < bs@[b as int]@.len() && clause_mentions(bs@[b as int]@[k], m);
                            assert(clause_mentions(pv.any[b as int][k], m));
                        }
                        return true;
                    }
                    b += 1;
                }
                false
            },
        }
    }
}

/// A count with nowhere to go in a distribution, named against the
/// expectation that produced it.
#[derive(Debug, Clone)]
pub struct EvalError {
    pub name: String,
    pub source: NotACount,
}

impl Criteria {
    /// The `[[effect]]` tables this file declared, in order.
    pub fn effects(&self) -> (r: &EffectLibrary)
        ensures
            *r == self.effects_of(),
    {
        &self.effects
    }

    /// The criteria's names, in file order.
    pub fn criterion_names(&self) -> (r: &[String])
        ensures
            texts(r@) == self.names_of(),
    {
        self.names.as_slice()
    }

    pub fn expectations(&self) -> (r: &[Expectation])
        ensures
            r@.map_values(|e: Expectation| e.name@) == self.expectation_names_of(),
    {
        self.expectations.as_slice()
    }

    /// Every query the file names, deduplicated, in first-mention order.
    pub fn queries(&self) -> (r: &[String])
        ensures
            texts(r@) == self.queries_of(),
    {
        self.queries.as_slice()
    }

    /// Every zone the file asks about, deduplicated, in first-mention order.
    pub fn zones(&self) -> (r: &[Zone])
        ensures
            r@ == self.zones_of(),
    {
        self.zones.as_slice()
    }

    /// The deepest turn the file names.
    pub fn horizon(&self) -> (r: u32)
        ensures
            r == self.horizon_of(),
    {
        self.horizon
    }

    /// How many questions of each kind this file asks.
    pub fn plan(&self) -> (r: Plan)
        ensures
            r.criteria == self.names_of().len(),
            r.expectations == self.expectation_names_of().len(),
    {
        Plan { criteria: self.names.len(), expectations: self.expectations.len() }
    }

    /// The name of the question that first mentions `m`.
    fn first_asking(&self, m: Mention) -> (r: Option<&str>)
        ensures
            match (r, asked_first(*self, m)) {
                (Some(a), Some(b)) => a@ == b,
                (None, None) => true,
                _ => false,
            },
    {
        proof {
            use_type_invariant(self);
        }
        let ghost ps = self.predicates_of();
        let mut i: usize = 0;
        while i < self.predicates.len()
            invariant
                i <= self.predicates@.len(),
                ps == self.predicates_of(),
                ps.len() == self.predicates@.len(),
                self.names@.len() == self.predicates@.len(),
                first_pred(ps, m, i as int) is None,
            decreases self.predicates@.len() - i,
        {
            if self.predicates[i].mentions(m) {
                proof {
                    assert(ps[i as int] == self.predicates@[i as int].view_of());
                    assert(first_pred(ps, m, (i + 1) as int) == Some(i as int));
                    lemma_first_pred_stays(ps, m, (i + 1) as int, ps.len() as int);
                }
                return Some(self.names[i].as_str());
            }
            proof {
                assert(ps[i as int] == self.predicates@[i as int].view_of());
            }
            i += 1;
        }
        let mut j: usize = 0;
        while j < self.probes.len()
            invariant
                j <= self.probes@.len(),
                ps == self.predicates_of(),
                first_pred(ps, m, ps.len() as int) is None,
                self.expectations@.len() == self.probes@.len(),
                first_probe(self.probes@, m, j as int) is None,
            decreases self.probes@.len() - j,
        {
            let hit = match m {
                Mention::Zone(z) => self.probes[j].zone == z,
                Mention::Query(q) => self.probes[j].query == q,
            };
            if hit {
                proof {
                    lemma_first_probe_stays(self.probes@, m, (j + 1) as int, self.probes@.len() as int);
                }
                return Some(self.expectations[j].name.as_str());
            }
            j += 1;
        }
        None
    }

    /// Which question first asked about `zone`.
    pub fn zone_asked_by(&self, zone: Zone) -> (r: Option<&str>)
        ensures
            match (r, asked_first(*self, Mention::Zone(zone))) {
                (Some(a), Some(b)) => a@ == b,
                (None, None) => true,
                _ => false,
            },
    {
        self.first_asking(Mention::Zone(zone))
    }

    /// Which question first named `query`, or `None` when no question did.
    pub fn asked_by(&self, query: &str) -> (r: Option<&str>)
        ensures
            match find_query(self.queries_of(), query@, self.queries_of().len() as int) {
                None => r is None,
                Some(idx) => match (r, asked_first(*self, Mention::Query(idx as usize))) {
                    (Some(a), Some(b)) => a@ == b,
                    (None, None) => true,
                    _ => false,
                },
            },
    {
        let ghost qs = self.queries_of();
        let mut i: usize = 0;
        while i < self.queries.len()
            invariant
                i <= self.queries@.len(),
                qs == self.queries_of(),
                qs.len() == self.queries@.len(),
                find_query(qs, query@, i as int) is None,
            decreases self.queries@.len() - i,
        {
            proof {
                assert(qs[i as int] == self.queries@[i as int]@);
            }
            if str_eq(self.queries[i].as_str(), query) {
                proof {
                    lemma_find_query_stays(qs, query@, (i + 1) as int, qs.len() as int);
                }
                return self.first_asking(Mention::Query(i));
            }
            i += 1;
        }
        None
    }
}

/// What every question answers on one path, in order: whether each
/// criterion holds, and each expectation's count.
pub open spec fn answers(c: Criteria, view: PathView, held: Seq<bool>, counted: Seq<Count>) -> bool {
    &&& held.len() == c.predicates_of().len()
    &&& forall|i: int| 0 <= i < held.len() ==> #[trigger] held[i] == pred_holds(c.predicates_of()[i], view)
    &&& counted.len() == c.probes_of().len()
    &&& forall|j: int|
        0 <= j < counted.len() ==> (#[trigger] counted[j]).value() == view.count_spec(
            c.probes_of()[j].turn as int,
            c.probes_of()[j].query as int,
            c.probes_of()[j].zone,
        )
}

impl Evaluator for Criteria {
    type Error = EvalError;

    /// Every question against one path. An expectation whose count has no
    /// bucket is refused by name; the first such one is the one named.
    fn evaluate(&mut self, view: &PathView) -> (r: Result<PathOutcomes, EvalError>)
        ensures
            match r {
                Ok(o) => answers(*final(self), *view, o.held@, o.counted@),
                Err(e) => exists|j: int|
                    0 <= j < final(self).probes_of().len() && e.source.value == view.count_spec(
                        final(self).probes_of()[j].turn as int,
                        final(self).probes_of()[j].query as int,
                        final(self).probes_of()[j].zone,
                    ) && e.source.value > MAX_COUNT
                        && e.name@ == final(self).expectation_names_of()[j],
            },
            *final(self) == *old(self),
    {
        proof {
            use_type_invariant(&*self);
        }
        let mut held: Vec<bool> = Vec::new();
        let mut i: usize = 0;
        while i < self.predicates.len()
            invariant
                i <= self.predicates@.len(),
                held@.len() == i,
                forall|k: int|
                    0 <= k < i ==> #[trigger] held@[k] == pred_holds(self.predicates_of()[k], *view),
            decreases self.predicates@.len() - i,
        {
            held.push(self.predicates[i].holds(view));
            i += 1;
        }
        let mut counted: Vec<Count> = Vec::new();
        let mut j: usize = 0;
        while j < self.probes.len()
            invariant
                j <= self.probes@.len(),
                self.expectations@.len() == self.probes@.len(),
                counted@.len() == j,
                forall|k: int|
                    0 <= k < j ==> (#[trigger] counted@[k]).value() == view.count_spec(
                        self.probes@[k].turn as int,
                        self.probes@[k].query as int,
                        self.probes@[k].zone,
                    ),
            decreases self.probes@.len() - j,
        {
            let p = self.probes[j];
            let seen = view.count_in(p.turn, p.query, p.zone);
            match Count::new(seen) {
                Ok(c) => counted.push(c),
                Err(source) => {
                    let name = self.expectations[j].name.clone();
                    proof {
                        assert(self.expectation_names_of()[j as int] == self.expectations@[j as int].name@);
                        assert(source.value == view.count_spec(
                            self.probes_of()[j as int].turn as int,
                            self.probes_of()[j as int].query as int,
                            self.probes_of()[j as int].zone,
                        ));
                    }
                    return Err(EvalError { name, source });
                },
            }
            j += 1;
        }
        Ok(PathOutcomes { held, counted })
    }
}

} // verus!

verus! {

/// `n` in decimal.
pub open spec fn num(n: int) -> Seq<char> {
    decimal_spec(n as nat)
}

/// `v` in decimal, with a leading `-` when negative.
pub open spec fn signed_num(v: int) -> Seq<char> {
    if v < 0 {
        seq!['-'] + decimal_spec((-v) as nat)
    } else {
        decimal_spec(v as nat)
    }
}

/// The name of criterion `c`, quoted as `{:?}` quotes it; empty where the
/// file gave none.
pub open spec fn quoted_name(names: Seq<String>, c: int) -> Seq<char> {
    debug_text(
        if 0 <= c < names.len() {
            names[c]@
        } else {
            Seq::empty()
        },
    )
}

/// How a refusal names the place in the file it is about, tables counted
/// from one.
pub open spec fn place_text(at: Place, names: Seq<String>) -> Seq<char> {
    match at {
        Place::Effect(i) => "[[effect]] number "@ + num(i + 1),
        Place::Clause { criterion, clause } => "criterion "@ + quoted_name(names, criterion as int)
            + ", clause "@ + num(clause + 1),
        Place::BranchClause { criterion, branch, clause } => "criterion "@ + quoted_name(
            names,
            criterion as int,
        ) + ", any_of branch "@ + num(branch + 1) + ", clause "@ + num(clause + 1),
        Place::Expectation(i) => "expectation "@ + quoted_name(names, i as int),
    }
}

/// The key a table was missing, as the file spells it.
pub open spec fn key_text(key: Key) -> Seq<char> {
    match key {
        Key::Match => "match"@,
        Key::On => "on"@,
        Key::Look => "look"@,
        Key::Query => "query"@,
        Key::Turn => "turn"@,
    }
}

/// A bound of a clause, as the file spells it.
pub open spec fn bound_text(b: Bound) -> Seq<char> {
    match b {
        Bound::Min => "min"@,
        Bound::Max => "max"@,
    }
}

/// What is wrong, in words, naming criteria by `names`.
pub open spec fn kind_text(kind: ErrorKind, names: Seq<String>) -> Seq<char> {
    match kind {
        ErrorKind::AsksNothing => "no [[criterion]] and no [[expect]] tables, so this file asks nothing"@,
        ErrorKind::Unnamed { table, position } => (match table {
            Table::Criterion => "[[criterion]]"@,
            Table::Expect => "[[expect]]"@,
        }) + " number "@ + num(position as int)
            + " has no `name`, and a report refers to a question by its name"@,
        ErrorKind::NoClauses { criterion } => "criterion number "@ + num(criterion + 1)
            + " has neither `require` nor `any_of`"@,
        ErrorKind::EmptyAnyOf { criterion } => "criterion number "@ + num(criterion + 1)
            + " has an empty `any_of`"@,
        ErrorKind::EmptyBranch { criterion, position } => "criterion number "@ + num(criterion + 1)
            + ", any_of branch "@ + num(position as int) + " has no `require` clauses"@,
        ErrorKind::Missing { at, key } => place_text(at, names) + ": no `"@ + key_text(key) + "`"@,
        ErrorKind::NoBounds { at } => place_text(at, names)
            + ": has neither `min` nor `max`, so it asks nothing"@,
        ErrorKind::EmptyRange { at, min, max } => place_text(at, names) + ": `min = "@ + num(
            min as int,
        ) + "` is above `max = "@ + num(max as int) + "`"@,
        ErrorKind::BadCount { at, key, value } => place_text(at, names) + ": `"@ + bound_text(key)
            + " = "@ + signed_num(value as int) + "` is not a number of cards"@,
        ErrorKind::BadTurn { at, turn } => place_text(at, names) + ": `turn = "@ + signed_num(
            turn as int,
        ) + "` is not a turn"@,
        ErrorKind::BadThreshold { criterion } => "criterion number "@ + num(criterion + 1)
            + ": `at_least` is not a probability, so 70% is written 0.70"@,
        ErrorKind::BadTrigger { effect, needs_mana } => "[[effect]] number "@ + num(effect + 1)
            + (if needs_mana {
            ": a trigger on a cast needs the mana model"@
        } else {
            ": not a trigger this tool fires"@
        }),
        ErrorKind::BadLook { effect, look } => "[[effect]] number "@ + num(effect + 1) + ": `look = "@
            + signed_num(look as int) + "` is not a number of cards to examine"@,
        ErrorKind::BadZone { at, battlefield } => place_text(at, names) + (if battlefield {
            ": the battlefield is not modelled here"@
        } else {
            ": not a zone this tool knows"@
        }),
    }
}

fn push_num(out: &mut Vec<char>, n: u128)
    ensures
        final(out)@ == old(out)@ + num(n as int),
{
    let d = decimal_wide(n);
    push_chars(out, d.as_slice());
}

fn push_signed(out: &mut Vec<char>, v: i64)
    ensures
        final(out)@ == old(out)@ + signed_num(v as int),
{
    if v < 0 {
        out.push('-');
        let magnitude: u128 = (0i128 - (v as i128)) as u128;
        push_num(out, magnitude);
        proof {
            assert(out@ =~= old(out)@ + signed_num(v as int));
        }
    } else {
        push_num(out, v as u128);
    }
}

fn push_quoted_name(out: &mut Vec<char>, names: &[String], c: usize)
    ensures
        final(out)@ == old(out)@ + quoted_name(names@, c as int),
{
    let q = if c < names.len() {
        debug_quoted(names[c].as_str())
    } else {
        proof {
            reveal_strlit("");
            assert(""@ =~= Seq::<char>::empty());
        }
        debug_quoted("")
    };
    let chars = chars_of(q.as_str());
    push_chars(out, chars.as_slice());
}

fn push_place(out: &mut Vec<char>, at: Place, names: &[String])
    ensures
        final(out)@ == old(out)@ + place_text(at, names@),
{
    let ghost start = out@;
    match at {
        Place::Effect(i) => {
            push_str(out, "[[effect]] number ");
            push_num(out, i as u128 + 1);
        },
        Place::Clause { criterion, clause } => {
            push_str(out, "criterion ");
            push_quoted_name(out, names, criterion);
            push_str(out, ", clause ");
            push_num(out, clause as u128 + 1);
        },
        Place::BranchClause { criterion, branch, clause } => {
            push_str(out, "criterion ");
            push_quoted_name(out, names, criterion);
            push_str(out, ", any_of branch ");
            push_num(out, branch as u128 + 1);
            push_str(out, ", clause ");
            push_num(out, clause as u128 + 1);
        },
        Place::Expectation(i) => {
            push_str(out, "expectation ");
            push_quoted_name(out, names, i);
        },
    }
    proof {
        assert(out@ =~= start + place_text(at, names@));
    }
}

impl CriteriaError {
    /// The refusal in words: the file it is about, then what is wrong and
    /// where, naming criteria by `criterion_names`.
    pub fn message(&self, criterion_names: &[String]) -> (r: String)
        ensures
            r@ == self.origin@ + ": "@ + kind_text(self.kind, criterion_names@),
    {
        let mut out: Vec<char> = Vec::new();
        push_str(&mut out, self.origin.as_str());
        push_str(&mut out, ": ");
        let ghost start = out@;
        match self.kind {
            ErrorKind::AsksNothing => {
                push_str(&mut out, "no [[criterion]] and no [[expect]] tables, so this file asks nothing");
            },
            ErrorKind::Unnamed { table, position } => {
                match table {
                    Table::Criterion => push_str(&mut out, "[[criterion]]"),
                    Table::Expect => push_str(&mut out, "[[expect]]"),
                }
                push_str(&mut out, " number ");
                push_num(&mut out, position as u128);
                push_str(&mut out, " has no `name`, and a report refers to a question by its name");
            },
            ErrorKind::NoClauses { criterion } => {
                push_str(&mut out, "criterion number ");
                push_num(&mut out, criterion as u128 + 1);
                push_str(&mut out, " has neither `require` nor `any_of`");
            },
            ErrorKind::EmptyAnyOf { criterion } => {
                push_str(&mut out, "criterion number ");
                push_num(&mut out, criterion as u128 + 1);
                push_str(&mut out, " has an empty `any_of`");
            },
            ErrorKind::EmptyBranch { criterion, position } => {
                push_str(&mut out, "criterion number ");
                push_num(&mut out, criterion as u128 + 1);
                push_str(&mut out, ", any_of branch ");
                push_num(&mut out, position as u128);
                push_str(&mut out, " has no `require` clauses");
            },
            ErrorKind::Missing { at, key } => {
                push_place(&mut out, at, criterion_names);
                push_str(&mut out, ": no `");
                match key {
                    Key::Match => push_str(&mut out, "match"),
                    Key::On => push_str(&mut out, "on"),
                    Key::Look => push_str(&mut out, "look"),
                    Key::Query => push_str(&mut out, "query"),
                    Key::Turn => push_str(&mut out, "turn"),
                }
                push_str(&mut out, "`");
            },
            ErrorKind::NoBounds { at } => {
                push_place(&mut out, at, criterion_names);
                push_str(&mut out, ": has neither `min` nor `max`, so it asks nothing");
            },
            ErrorKind::EmptyRange { at, min, max } => {
                push_place(&mut out, at, criterion_names);
                push_str(&mut out, ": `min = ");
                push_num(&mut out, min as u128);
                push_str(&mut out, "` is above `max = ");
                push_num(&mut out, max as u128);
                push_str(&mut out, "`");
            },
            ErrorKind::BadCount { at, key, value } => {
                push_place(&mut out, at, criterion_names);
                push_str(&mut out, ": `");
                match key {
                    Bound::Min => push_str(&mut out, "min"),
                    Bound::Max => push_str(&mut out, "max"),
                }
                push_str(&mut out, " = ");
                push_signed(&mut out, value);
                push_str(&mut out, "` is not a number of cards");
            },
            ErrorKind::BadTurn { at, turn } => {
                push_place(&mut out, at, criterion_names);
                push_str(&mut out, ": `turn = ");
                push_signed(&mut out, turn);
                push_str(&mut out, "` is not a turn");
            },
            ErrorKind::BadThreshold { criterion } => {
                push_str(&mut out, "criterion number ");
                push_num(&mut out, criterion as u128 + 1);
                push_str(&mut out, ": `at_least` is not a probability, so 70% is written 0.70");
            },
            ErrorKind::BadTrigger { effect, needs_mana } => {
                push_str(&mut out, "[[effect]] number ");
                push_num(&mut out, effect as u128 + 1);
                if needs_mana {
                    push_str(&mut out, ": a trigger on a cast needs the mana model");
                } else {
                    push_str(&mut out, ": not a trigger this tool fires");
                }
            },
            ErrorKind::BadLook { effect, look } => {
                push_str(&mut out, "[[effect]] number ");
                push_num(&mut out, effect as u128 + 1);
                push_str(&mut out, ": `look = ");
                push_signed(&mut out, look);
                push_str(&mut out, "` is not a number of cards to examine");
            },
            ErrorKind::BadZone { at, battlefield } => {
                push_place(&mut out, at, criterion_names);
                if battlefield {
                    push_str(&mut out, ": the battlefield is not modelled here");
                } else {
                    push_str(&mut out, ": not a zone this tool knows");
                }
            },
        }
        proof {
            assert(out@ =~= self.origin@ + ": "@ + kind_text(self.kind, criterion_names@));
        }
        string_of(out.as_slice())
    }
}

} // verus!

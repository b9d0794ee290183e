//! What a run reports besides its numbers: which answers are estimates,
//! what the run was able to ask about, what produced it, and the refusals it
//! gives in place of a confidently wrong number.

use vstd::prelude::*;
use sha2::{Digest, Sha256};
use crate::engine::Plan;
use crate::query::{debug_quoted, debug_text};
use crate::index::{TagGap, TagVocabulary};
use crate::library::Library;
use crate::text::{chars_of, decimal, decimal_spec, push_chars, push_str, string_of, string_views};

verus! {

/// Which answers came from the sampler rather than from the enumeration:
/// one flag per question, in registration order.
#[derive(Debug, Clone, Default, PartialEq, Eq)]
pub struct Estimated {
    pub criteria: Vec<bool>,
    pub expectations: Vec<bool>,
}

impl Estimated {
    /// Nothing estimated: one flag per question, all false.
    pub fn none(plan: Plan) -> (r: Estimated)
        ensures
            r.criteria@ == Seq::new(plan.criteria as nat, |i: int| false),
            r.expectations@ == Seq::new(plan.expectations as nat, |i: int| false),
    {
        let mut criteria: Vec<bool> = Vec::new();
        let mut i: usize = 0;
        while i < plan.criteria
            invariant
                i <= plan.criteria,
                criteria@ == Seq::new(i as nat, |k: int| false),
            decreases plan.criteria - i,
        {
            criteria.push(false);
            i += 1;
            proof {
                assert(criteria@ =~= Seq::new(i as nat, |k: int| false));
            }
        }
        let mut expectations: Vec<bool> = Vec::new();
        let mut j: usize = 0;
        while j < plan.expectations
            invariant
                j <= plan.expectations,
                expectations@ == Seq::new(j as nat, |k: int| false),
            decreases plan.expectations - j,
        {
            expectations.push(false);
            j += 1;
            proof {
                assert(expectations@ =~= Seq::new(j as nat, |k: int| false));
            }
        }
        Estimated { criteria, expectations }
    }

    /// Whether any answer is an estimate.
    pub fn any(&self) -> (r: bool)
        ensures
            r == (self.criteria@.contains(true) || self.expectations@.contains(true)),
    {
        let mut i: usize = 0;
        while i < self.criteria.len()
            invariant
                i <= self.criteria@.len(),
                forall|k: int| 0 <= k < i ==> !self.criteria@[k],
            decreases self.criteria@.len() - i,
        {
            if self.criteria[i] {
                proof {
                    assert(self.criteria@[i as int]);
                }
                return true;
            }
            i += 1;
        }
        let mut j: usize = 0;
        while j < self.expectations.len()
            invariant
                j <= self.expectations@.len(),
                forall|k: int| 0 <= k < self.criteria@.len() ==> !self.criteria@[k],
                forall|k: int| 0 <= k < j ==> !self.expectations@[k],
            decreases self.expectations@.len() - j,
        {
            if self.expectations[j] {
                proof {
                    assert(self.expectations@[j as int]);
                }
                return true;
            }
            j += 1;
        }
        false
    }

    /// Whether every answer is an estimate (so, vacuously, when there are
    /// none).
    pub fn all(&self) -> (r: bool)
        ensures
            r == (!self.criteria@.contains(false) && !self.expectations@.contains(false)),
    {
        let mut i: usize = 0;
        while i < self.criteria.len()
            invariant
                i <= self.criteria@.len(),
                forall|k: int| 0 <= k < i ==> self.criteria@[k],
            decreases self.criteria@.len() - i,
        {
            if !self.criteria[i] {
                proof {
                    assert(!self.criteria@[i as int]);
                }
                return false;
            }
            i += 1;
        }
        let mut j: usize = 0;
        while j < self.expectations.len()
            invariant
                j <= self.expectations@.len(),
                forall|k: int| 0 <= k < self.criteria@.len() ==> self.criteria@[k],
                forall|k: int| 0 <= k < j ==> self.expectations@[k],
            decreases self.expectations@.len() - j,
        {
            if !self.expectations[j] {
                proof {
                    assert(!self.expectations@[j as int]);
                }
                return false;
            }
            j += 1;
        }
        true
    }
}

impl Estimated {
    /// What a run as a whole was: `exact` where nothing was estimated,
    /// `sampled` where everything was, and `mixed` where a file's questions
    /// were answered both ways.
    pub fn method(&self) -> (r: &'static str)
        ensures
            r@ == if !(self.criteria@.contains(true) || self.expectations@.contains(true)) {
                "exact"@
            } else if !self.criteria@.contains(false) && !self.expectations@.contains(false) {
                "sampled"@
            } else {
                "mixed"@
            },
    {
        if !self.any() {
            "exact"
        } else if self.all() {
            "sampled"
        } else {
            "mixed"
        }
    }
}

/// How many library cards a query actually matched.
#[derive(Debug, Clone)]
pub struct QueryMatch {
    pub query: String,
    pub cards: u32,
}

/// A zone the criteria file asked about, and whether anything can put a card
/// there.
#[derive(Debug, Clone)]
pub struct ZoneUse {
    pub zone: &'static str,
    /// False when nothing in this run routes a card into the zone.
    pub reachable: bool,
    /// The question that first named it.
    pub asked_by: String,
}

/// An effect the library brought to bear on this deck, and what it applied
/// to.
#[derive(Debug, Clone)]
pub struct EffectUse {
    pub matches: String,
    pub look: u32,
    pub on: &'static str,
    /// The routing policy, or `None` where none was declared.
    pub to_graveyard: Option<String>,
    /// Which file declared it.
    pub source: String,
    /// The cards it applied to, after the overlap was resolved.
    pub cards: Vec<String>,
    pub copies: u32,
    /// Whether this effect can move a number.
    pub live: bool,
}

/// A listed card that never enters the library.
#[derive(Debug, Clone)]
pub struct ExcludedCard {
    pub name: String,
    pub qty: u32,
    pub card_type: &'static str,
}

/// What produced a report, as opposed to what it says.
#[derive(Debug, Clone)]
pub struct Provenance {
    pub tool_version: &'static str,
    /// When the card index was built, or `None` when the index never said.
    pub index_updated_at: Option<String>,
    /// SHA-256 of the decklist file exactly as it was read.
    pub deck_sha256: String,
    /// SHA-256 of the criteria file exactly as it was read.
    pub criteria_sha256: String,
    /// SHA-256 of the standard effect library exactly as it shipped.
    pub effect_library_sha256: String,
}

/// Why a run sampled rather than enumerated.
#[derive(Debug, Clone, Copy)]
pub enum WhySampled {
    /// The caller asked for the sampling engine.
    Requested,
    /// Exact enumeration was refused at this width, so the run fell back.
    TooWide { paths: u128, groups: usize },
}

/// The knobs a sampled run has and an exact run has no honest answer for.
#[derive(Debug, Clone, Copy)]
pub struct Sampling {
    pub trials: u32,
    pub seed: u64,
    pub why: WhySampled,
}

/// The run these numbers describe: which seat, and which engine answered.
#[derive(Debug, Clone, Copy)]
pub struct Scenario {
    pub on_the_draw: bool,
    pub sampled: Option<Sampling>,
}

/// The declared priority a run resolved its land drops by.
#[derive(Debug, Clone)]
pub struct LandDropUse {
    /// What the file wrote, highest priority first.
    pub prefer: Vec<String>,
    /// The tier the file did not write.
    pub then: &'static str,
    /// How a tie inside one entry was settled.
    pub tie_break: &'static str,
}

/// What the run was able to ask about, as opposed to what it answered.
#[derive(Debug, Clone)]
pub struct Breakdown {
    pub queries: Vec<QueryMatch>,
    pub zones: Vec<ZoneUse>,
    pub effects: Vec<EffectUse>,
    /// Lands whose tapped-ness this run decided for the pilot.
    pub assumed_tapped: Vec<String>,
    /// The priority that decided the land drop, where the file declared one.
    pub land_drop: Option<LandDropUse>,
}

/// What one answer says about where it came from.
pub fn method_of(estimated: bool) -> (r: &'static str)
    ensures
        r@ == if estimated {
            "sampled"@
        } else {
            "exact"@
        },
{
    if estimated {
        "sampled"
    } else {
        "exact"
    }
}

/// The SHA-256 digest of some bytes, which is 32 bytes long. The algorithm
/// is not restated here.
pub uninterp spec fn sha256_of(bytes: Seq<u8>) -> Seq<u8>;

/// `Sha256::digest` from `sha2`, its 32 bytes copied out.
#[verifier::external_body]
fn digest(bytes: &[u8]) -> (r: Vec<u8>)
    ensures
        r@ == sha256_of(bytes@),
        r@.len() == 32,
{
    Sha256::digest(bytes).to_vec()
}

/// The lowercase hex digit for `d`, which is below sixteen.
pub open spec fn hex_digit(d: int) -> char {
    if d < 10 {
        (('0' as int) + d) as char
    } else {
        (('a' as int) + d - 10) as char
    }
}

/// Each byte as two lowercase hex digits, high first.
pub open spec fn hex_of(bytes: Seq<u8>) -> Seq<char>
    decreases bytes.len(),
{
    if bytes.len() == 0 {
        Seq::empty()
    } else {
        hex_of(bytes.drop_last()) + seq![
            hex_digit(bytes.last() as int / 16),
            hex_digit(bytes.last() as int % 16),
        ]
    }
}

fn hex_char(d: u8) -> (c: char)
    requires
        d < 16,
    ensures
        c == hex_digit(d as int),
{
    let digits: [char; 16] = [
        '0',
        '1',
        '2',
        '3',
        '4',
        '5',
        '6',
        '7',
        '8',
        '9',
        'a',
        'b',
        'c',
        'd',
        'e',
        'f',
    ];
    let c = digits[d as usize];
    proof {
        assert(c == hex_digit(d as int));
    }
    c
}

/// SHA-256 of some bytes, in lowercase hex.
pub fn sha256_hex(bytes: &[u8]) -> (r: String)
    ensures
        r@ == hex_of(sha256_of(bytes@)),
        r@.len() == 64,
{
    let d = digest(bytes);
    let mut out: Vec<char> = Vec::new();
    let mut i: usize = 0;
    while i < d.len()
        invariant
            i <= d@.len() == 32,
            out@ == hex_of(d@.subrange(0, i as int)),
            out@.len() == 2 * i,
        decreases d@.len() - i,
    {
        let b = d[i];
        out.push(hex_char(b / 16));
        out.push(hex_char(b % 16));
        i += 1;
        proof {
            assert(d@.subrange(0, i as int).drop_last() =~= d@.subrange(0, i - 1));
        }
    }
    proof {
        assert(d@.subrange(0, 32) =~= d@);
    }
    string_of(out.as_slice())
}

/// The parts of `parts`, one after another with `sep` between each two.
pub open spec fn joined_with(parts: Seq<Seq<char>>, sep: Seq<char>) -> Seq<char>
    decreases parts.len(),
{
    if parts.len() == 0 {
        Seq::empty()
    } else if parts.len() == 1 {
        parts[0]
    } else {
        joined_with(parts.drop_last(), sep) + sep + parts.last()
    }
}

/// Appends `parts`, joined with `sep`, each with `prefix` before it.
fn push_joined(out: &mut Vec<char>, parts: &[String], prefix: &str, sep: &str)
    ensures
        final(out)@ == old(out)@ + joined_with(
            parts@.map_values(|p: String| prefix@ + p@),
            sep@,
        ),
{
    let ghost start = out@;
    let ghost ps = parts@.map_values(|p: String| prefix@ + p@);
    let mut i: usize = 0;
    while i < parts.len()
        invariant
            i <= parts@.len(),
            ps == parts@.map_values(|p: String| prefix@ + p@),
            out@ == start + joined_with(ps.subrange(0, i as int), sep@),
        decreases parts@.len() - i,
    {
        let ghost before = out@;
        if i > 0 {
            push_str(out, sep);
        }
        push_str(out, prefix);
        push_str(out, parts[i].as_str());
        proof {
            let sub = ps.subrange(0, i + 1);
            assert(sub.drop_last() =~= ps.subrange(0, i as int));
            assert(sub.last() == prefix@ + parts@[i as int]@);
            if i == 0 {
                assert(sub.len() == 1);
                assert(out@ =~= start + joined_with(sub, sep@));
            } else {
                assert(out@ =~= start + joined_with(sub, sep@));
            }
        }
        i += 1;
    }
    proof {
        assert(ps.subrange(0, parts@.len() as int) =~= ps);
    }
}

/// What to say when a `kw:` term names a keyword no card in the index
/// carries: counting it would be zero by construction, which reads exactly
/// like a deck that plays none.
pub open spec fn unknown_keyword_text(unknown: Seq<String>) -> Seq<char> {
    "no card in this index has "@ + joined_with(
        unknown.map_values(|k: String| "kw:"@ + k@),
        ", "@,
    )
        + ", so counting it would be zero by construction\n      rather than by measurement — which reads exactly like a deck that plays none. The\n      index lists every keyword the whole card pool carries, so this is a misspelling\n      unless it is newer than the index. Check the spelling; rebuild with: progress-engine sync"@
}

/// The refusal for `kw:` terms that name no keyword in the index, as
/// [`unknown_keyword_text`] says.
pub fn unknown_keyword_refusal(unknown: &[String]) -> (r: String)
    ensures
        r@ == unknown_keyword_text(unknown@),
{
    let mut out: Vec<char> = Vec::new();
    push_str(&mut out, "no card in this index has ");
    push_joined(&mut out, unknown, "kw:", ", ");
    push_str(
        &mut out,
        ", so counting it would be zero by construction\n      rather than by measurement — which reads exactly like a deck that plays none. The\n      index lists every keyword the whole card pool carries, so this is a misspelling\n      unless it is newer than the index. Check the spelling; rebuild with: progress-engine sync",
    );
    proof {
        assert(out@ =~= unknown_keyword_text(unknown@));
    }
    string_of(out.as_slice())
}

/// What to say when a battlefield count names cards that are not lands: a
/// land arrives on a free land drop, everything else has to be cast.
pub open spec fn battlefield_text(query: Seq<char>, spells: Seq<String>) -> Seq<char> {
    "`zone = \"battlefield\"` in query "@ + debug_text(query)
        + " is only answerable for lands, and this query matches "@ + decimal_spec(
        spells.len(),
    ) + "\n      that "@ + (if spells.len() == 1 {
        "is not"@
    } else {
        "are not"@
    }) + ": "@ + joined_with(spells.map_values(|k: String| ""@ + k@), ", "@)
        + ".\n      A land arrives on a land drop, which is free and one a turn, so this engine knows when it\n      got there. Everything else has to be cast, and which spells you cast when you cannot cast\n      them all is the budget half of the mana model (https://github.com/cramt/progress-engine/issues/10).\n      Narrow the query to lands, or ask about `hand` and know that is what you asked."@
}

/// The refusal for a battlefield count over spells, as
/// [`battlefield_text`] says.
pub fn battlefield_refusal(query: &str, spells: &[String]) -> (r: String)
    requires
        spells@.len() <= u64::MAX,
    ensures
        r@ == battlefield_text(query@, spells@),
{
    let mut out: Vec<char> = Vec::new();
    push_str(&mut out, "`zone = \"battlefield\"` in query ");
    let q = debug_quoted(query);
    push_str(&mut out, q.as_str());
    push_str(&mut out, " is only answerable for lands, and this query matches ");
    let n = decimal(spells.len() as u64);
    push_chars(&mut out, n.as_slice());
    push_str(&mut out, "\n      that ");
    if spells.len() == 1 {
        push_str(&mut out, "is not");
    } else {
        push_str(&mut out, "are not");
    }
    push_str(&mut out, ": ");
    push_joined(&mut out, spells, "", ", ");
    push_str(
        &mut out,
        ".\n      A land arrives on a land drop, which is free and one a turn, so this engine knows when it\n      got there. Everything else has to be cast, and which spells you cast when you cannot cast\n      them all is the budget half of the mana model (https://github.com/cramt/progress-engine/issues/10).\n      Narrow the query to lands, or ask about `hand` and know that is what you asked.",
    );
    proof {
        assert(out@ =~= battlefield_text(query@, spells@));
    }
    string_of(out.as_slice())
}

/// Why a mana question beside a live land-drop effect, with no priority
/// declared, is refused: both answer which land was played this turn, and
/// the refusal names the declaration that settles it.
pub open spec fn mana_beside_effects_text() -> Seq<char> {
    "a mana question and a live land-drop effect are both answers to which land you played this turn,\n      and this file declares no priority between them. With none declared the effect plays the\n      deepest-looking land in hand and the mana question assumes whichever land pays, which are\n      two answers to one drop — so this is refused rather than arbitrated.\n      Declare the priority and both read the same drop:\n\n      [land_drop]\n      prefer = ['otag:surveil', 't:land -otag:tapland']\n\n      The list is read in order, the first entry a land in hand matches wins, and any land the list\n      does not name is played last."@
}

/// The refusal [`mana_beside_effects_text`] gives.
pub fn mana_beside_effects_refusal() -> (r: String)
    ensures
        r@ == mana_beside_effects_text(),
{
    let mut out: Vec<char> = Vec::new();
    push_str(
        &mut out,
        "a mana question and a live land-drop effect are both answers to which land you played this turn,\n      and this file declares no priority between them. With none declared the effect plays the\n      deepest-looking land in hand and the mana question assumes whichever land pays, which are\n      two answers to one drop — so this is refused rather than arbitrated.\n      Declare the priority and both read the same drop:\n\n      [land_drop]\n      prefer = ['otag:surveil', 't:land -otag:tapland']\n\n      The list is read in order, the first entry a land in hand matches wins, and any land the list\n      does not name is played last.",
    );
    proof {
        assert(out@ =~= mana_beside_effects_text());
    }
    string_of(out.as_slice())
}

/// The warning a run gives when the index predates fields queries read:
/// such a term matches nothing rather than failing, which reads the same as
/// a deck that has none.
pub open spec fn stale_index_text() -> Seq<char> {
    "note: this index was built before some of the fields queries now read.\nTerms such as produces:, c:, pow: and f: will match nothing rather than fail, which reads\n      the same as a deck that has none. Rebuild it with: progress-engine sync"@
}

/// The warning [`stale_index_text`] gives, when the index is stale.
pub fn stale_index_note(library: &Library) -> (r: Option<String>)
    ensures
        match r {
            Some(s) => library.index_is_stale && s@ == stale_index_text(),
            None => !library.index_is_stale,
        },
{
    if library.index_is_stale {
        let text = chars_of(
            "note: this index was built before some of the fields queries now read.\nTerms such as produces:, c:, pow: and f: will match nothing rather than fail, which reads\n      the same as a deck that has none. Rebuild it with: progress-engine sync",
        );
        Some(string_of(text.as_slice()))
    } else {
        None
    }
}

/// Which of the two tapland tags the index does not carry, in that order.
pub open spec fn missing_tapland_tags(tags: TagVocabulary) -> Seq<Seq<char>> {
    (if tags.carried_of().contains("tapland"@) {
        Seq::empty()
    } else {
        seq!["tapland"@]
    }) + (if tags.carried_of().contains("conditional-tapland"@) {
        Seq::empty()
    } else {
        seq!["conditional-tapland"@]
    })
}

/// Why the index cannot price a cost: it predates what a land produces, or
/// it lacks the tags that say which lands enter tapped. Either way every
/// land would read as something it is not.
pub open spec fn cannot_price_text(library: Library) -> Option<Seq<char>> {
    if library.index_is_stale {
        Some(
            "this index was built before it recorded what a land produces, so every land in it makes\n      no mana and every cost would be unpayable. Rebuild it with: progress-engine sync"@,
        )
    } else {
        let missing = missing_tapland_tags(library.index_tags);
        if missing.len() == 0 {
            None
        } else {
            Some(
                "this index does not carry "@ + joined_with(
                    missing.map_values(|t: Seq<char>| "otag:"@ + t),
                    " or "@,
                )
                    + ", so it cannot say which lands enter tapped.\n      A land that enters tapped makes no mana the turn it arrives, which is the difference between\n      two lands and two mana — and without the tag every land here would read as untapped, which\n      is the optimistic answer rather than the measured one. This index carries: "@
                    + joined_with(
                    library.index_tags.carried_of().map_values(|t: Seq<char>| ""@ + t),
                    ", "@,
                )
                    + ".\n      Fetch them with: progress-engine sync   (--from cannot: they come from the search API)"@,
            )
        }
    }
}

/// Why this index cannot price a cost, as [`cannot_price_text`] says, or
/// `None` when it can.
pub fn cannot_price_mana(library: &Library) -> (r: Option<String>)
    ensures
        match r {
            Some(s) => cannot_price_text(*library) == Some(s@),
            None => cannot_price_text(*library) is None,
        },
{
    if library.index_is_stale {
        let text = chars_of(
            "this index was built before it recorded what a land produces, so every land in it makes\n      no mana and every cost would be unpayable. Rebuild it with: progress-engine sync",
        );
        return Some(string_of(text.as_slice()));
    }
    let mut missing: Vec<String> = Vec::new();
    if !library.index_tags.contains("tapland") {
        missing.push(string_of(chars_of("tapland").as_slice()));
    }
    if !library.index_tags.contains("conditional-tapland") {
        missing.push(string_of(chars_of("conditional-tapland").as_slice()));
    }
    let ghost wanted = missing_tapland_tags(library.index_tags);
    proof {
        assert(missing@.map_values(|p: String| p@) =~= wanted);
    }
    if missing.len() == 0 {
        return None;
    }
    let mut out: Vec<char> = Vec::new();
    push_str(&mut out, "this index does not carry ");
    push_joined(&mut out, missing.as_slice(), "otag:", " or ");
    push_str(
        &mut out,
        ", so it cannot say which lands enter tapped.\n      A land that enters tapped makes no mana the turn it arrives, which is the difference between\n      two lands and two mana — and without the tag every land here would read as untapped, which\n      is the optimistic answer rather than the measured one. This index carries: ",
    );
    let carried = library.index_tags.carried();
    push_joined(&mut out, carried.as_slice(), "", ", ");
    push_str(
        &mut out,
        ".\n      Fetch them with: progress-engine sync   (--from cannot: they come from the search API)",
    );
    proof {
        assert(missing@.map_values(|p: String| "otag:"@ + p@) =~= wanted.map_values(
            |t: Seq<char>| "otag:"@ + t,
        ));
        assert(carried@.map_values(|p: String| ""@ + p@) =~= library.index_tags.carried_of().map_values(
            |t: Seq<char>| ""@ + t,
        ));
        assert(out@ =~= cannot_price_text(*library)->0);
    }
    Some(string_of(out.as_slice()))
}

/// The notes for queries that matched nothing, the first `n` of them.
pub open spec fn query_notes_text(qs: Seq<QueryMatch>, n: int) -> Seq<char>
    decreases n,
{
    if n <= 0 {
        Seq::empty()
    } else {
        query_notes_text(qs, n - 1) + if qs[n - 1].cards == 0 {
            "note: query "@ + debug_text(qs[n - 1].query@) + " matched no cards in this deck\n"@
        } else {
            Seq::empty()
        }
    }
}

/// A note for every query that matched no card in the deck: a query that
/// silently matches nothing yields a confidently wrong number.
pub fn query_notes(queries: &[QueryMatch]) -> (r: String)
    ensures
        r@ == query_notes_text(queries@, queries@.len() as int),
{
    let mut out: Vec<char> = Vec::new();
    let mut i: usize = 0;
    while i < queries.len()
        invariant
            i <= queries@.len(),
            out@ == query_notes_text(queries@, i as int),
        decreases queries@.len() - i,
    {
        let ghost before = out@;
        if queries[i].cards == 0 {
            push_str(&mut out, "note: query ");
            let q = debug_quoted(queries[i].query.as_str());
            push_str(&mut out, q.as_str());
            push_str(&mut out, " matched no cards in this deck\n");
        }
        proof {
            assert(out@ =~= query_notes_text(queries@, i + 1));
        }
        i += 1;
    }
    string_of(out.as_slice())
}

/// Where an effect sends what it looks at, as the note words it.
pub open spec fn route_text(e: EffectUse) -> Seq<char> {
    match e.to_graveyard {
        None => ", everything stays on top"@,
        Some(q) => if e.live {
            ", "@ + q@ + " to the graveyard"@
        } else {
            ", "@ + q@ + " to the graveyard — which no card here matches"@
        },
    }
}

/// The note for one effect that applied to cards in this deck.
pub open spec fn effect_note_text(e: EffectUse) -> Seq<char> {
    "note: effect "@ + debug_text(e.matches@) + " (look "@ + decimal_spec(e.look as nat) + ", on "@
        + e.on@ + route_text(e) + ")\n      applies to "@ + decimal_spec(e.copies as nat)
        + " card"@ + (if e.copies == 1 {
        ""@
    } else {
        "s"@
    }) + ": "@ + joined_with(e.cards@.map_values(|c: String| ""@ + c@), ", "@) + "\n"@
}

/// The notes for the first `n` effects.
pub open spec fn effect_notes_text(es: Seq<EffectUse>, n: int) -> Seq<char>
    decreases n,
{
    if n <= 0 {
        Seq::empty()
    } else {
        effect_notes_text(es, n - 1) + effect_note_text(es[n - 1])
    }
}

/// A note for every effect that applied: nobody asked for them and they
/// move the numbers, so a run that applied one says so.
pub fn effect_notes(effects: &[EffectUse]) -> (r: String)
    ensures
        r@ == effect_notes_text(effects@, effects@.len() as int),
{
    let mut out: Vec<char> = Vec::new();
    let mut i: usize = 0;
    while i < effects.len()
        invariant
            i <= effects@.len(),
            out@ == effect_notes_text(effects@, i as int),
        decreases effects@.len() - i,
    {
        let note = effect_note(&effects[i]);
        push_chars(&mut out, note.as_slice());
        i += 1;
    }
    string_of(out.as_slice())
}

fn effect_note(e: &EffectUse) -> (r: Vec<char>)
    ensures
        r@ == effect_note_text(*e),
{
    let mut out: Vec<char> = Vec::new();
    push_str(&mut out, "note: effect ");
    let m = debug_quoted(e.matches.as_str());
    push_str(&mut out, m.as_str());
    push_str(&mut out, " (look ");
    push_chars(&mut out, decimal(e.look as u64).as_slice());
    push_str(&mut out, ", on ");
    push_str(&mut out, e.on);
    let ghost head = out@;
    match &e.to_graveyard {
        None => push_str(&mut out, ", everything stays on top"),
        Some(q) => {
            push_str(&mut out, ", ");
            push_str(&mut out, q.as_str());
            if e.live {
                push_str(&mut out, " to the graveyard");
            } else {
                push_str(&mut out, " to the graveyard — which no card here matches");
            }
        },
    }
    proof {
        assert(out@ =~= head + route_text(*e));
    }
    let ghost routed = out@;
    push_str(&mut out, ")\n      applies to ");
    push_chars(&mut out, decimal(e.copies as u64).as_slice());
    push_str(&mut out, " card");
    if e.copies == 1 {
        push_str(&mut out, "");
    } else {
        push_str(&mut out, "s");
    }
    push_str(&mut out, ": ");
    push_joined(&mut out, e.cards.as_slice(), "", ", ");
    push_str(&mut out, "\n");
    proof {
        assert(out@ =~= effect_note_text(*e));
    }
    out
}

/// What to do about a zone nothing routes into.
pub open spec fn zone_fix_text(zone: Seq<char>) -> Seq<char> {
    if zone == "battlefield"@ {
        "This deck holds no land, so nothing can be played."@
    } else {
        "Declare `to_graveyard` on an [[effect]] to route one there."@
    }
}

/// The notes for the first `n` zones, for those nothing can reach.
pub open spec fn zone_notes_text(zs: Seq<ZoneUse>, n: int) -> Seq<char>
    decreases n,
{
    if n <= 0 {
        Seq::empty()
    } else {
        zone_notes_text(zs, n - 1) + if zs[n - 1].reachable {
            Seq::empty()
        } else {
            "note: nothing routes a card to the "@ + zs[n - 1].zone@
                + " in this run, so every count in\n      it is zero by construction rather than by measurement.\n      Asked by: "@
                + debug_text(zs[n - 1].asked_by@) + "\n      "@ + zone_fix_text(zs[n - 1].zone@)
                + "\n"@
        }
    }
}

/// A note for every zone asked about that nothing in the run routes a card
/// into: its counts are zero by construction, not by measurement.
pub fn zone_notes(zones: &[ZoneUse]) -> (r: String)
    ensures
        r@ == zone_notes_text(zones@, zones@.len() as int),
{
    let mut out: Vec<char> = Vec::new();
    let mut i: usize = 0;
    while i < zones.len()
        invariant
            i <= zones@.len(),
            out@ == zone_notes_text(zones@, i as int),
        decreases zones@.len() - i,
    {
        let z = &zones[i];
        let ghost before = out@;
        if !z.reachable {
            push_str(&mut out, "note: nothing routes a card to the ");
            push_str(&mut out, z.zone);
            push_str(
                &mut out,
                " in this run, so every count in\n      it is zero by construction rather than by measurement.\n      Asked by: ",
            );
            let a = debug_quoted(z.asked_by.as_str());
            push_str(&mut out, a.as_str());
            push_str(&mut out, "\n      ");
            let zc = chars_of(z.zone);
            let bf = chars_of("battlefield");
            if crate::text::seq_eq(zc.as_slice(), bf.as_slice()) {
                push_str(&mut out, "This deck holds no land, so nothing can be played.");
            } else {
                push_str(&mut out, "Declare `to_graveyard` on an [[effect]] to route one there.");
            }
            push_str(&mut out, "\n");
        }
        proof {
            assert(out@ =~= zone_notes_text(zones@, i + 1));
        }
        i += 1;
    }
    string_of(out.as_slice())
}

/// The first `n` preferences, numbered from one, one to a line.
pub open spec fn preference_lines(prefer: Seq<String>, n: int) -> Seq<char>
    decreases n,
{
    if n <= 0 {
        Seq::empty()
    } else {
        preference_lines(prefer, n - 1) + "      "@ + decimal_spec(n as nat) + ". "@ + debug_text(
            prefer[n - 1]@,
        ) + "\n"@
    }
}

/// The note naming the declared priority every land drop was decided by.
pub open spec fn land_drop_text(policy: LandDropUse) -> Seq<char> {
    let LandDropUse { prefer, then: rest, tie_break } = policy;
    "note: the land drop here is decided by the priority this file declared, and every\n      number below that depends on which land was played depends on it:\n"@
        + preference_lines(prefer@, prefer@.len() as int) + "      then "@ + rest@ + ". Ties: "@
        + tie_break@ + ".\n"@
}

/// The note [`land_drop_text`] gives.
pub fn land_drop_note(policy: &LandDropUse) -> (r: String)
    requires
        policy.prefer@.len() < u64::MAX,
    ensures
        r@ == land_drop_text(*policy),
{
    let mut out: Vec<char> = Vec::new();
    push_str(
        &mut out,
        "note: the land drop here is decided by the priority this file declared, and every\n      number below that depends on which land was played depends on it:\n",
    );
    let ghost head = out@;
    let mut i: usize = 0;
    while i < policy.prefer.len()
        invariant
            i <= policy.prefer@.len(),
            policy.prefer@.len() < u64::MAX,
            out@ == head + preference_lines(policy.prefer@, i as int),
        decreases policy.prefer@.len() - i,
    {
        push_str(&mut out, "      ");
        push_chars(&mut out, decimal((i + 1) as u64).as_slice());
        push_str(&mut out, ". ");
        let q = debug_quoted(policy.prefer[i].as_str());
        push_str(&mut out, q.as_str());
        push_str(&mut out, "\n");
        proof {
            assert(out@ =~= head + preference_lines(policy.prefer@, i + 1));
        }
        i += 1;
    }
    let LandDropUse { prefer: _, then: rest, tie_break: _ } = policy;
    push_str(&mut out, "      then ");
    push_str(&mut out, rest);
    push_str(&mut out, ". Ties: ");
    push_str(&mut out, policy.tie_break);
    push_str(&mut out, ".\n");
    proof {
        assert(out@ =~= land_drop_text(*policy));
    }
    string_of(out.as_slice())
}

/// The note naming the lands a run assumed into play tapped, or nothing
/// when it assumed none.
pub open spec fn assumed_tapped_text(names: Seq<String>) -> Option<Seq<char>> {
    if names.len() == 0 {
        None
    } else {
        Some(
            "note: "@ + (if names.len() == 1 {
                "one land"@
            } else {
                decimal_spec(names.len()) + " lands"@
            })
                + " here let the pilot decide whether to enter tapped. This run assumes they do:\n      "@
                + joined_with(names.map_values(|c: String| ""@ + c@), ", "@)
                + ".\n      A shockland's 2 life is a decision no criteria file has made yet, so the pessimistic\n      reading is taken: it makes no mana the turn it arrives. Every number below that\n      depends on one of these is a floor rather than a measurement.\n"@,
        )
    }
}

/// The note [`assumed_tapped_text`] gives.
pub fn assumed_tapped_note(names: &[String]) -> (r: Option<String>)
    requires
        names@.len() <= u64::MAX,
    ensures
        match r {
            Some(s) => assumed_tapped_text(names@) == Some(s@),
            None => assumed_tapped_text(names@) is None,
        },
{
    if names.len() == 0 {
        return None;
    }
    let mut out: Vec<char> = Vec::new();
    push_str(&mut out, "note: ");
    if names.len() == 1 {
        push_str(&mut out, "one land");
    } else {
        push_chars(&mut out, decimal(names.len() as u64).as_slice());
        push_str(&mut out, " lands");
    }
    push_str(
        &mut out,
        " here let the pilot decide whether to enter tapped. This run assumes they do:\n      ",
    );
    push_joined(&mut out, names, "", ", ");
    push_str(
        &mut out,
        ".\n      A shockland's 2 life is a decision no criteria file has made yet, so the pessimistic\n      reading is taken: it makes no mana the turn it arrives. Every number below that\n      depends on one of these is a floor rather than a measurement.\n",
    );
    proof {
        assert(out@ =~= assumed_tapped_text(names@)->0);
    }
    Some(string_of(out.as_slice()))
}

/// The last line of a report: every assertion met, or how many missed.
pub open spec fn verdict_text(ok: bool, asserted: nat, failed: nat) -> Seq<char> {
    if ok {
        "PASS: "@ + decimal_spec(asserted) + " of "@ + decimal_spec(asserted) + " assertions met"@
    } else {
        "FAIL: "@ + decimal_spec(failed) + " of "@ + decimal_spec(asserted) + " assertions missed"@
    }
}

/// The line [`verdict_text`] gives.
pub fn verdict_line(ok: bool, asserted: u64, failed: u64) -> (r: String)
    ensures
        r@ == verdict_text(ok, asserted as nat, failed as nat),
{
    let mut out: Vec<char> = Vec::new();
    if ok {
        push_str(&mut out, "PASS: ");
        push_chars(&mut out, decimal(asserted).as_slice());
        push_str(&mut out, " of ");
        push_chars(&mut out, decimal(asserted).as_slice());
        push_str(&mut out, " assertions met");
    } else {
        push_str(&mut out, "FAIL: ");
        push_chars(&mut out, decimal(failed).as_slice());
        push_str(&mut out, " of ");
        push_chars(&mut out, decimal(asserted).as_slice());
        push_str(&mut out, " assertions missed");
    }
    proof {
        assert(out@ =~= verdict_text(ok, asserted as nat, failed as nat));
    }
    string_of(out.as_slice())
}

/// The note a run gives when it sampled because it was asked to.
pub open spec fn sampled_note_text(trials: nat) -> Seq<char> {
    "note: sampled rather than enumerated, because --simulate asked for it. Every\n      percentage below is an estimate from "@
        + decimal_spec(trials) + " hands, ± its standard error.\n"@
}

/// The note [`sampled_note_text`] gives.
pub fn sampled_note(trials: u32) -> (r: String)
    ensures
        r@ == sampled_note_text(trials as nat),
{
    let mut out: Vec<char> = Vec::new();
    push_str(
        &mut out,
        "note: sampled rather than enumerated, because --simulate asked for it. Every\n      percentage below is an estimate from ",
    );
    push_chars(&mut out, decimal(trials as u64).as_slice());
    push_str(&mut out, " hands, ± its standard error.\n");
    proof {
        assert(out@ =~= sampled_note_text(trials as nat));
    }
    string_of(out.as_slice())
}

/// Which questions a fallback run estimated, said after the width it fell
/// back at: all of them, or these by name.
pub open spec fn estimate_scope_text(estimated: Seq<String>, total: nat) -> Seq<char> {
    if estimated.len() == total {
        "Every percentage below is an ESTIMATE, not an exact answer.\n          The ± beside each one is its standard error, and a difference\n          smaller than that is not a difference."@
    } else {
        decimal_spec(estimated.len()) + " of the "@ + decimal_spec(total)
            + " questions here needed that, and "@ + (if estimated.len() == 1 {
            "it is the one"@
        } else {
            "they are the ones"@
        }) + "\n          quoted with a ±:\n          "@ + joined_with(
            estimated.map_values(|c: String| ""@ + c@),
            "\n          "@,
        )
            + "\n          Everything else below was enumerated exactly. A difference\n          smaller than a figure's ± is not a difference."@
    }
}

/// The text [`estimate_scope_text`] gives.
pub fn estimate_scope(estimated: &[String], total: u64) -> (r: String)
    requires
        estimated@.len() <= u64::MAX,
    ensures
        r@ == estimate_scope_text(estimated@, total as nat),
{
    let mut out: Vec<char> = Vec::new();
    if estimated.len() as u64 == total {
        push_str(
            &mut out,
            "Every percentage below is an ESTIMATE, not an exact answer.\n          The ± beside each one is its standard error, and a difference\n          smaller than that is not a difference.",
        );
    } else {
        push_chars(&mut out, decimal(estimated.len() as u64).as_slice());
        push_str(&mut out, " of the ");
        push_chars(&mut out, decimal(total).as_slice());
        push_str(&mut out, " questions here needed that, and ");
        if estimated.len() == 1 {
            push_str(&mut out, "it is the one");
        } else {
            push_str(&mut out, "they are the ones");
        }
        push_str(&mut out, "\n          quoted with a ±:\n          ");
        push_joined(&mut out, estimated, "", "\n          ");
        push_str(
            &mut out,
            "\n          Everything else below was enumerated exactly. A difference\n          smaller than a figure's ± is not a difference.",
        );
    }
    proof {
        assert(out@ =~= estimate_scope_text(estimated@, total as nat));
    }
    string_of(out.as_slice())
}

impl Estimated {
    /// The questions estimated, by name, in the order they are printed:
    /// the criteria, then the expectations.
    pub fn names(&self, criteria: &[String], expectations: &[String]) -> (r: Vec<String>)
        requires
            criteria@.len() == self.criteria@.len(),
            expectations@.len() == self.expectations@.len(),
        ensures
            string_views(r@) == string_views(picked(criteria@, self.criteria@)) + string_views(
                picked(expectations@, self.expectations@),
            ),
    {
        let mut out: Vec<String> = Vec::new();
        let mut i: usize = 0;
        proof {
            assert(out@ =~= picked(criteria@.subrange(0, 0), self.criteria@.subrange(0, 0)));
        }
        while i < criteria.len()
            invariant
                i <= criteria@.len(),
                criteria@.len() == self.criteria@.len(),
                out@ == picked(criteria@.subrange(0, i as int), self.criteria@.subrange(0, i as int)),
            decreases criteria@.len() - i,
        {
            let ghost before = out@;
            if self.criteria[i] {
                out.push(criteria[i].clone());
            }
            proof {
                let s1 = criteria@.subrange(0, i + 1);
                let f1 = self.criteria@.subrange(0, i + 1);
                assert(s1.drop_last() =~= criteria@.subrange(0, i as int));
                assert(f1.drop_last() =~= self.criteria@.subrange(0, i as int));
                assert(s1.last() == criteria@[i as int]);
                assert(f1.last() == self.criteria@[i as int]);
                assert(out@ =~= picked(s1, f1));
            }
            i += 1;
        }
        proof {
            assert(criteria@.subrange(0, criteria@.len() as int) =~= criteria@);
            assert(self.criteria@.subrange(0, criteria@.len() as int) =~= self.criteria@);
        }
        let ghost head = out@;
        let mut j: usize = 0;
        proof {
            assert(out@ =~= head + picked(expectations@.subrange(0, 0), self.expectations@.subrange(0, 0)));
        }
        while j < expectations.len()
            invariant
                j <= expectations@.len(),
                expectations@.len() == self.expectations@.len(),
                out@ == head + picked(expectations@.subrange(0, j as int), self.expectations@.subrange(0, j as int)),
            decreases expectations@.len() - j,
        {
            if self.expectations[j] {
                out.push(expectations[j].clone());
            }
            proof {
                let s1 = expectations@.subrange(0, j + 1);
                let f1 = self.expectations@.subrange(0, j + 1);
                assert(s1.drop_last() =~= expectations@.subrange(0, j as int));
                assert(f1.drop_last() =~= self.expectations@.subrange(0, j as int));
                assert(s1.last() == expectations@[j as int]);
                assert(f1.last() == self.expectations@[j as int]);
                assert(out@ =~= head + picked(s1, f1));
            }
            j += 1;
        }
        proof {
            assert(expectations@.subrange(0, expectations@.len() as int) =~= expectations@);
            assert(self.expectations@.subrange(0, expectations@.len() as int) =~= self.expectations@);
            assert(string_views(out@) =~= string_views(picked(criteria@, self.criteria@)) + string_views(
                picked(expectations@, self.expectations@),
            ));
        }
        out
    }
}

/// The items whose flag is set, in order.
pub open spec fn picked(items: Seq<String>, flags: Seq<bool>) -> Seq<String>
    decreases items.len(),
{
    if items.len() == 0 || flags.len() == 0 {
        Seq::empty()
    } else {
        picked(items.drop_last(), flags.drop_last()) + if flags.last() {
            seq![items.last()]
        } else {
            Seq::empty()
        }
    }
}

/// Why a query naming oracle tags the index cannot answer is refused: a
/// count of a tag nobody fetched is zero by construction.
pub open spec fn tag_gap_text(gap: TagGap, carried: Seq<Seq<char>>) -> Seq<char> {
    match gap {
        TagGap::NotCarried(tags) => "this index does not carry "@ + joined_with(
            tags@.map_values(|t: String| "otag:"@ + t@),
            ", "@,
        )
            + ", so counting it would be zero by construction\n      rather than by measurement. This index carries: "@
            + joined_with(carried.map_values(|t: Seq<char>| ""@ + t), ", "@)
            + ".\n      Check the spelling; a tag outside that list has to be added to pe-scryfall's\n      standard tags and fetched by `progress-engine sync`."@,
        TagGap::NoneFetched(tags) => "this index carries no oracle tags at all, so "@ + joined_with(
            tags@.map_values(|t: String| "otag:"@ + t@),
            ", "@,
        )
            + " would match nothing here\n      whether or not this deck plays such a card.\n      `sync --from` builds an index like this one: tags come from Scryfall's search API,\n      not from the bulk file. Fetch them with: progress-engine sync"@,
    }
}

/// The refusal [`tag_gap_text`] gives.
pub fn tag_gap_refusal(gap: &TagGap, library: &Library) -> (r: String)
    ensures
        r@ == tag_gap_text(*gap, library.index_tags.carried_of()),
{
    let mut out: Vec<char> = Vec::new();
    match gap {
        TagGap::NotCarried(tags) => {
            push_str(&mut out, "this index does not carry ");
            push_joined(&mut out, tags.as_slice(), "otag:", ", ");
            push_str(
                &mut out,
                ", so counting it would be zero by construction\n      rather than by measurement. This index carries: ",
            );
            let carried = library.index_tags.carried();
            push_joined(&mut out, carried.as_slice(), "", ", ");
            push_str(
                &mut out,
                ".\n      Check the spelling; a tag outside that list has to be added to pe-scryfall's\n      standard tags and fetched by `progress-engine sync`.",
            );
            proof {
                assert(carried@.map_values(|p: String| ""@ + p@) =~= library.index_tags.carried_of().map_values(
                    |t: Seq<char>| ""@ + t,
                ));
            }
        },
        TagGap::NoneFetched(tags) => {
            push_str(&mut out, "this index carries no oracle tags at all, so ");
            push_joined(&mut out, tags.as_slice(), "otag:", ", ");
            push_str(
                &mut out,
                " would match nothing here\n      whether or not this deck plays such a card.\n      `sync --from` builds an index like this one: tags come from Scryfall's search API,\n      not from the bulk file. Fetch them with: progress-engine sync",
            );
        },
    }
    proof {
        assert(out@ =~= tag_gap_text(*gap, library.index_tags.carried_of()));
    }
    string_of(out.as_slice())
}

} // verus!

//! What a decklist becomes before any question is asked of it: the marks a
//! caller works out for itself, whether lands are told apart by what they
//! make, and the listed cards that never enter the library.

use vstd::prelude::*;
use crate::deck::{Deck, DeckCard, DeckEntry};
use crate::grouping::{sum_of, Grouping, GroupingError, MAX_QUERIES, qty_total};
use crate::index::{first_from, key_of, same_card, Card, Index, TagVocabulary};
use crate::mana::{lemma_palette_determined, letters_name, ManaSource, Palette};
use crate::matching::{answers_as, any_eq, holds, CardFacts, Order};
use crate::outside::{outside_kind, OutsideLibrary};
use crate::report::{hex_of, sha256_hex, sha256_of};
use crate::query::{parse, parse_spec, ParseError, ParseErrorView, Query, QueryView};
use crate::text::{
    chars_of, decimal, decimal_spec, eq_ignore_case, insert_sorted, is_alpha, is_ascii_alpha,
    is_ascii_digit, is_digit, push_chars, push_str, range_eq_ignore_case, str_eq, string_of,
    string_views, strictly_sorted,
};

verus! {

/// One line of the library: a card, the categories the decklist gave it and
/// how many copies.
#[derive(Debug, Clone)]
pub struct Entry {
    pub card: Card,
    pub categories: Vec<String>,
    pub qty: u32,
}

/// A grouping bit the caller worked out for itself: a label, and one flag
/// per library entry saying whether that entry carries it.
#[derive(Debug, Clone)]
pub struct Marked {
    pub label: String,
    pub members: Vec<bool>,
}

/// Whether a run has to tell lands apart by what they make.
#[derive(Debug, Clone, Copy, PartialEq, Eq, Structural)]
pub enum ManaDetail {
    /// Nothing here is a mana source; the groups are exactly the query
    /// groups.
    Ignored,
    /// Lands carry what they produce and whether they arrive tapped.
    Modelled,
}

/// A listed card that never enters the library, and which type made it so.
#[derive(Debug, Clone)]
pub struct Excluded {
    pub name: String,
    pub qty: u32,
    pub card_type: OutsideLibrary,
}

/// How many cards the first `n` exclusions hold.
pub open spec fn excluded_copies(ex: Seq<Excluded>, n: int) -> int
    decreases n,
{
    if n <= 0 {
        0
    } else {
        excluded_copies(ex, n - 1) + ex[n - 1].qty
    }
}

/// The first `n` exclusions as `{qty}x {name} ({type})`, joined with ", ".
pub open spec fn excluded_list(ex: Seq<Excluded>, n: int) -> Seq<char>
    decreases n,
{
    if n <= 0 {
        Seq::empty()
    } else {
        let item = decimal_spec(ex[n - 1].qty as nat) + "x "@ + ex[n - 1].name@ + " ("@
            + ex[n - 1].card_type.name_of() + ")"@;
        if n == 1 {
            item
        } else {
            excluded_list(ex, n - 1) + ", "@ + item
        }
    }
}

/// The note a run prints about listed cards it did not count: nothing when
/// there are none, else how many cards and which.
pub open spec fn exclusion_text(ex: Seq<Excluded>) -> Option<Seq<char>> {
    if ex.len() == 0 {
        None
    } else {
        let total = excluded_copies(ex, ex.len() as int);
        Some(
            "note: "@ + decimal_spec(total as nat) + " card"@ + (if total == 1 {
                ""@
            } else {
                "s"@
            }) + " never in the library and not counted: "@ + excluded_list(
                ex,
                ex.len() as int,
            ),
        )
    }
}

proof fn lemma_copies_prefix(ex: Seq<Excluded>, i: int, n: int)
    requires
        0 <= i <= n,
    ensures
        0 <= excluded_copies(ex, i) <= excluded_copies(ex, n),
    decreases n,
{
    if n > 0 {
        if i < n {
            lemma_copies_prefix(ex, i, n - 1);
        } else {
            lemma_copies_prefix(ex, i - 1, n - 1);
        }
    }
}

/// The note about cards that never enter the library, as
/// [`exclusion_text`] says.
pub fn exclusion_note(excluded: &[Excluded]) -> (r: Option<String>)
    requires
        excluded_copies(excluded@, excluded@.len() as int) <= u32::MAX,
    ensures
        match r {
            Some(s) => exclusion_text(excluded@) == Some(s@),
            None => exclusion_text(excluded@) is None,
        },
{
    if excluded.len() == 0 {
        return None;
    }
    let mut total: u32 = 0;
    let mut list: Vec<char> = Vec::new();
    let mut i: usize = 0;
    while i < excluded.len()
        invariant
            i <= excluded@.len(),
            excluded_copies(excluded@, excluded@.len() as int) <= u32::MAX,
            total == excluded_copies(excluded@, i as int),
            list@ == excluded_list(excluded@, i as int),
        decreases excluded@.len() - i,
    {
        proof {
            lemma_copies_prefix(excluded@, i + 1, excluded@.len() as int);
        }
        let e = &excluded[i];
        total = total + e.qty;
        if i > 0 {
            push_str(&mut list, ", ");
        }
        push_chars(&mut list, decimal(e.qty as u64).as_slice());
        push_str(&mut list, "x ");
        push_str(&mut list, e.name.as_str());
        push_str(&mut list, " (");
        push_str(&mut list, e.card_type.as_str());
        push_str(&mut list, ")");
        i += 1;
        proof {
            if i == 1 {
                assert(list@ =~= excluded_list(excluded@, 1));
            } else {
                assert(list@ =~= excluded_list(excluded@, i as int));
            }
        }
    }
    let mut out: Vec<char> = Vec::new();
    push_str(&mut out, "note: ");
    push_chars(&mut out, decimal(total as u64).as_slice());
    push_str(&mut out, " card");
    if total != 1 {
        push_str(&mut out, "s");
    } else {
        push_str(&mut out, "");
    }
    push_str(&mut out, " never in the library and not counted: ");
    push_chars(&mut out, list.as_slice());
    Some(string_of(out.as_slice()))
}

/// How many copies the first `n` entries hold.
pub open spec fn copies_of(entries: Seq<Entry>, n: int) -> int
    decreases n,
{
    if n <= 0 {
        0
    } else {
        copies_of(entries, n - 1) + entries[n - 1].qty
    }
}

proof fn lemma_copies_prefix_le(entries: Seq<Entry>, i: int, n: int)
    requires
        0 <= i <= n <= entries.len(),
    ensures
        0 <= copies_of(entries, i) <= copies_of(entries, n),
    decreases n,
{
    if n > 0 {
        if i < n {
            lemma_copies_prefix_le(entries, i, n - 1);
        } else {
            lemma_copies_prefix_le(entries, i - 1, n - 1);
        }
    }
}

/// An ASCII letter or digit: what is left of a type line once it is split
/// at everything else.
pub open spec fn is_alnum(c: char) -> bool {
    is_digit(c) || is_alpha(c)
}

/// Whether `t[i..j]` is one whole run of ASCII letters and digits.
pub open spec fn alnum_run(t: Seq<char>, i: int, j: int) -> bool {
    &&& 0 <= i < j <= t.len()
    &&& (i == 0 || !is_alnum(t[i - 1]))
    &&& (j == t.len() || !is_alnum(t[j]))
    &&& forall|k: int| i <= k < j ==> is_alnum(#[trigger] t[k])
}

/// Whether some run of letters and digits of `t` is `w`, ignoring ASCII
/// case.
pub open spec fn has_alnum_word(t: Seq<char>, w: Seq<char>) -> bool {
    exists|i: int, j: int| #[trigger] alnum_run(t, i, j) && eq_ignore_case(t.subrange(i, j), w)
}

/// Whether a card with this type line can be put into play with a land
/// drop: some word of it, on either face, is `land`.
pub open spec fn land_line(t: Seq<char>) -> bool {
    has_alnum_word(t, "land"@)
}

fn alnum_word(h: &[char], w: &[char]) -> (r: bool)
    ensures
        r == has_alnum_word(h@, w@),
{
    let n = h.len();
    let mut i: usize = 0;
    while i < n
        invariant
            n == h@.len(),
            i <= n,
            i < n ==> (i == 0 || !is_alnum(h@[i - 1]) || !is_alnum(h@[i as int])),
            forall|a: int, b: int|
                a < i && #[trigger] alnum_run(h@, a, b) ==> !eq_ignore_case(h@.subrange(a, b), w@),
        decreases n - i,
    {
        if !(is_ascii_digit(h[i]) || is_ascii_alpha(h[i])) {
            i += 1;
            continue;
        }
        let start = i;
        while i < n && (is_ascii_digit(h[i]) || is_ascii_alpha(h[i]))
            invariant
                n == h@.len(),
                start <= i <= n,
                forall|k: int| start <= k < i ==> is_alnum(#[trigger] h@[k]),
            decreases n - i,
        {
            i += 1;
        }
        assert(alnum_run(h@, start as int, i as int));
        if range_eq_ignore_case(h, start, i, w) {
            return true;
        }
        assert forall|a: int, b: int|
            a < i && #[trigger] alnum_run(h@, a, b) implies !eq_ignore_case(h@.subrange(a, b), w@) by {
            if a > start {
                assert(is_alnum(h@[a - 1]));
            } else if a == start {
                if b < i {
                    assert(is_alnum(h@[b]));
                } else if b > i {
                    assert(is_alnum(h@[i as int]));
                }
            }
        }
    }
    false
}

/// Whether this card can be put into play with a land drop, as
/// [`land_line`] says.
pub fn is_land(card: &Card) -> (r: bool)
    ensures
        r == land_line(card.type_line@),
{
    let t = chars_of(card.type_line.as_str());
    let w = chars_of("land");
    alnum_word(t.as_slice(), w.as_slice())
}

/// The palette whose bits are the pip kinds the letters of `ls` name.
pub open spec fn palette_named(ls: Seq<Seq<char>>) -> Palette {
    choose|p: Palette| p.0 < 64 && forall|k: int| 0 <= k < 6 ==> (#[trigger] p.has(k) <==> letters_name(ls, k))
}

/// What a card does for mana before anything is cast: a spell makes none;
/// a land makes what it produces, and enters tapped when it carries
/// `tapland` or `conditional-tapland` — the pilot's choice on a shockland
/// read pessimistically.
pub open spec fn mana_source_of(card: Card) -> ManaSource {
    if !land_line(card.type_line@) {
        ManaSource::Spell
    } else {
        ManaSource::Land {
            enters_tapped: any_eq(card.tags@, "tapland"@) || any_eq(
                card.tags@,
                "conditional-tapland"@,
            ),
            produces: palette_named(string_views(card.produces@)),
        }
    }
}

fn carries_tag(tags: &[String], tag: &str) -> (r: bool)
    ensures
        r == any_eq(tags@, tag@),
{
    let mut i: usize = 0;
    while i < tags.len()
        invariant
            i <= tags@.len(),
            forall|j: int| 0 <= j < i ==> #[trigger] tags@[j]@ != tag@,
        decreases tags@.len() - i,
    {
        if str_eq(tags[i].as_str(), tag) {
            return true;
        }
        i += 1;
    }
    false
}

/// What a card does for mana, as [`mana_source_of`] says.
pub fn mana_source(card: &Card) -> (r: ManaSource)
    ensures
        r == mana_source_of(*card),
{
    if !is_land(card) {
        return ManaSource::Spell;
    }
    let tapped = carries_tag(card.tags.as_slice(), "tapland") || carries_tag(
        card.tags.as_slice(),
        "conditional-tapland",
    );
    let mut letters: Vec<&str> = Vec::new();
    let mut i: usize = 0;
    while i < card.produces.len()
        invariant
            i <= card.produces@.len(),
            letters@.len() == i,
            forall|k: int| 0 <= k < i ==> (#[trigger] letters@[k])@ == card.produces@[k]@,
        decreases card.produces@.len() - i,
    {
        letters.push(card.produces[i].as_str());
        i += 1;
    }
    let produces = Palette::from_letters(letters.as_slice());
    proof {
        let ls = string_views(card.produces@);
        assert(letters@.map_values(|s: &str| s@) =~= ls);
        let q = palette_named(ls);
        assert(q.0 < 64 && forall|k: int| 0 <= k < 6 ==> (#[trigger] q.has(k) <==> letters_name(ls, k)));
        lemma_palette_determined(produces, q);
    }
    ManaSource::Land { enters_tapped: tapped, produces }
}

/// Why the library could not answer.
#[derive(Debug)]
pub enum LibraryError {
    /// A query did not parse: the query as written, and why.
    Query { query: String, error: ParseError },
    /// The grouping refused the names it was given.
    Grouping(GroupingError),
}

/// What the first `n` queries parse to, or the first that does not parse,
/// by position.
pub open spec fn parsed_upto(queries: Seq<String>, n: int) -> Result<Seq<QueryView>, (int, ParseErrorView)>
    decreases n,
{
    if n <= 0 {
        Ok(Seq::empty())
    } else {
        match parsed_upto(queries, n - 1) {
            Err(e) => Err(e),
            Ok(done) => match parse_spec(queries[n - 1]@) {
                Ok(q) => Ok(done.push(q)),
                Err(e) => Err((n - 1, e)),
            },
        }
    }
}

/// Every query parsed, or the first that does not.
pub open spec fn parsed_all(queries: Seq<String>) -> Result<Seq<QueryView>, (int, ParseErrorView)> {
    parsed_upto(queries, queries.len() as int)
}

proof fn lemma_parsed_len(queries: Seq<String>, n: int)
    requires
        0 <= n <= queries.len(),
    ensures
        parsed_upto(queries, n) matches Ok(v) ==> v.len() == n,
        parsed_upto(queries, n) matches Err((i, _)) ==> 0 <= i < n,
    decreases n,
{
    if n > 0 {
        lemma_parsed_len(queries, n - 1);
    }
}

/// Parse every query, stopping at the first that does not parse.
fn parse_all(queries: &[String]) -> (r: Result<Vec<Query>, LibraryError>)
    ensures
        match r {
            Ok(qs) => parsed_all(queries@) == Ok::<Seq<QueryView>, (int, ParseErrorView)>(
                qs@.map_values(|q: Query| q@),
            ),
            Err(LibraryError::Query { query, error }) => parsed_all(queries@) matches Err((i, e))
                && e == error@ && query@ == queries@[i]@,
            Err(LibraryError::Grouping(_)) => false,
        },
{
    let mut out: Vec<Query> = Vec::new();
    let mut i: usize = 0;
    proof {
        assert(out@.map_values(|q: Query| q@) =~= Seq::<QueryView>::empty());
    }
    while i < queries.len()
        invariant
            i <= queries@.len(),
            parsed_upto(queries@, i as int) == Ok::<Seq<QueryView>, (int, ParseErrorView)>(
                out@.map_values(|q: Query| q@),
            ),
        decreases queries@.len() - i,
    {
        match parse(queries[i].as_str()) {
            Ok(q) => {
                let ghost before = out@.map_values(|q: Query| q@);
                out.push(q);
                proof {
                    assert(out@.map_values(|q: Query| q@) =~= before.push(q@));
                }
            },
            Err(e) => {
                proof {
                    lemma_parsed_err_stays(queries@, i as int + 1, queries@.len() as int);
                }
                return Err(LibraryError::Query { query: queries[i].clone(), error: e });
            },
        }
        i += 1;
    }
    Ok(out)
}

proof fn lemma_parsed_err_stays(queries: Seq<String>, i: int, n: int)
    requires
        0 < i <= n,
        parsed_upto(queries, i) is Err,
    ensures
        parsed_upto(queries, n) == parsed_upto(queries, i),
    decreases n - i,
{
    if n > i {
        lemma_parsed_err_stays(queries, i, n - 1);
    }
}

/// The mask of the first `n` bits `f` says are set.
pub open spec fn bits_upto(f: spec_fn(int) -> bool, n: int) -> u64
    decreases n,
{
    if n <= 0 {
        0
    } else {
        bits_upto(f, n - 1) | (if f(n - 1) {
            1u64 << ((n - 1) as u64)
        } else {
            0u64
        })
    }
}

/// Whether entry `c` carries bit `i`: the `i`th query holds of it, or, past
/// the queries, it is a member of the mark there.
pub open spec fn carries(
    parsed: Seq<QueryView>,
    marked: Seq<Marked>,
    facts: CardFacts,
    c: int,
    mv: spec_fn(Seq<char>, Seq<char>) -> Option<Order>,
    i: int,
) -> bool {
    if i < parsed.len() {
        holds(parsed[i], facts, mv)
    } else {
        marked[i - parsed.len()].members@[c]
    }
}

/// The mask of entry `c` over its first `n` bits.
pub open spec fn mask_of(
    entries: Seq<Entry>,
    parsed: Seq<QueryView>,
    marked: Seq<Marked>,
    c: int,
    mv: spec_fn(Seq<char>, Seq<char>) -> Option<Order>,
    n: int,
) -> u64 {
    bits_upto(
        |i: int|
            carries(parsed, marked, entries[c].card.facts_with(entries[c].categories@), c, mv, i),
        n,
    )
}

/// The cards a grouping of this library is built from: each entry's mask,
/// what it does for mana and how many copies.
pub open spec fn grouped_cards(
    entries: Seq<Entry>,
    parsed: Seq<QueryView>,
    marked: Seq<Marked>,
    mana: ManaDetail,
    mv: spec_fn(Seq<char>, Seq<char>) -> Option<Order>,
) -> Seq<(u64, ManaSource, u32)> {
    Seq::new(
        entries.len(),
        |c: int|
            (
                mask_of(entries, parsed, marked, c, mv, (parsed.len() + marked.len()) as int),
                match mana {
                    ManaDetail::Ignored => ManaSource::Spell,
                    ManaDetail::Modelled => mana_source_of(entries[c].card),
                },
                entries[c].qty,
            ),
    )
}

proof fn lemma_qty_total_is_copies(entries: Seq<Entry>, cards: Seq<(u64, ManaSource, u32)>, n: int)
    requires
        0 <= n <= entries.len(),
        cards.len() == entries.len(),
        forall|c: int| 0 <= c < cards.len() ==> (#[trigger] cards[c]).2 == entries[c].qty,
    ensures
        qty_total(cards, n) == copies_of(entries, n),
    decreases n,
{
    if n > 0 {
        lemma_qty_total_is_copies(entries, cards, n - 1);
    }
}

/// The names bits are labelled by: the queries, then the marks.
pub open spec fn names_of(queries: Seq<String>, marked: Seq<Marked>) -> Seq<Seq<char>> {
    string_views(queries) + marked.map_values(|m: Marked| m.label@)
}

/// Whether a name matches the first `n` entries, counting copies.
pub open spec fn matching_copies(
    entries: Seq<Entry>,
    q: QueryView,
    mv: spec_fn(Seq<char>, Seq<char>) -> Option<Order>,
    n: int,
) -> int
    decreases n,
{
    if n <= 0 {
        0
    } else {
        matching_copies(entries, q, mv, n - 1) + if holds(
            q,
            entries[n - 1].card.facts_with(entries[n - 1].categories@),
            mv,
        ) {
            entries[n - 1].qty as int
        } else {
            0
        }
    }
}

/// One line of a decklist, as the decklist reader hands it over.
#[derive(Debug, Clone)]
pub struct DeckLine {
    pub name: String,
    pub categories: Vec<String>,
    pub qty: u32,
    /// Nominated as a commander: it starts in the command zone.
    pub commander: bool,
    /// Outside the deck, as a companion or a sideboard card is.
    pub outside: bool,
}

/// Where a listed card goes.
#[derive(Debug, Clone, Copy, PartialEq, Eq, Structural)]
pub enum Placement {
    Commander,
    /// Outside the deck by the decklist's say.
    Outside,
    /// Never in the library by the card's own type.
    Excluded(OutsideLibrary),
    Library,
}

/// Where a line goes, given the card it names: the decklist's word first
/// (a commander, or outside the deck), then the card's type.
pub open spec fn placement(line: DeckLine, card: Card) -> Placement {
    if line.commander {
        Placement::Commander
    } else if line.outside {
        Placement::Outside
    } else {
        match outside_kind(card.type_line@) {
            Some(t) => Placement::Excluded(t),
            None => Placement::Library,
        }
    }
}

/// The card line `k` names, by position in the index.
pub open spec fn card_of(lines: Seq<DeckLine>, cards: Seq<Card>, k: int) -> int {
    match first_from(cards, key_of(lines[k].name@), 0) {
        Some(i) => i,
        None => -1,
    }
}

/// Of the first `n` lines, the positions of those placed as `want` says.
pub open spec fn placed_lines(
    lines: Seq<DeckLine>,
    cards: Seq<Card>,
    n: int,
    want: spec_fn(Placement) -> bool,
) -> Seq<int>
    decreases n,
{
    if n <= 0 {
        Seq::empty()
    } else {
        let before = placed_lines(lines, cards, n - 1, want);
        if want(placement(lines[n - 1], cards[card_of(lines, cards, n - 1)])) {
            before.push(n - 1)
        } else {
            before
        }
    }
}

/// Of the first `n` lines, the names no card in the index has.
pub open spec fn unknown_names(lines: Seq<DeckLine>, cards: Seq<Card>, n: int) -> Seq<Seq<char>>
    decreases n,
{
    if n <= 0 {
        Seq::empty()
    } else {
        let before = unknown_names(lines, cards, n - 1);
        if first_from(cards, key_of(lines[n - 1].name@), 0) is None {
            before.push(lines[n - 1].name@)
        } else {
            before
        }
    }
}

/// Whether `e` is line `k` joined to its card.
pub open spec fn joined_entry(e: Entry, lines: Seq<DeckLine>, cards: Seq<Card>, k: int) -> bool {
    &&& e.qty == lines[k].qty
    &&& string_views(e.categories@) == string_views(lines[k].categories@)
    &&& same_card(e.card, cards[card_of(lines, cards, k)])
}

/// Whether `entries` are the lines at `at`, each joined to its card.
pub open spec fn joined_entries(
    entries: Seq<Entry>,
    at: Seq<int>,
    lines: Seq<DeckLine>,
    cards: Seq<Card>,
) -> bool {
    &&& entries.len() == at.len()
    &&& forall|k: int| 0 <= k < at.len() ==> joined_entry(#[trigger] entries[k], lines, cards, at[k])
}

/// Whether `excluded` are the lines at `at`, each named as its card is,
/// with the type that keeps it out.
pub open spec fn excluded_entries(
    excluded: Seq<Excluded>,
    at: Seq<int>,
    lines: Seq<DeckLine>,
    cards: Seq<Card>,
) -> bool {
    &&& excluded.len() == at.len()
    &&& forall|k: int|
        0 <= k < at.len() ==> {
            let card = cards[card_of(lines, cards, at[k])];
            &&& (#[trigger] excluded[k]).name == card.name
            &&& excluded[k].qty == lines[at[k]].qty
            &&& outside_kind(card.type_line@) == Some(excluded[k].card_type)
        }
}

/// Whether `d` is what the legality checks read of `e`.
pub open spec fn deck_entry_of(d: DeckEntry, e: Entry) -> bool {
    &&& d.qty == e.qty
    &&& d.card.name == e.card.name
    &&& d.card.type_line == e.card.type_line
    &&& d.card.oracle == e.card.oracle
    &&& d.card.ci@ == e.card.ci@
    &&& d.card.legalities == e.card.legalities
    &&& d.card.commander_legal == e.card.commander_legal
    &&& d.card.any_number == e.card.any_number
}

fn deck_entries(entries: &Vec<Entry>) -> (r: Vec<DeckEntry>)
    ensures
        r@.len() == entries@.len(),
        forall|k: int| 0 <= k < entries@.len() ==> deck_entry_of(#[trigger] r@[k], entries@[k]),
{
    let mut out: Vec<DeckEntry> = Vec::new();
    let mut i: usize = 0;
    while i < entries.len()
        invariant
            i <= entries@.len(),
            out@.len() == i,
            forall|k: int| 0 <= k < i ==> deck_entry_of(#[trigger] out@[k], entries@[k]),
        decreases entries@.len() - i,
    {
        let e = &entries[i];
        let mut ci: Vec<String> = Vec::new();
        let mut j: usize = 0;
        while j < e.card.ci.len()
            invariant
                j <= e.card.ci@.len(),
                ci@ =~= e.card.ci@.subrange(0, j as int),
            decreases e.card.ci@.len() - j,
        {
            ci.push(e.card.ci[j].clone());
            j += 1;
        }
        proof {
            assert(ci@ =~= e.card.ci@);
        }
        out.push(DeckEntry {
            qty: e.qty,
            card: DeckCard {
                name: e.card.name.clone(),
                type_line: e.card.type_line.clone(),
                oracle: e.card.oracle.clone(),
                ci,
                legalities: e.card.legalities.copy(),
                commander_legal: e.card.commander_legal.copy(),
                any_number: e.card.any_number,
            },
        });
        i += 1;
    }
    out
}

/// Every line of a decklist goes to exactly one place: the library, the
/// command zone, the exclusions or outside the deck. Nothing is dropped and
/// nothing is counted twice — the 99-versus-100 error is not possible.
pub proof fn every_line_is_placed_once(lines: Seq<DeckLine>, cards: Seq<Card>, n: int)
    requires
        0 <= n <= lines.len(),
    ensures
        placed_lines(lines, cards, n, |p: Placement| p is Library).len() + placed_lines(
            lines,
            cards,
            n,
            |p: Placement| p is Commander,
        ).len() + placed_lines(lines, cards, n, |p: Placement| p is Excluded).len()
            + placed_lines(lines, cards, n, |p: Placement| p is Outside).len() == n,
    decreases n,
{
    if n > 0 {
        every_line_is_placed_once(lines, cards, n - 1);
    }
}

proof fn lemma_all_known(lines: Seq<DeckLine>, cards: Seq<Card>, n: int)
    requires
        0 <= n <= lines.len(),
        unknown_names(lines, cards, n).len() == 0,
    ensures
        forall|j: int| 0 <= j < n ==> (first_from(cards, key_of((#[trigger] lines[j]).name@), 0) is Some),
    decreases n,
{
    if n > 0 {
        if first_from(cards, key_of(lines[n - 1].name@), 0) is None {
            assert(unknown_names(lines, cards, n).len() > 0);
        }
        lemma_all_known(lines, cards, n - 1);
    }
}

proof fn lemma_first_in_range(cards: Seq<Card>, key: Seq<char>, i: int)
    ensures
        first_from(cards, key, i) matches Some(j) ==> i <= j < cards.len() && key_of(cards[j].name@) == key,
    decreases cards.len() - i,
{
    if 0 <= i < cards.len() && key_of(cards[i].name@) != key {
        lemma_first_in_range(cards, key, i + 1);
    }
}

/// The library: what the deck draws from, and what the run reports beside
/// it.
pub struct Library {
    pub entries: Vec<Entry>,
    /// The nominated commanders, as whole entries; they start in the
    /// command zone, so the library does not hold them.
    pub commanders: Vec<Entry>,
    /// SHA-256 of the decklist file, lowercase hex.
    pub deck_sha256: String,
    /// When the index was built, or `None` when it never said.
    pub index_updated_at: Option<String>,
    /// Whether the index predates fields the current queries read.
    pub index_is_stale: bool,
    /// Which oracle tags the index carries.
    pub index_tags: TagVocabulary,
    /// Listed cards that never enter the library, kept to be reported.
    pub excluded: Vec<Excluded>,
}

impl Library {
    /// Join a decklist to the card index.
    ///
    /// Strict about unknown cards: a card that cannot be looked up cannot be
    /// counted, so every name the index lacks is refused together, in list
    /// order. Otherwise each line goes where [`placement`] says: the
    /// commanders to the command zone, a card outside the deck nowhere, a
    /// card that is never in the library to the exclusions, and the rest to
    /// the library.
    pub fn join(lines: &[DeckLine], index: &Index, deck_text: &[u8]) -> (r: Result<Library, Vec<String>>)
        ensures
            match r {
                Err(unknown) => string_views(unknown@) == unknown_names(
                    lines@,
                    index.cards@,
                    lines@.len() as int,
                ) && unknown@.len() > 0,
                Ok(lib) => {
                    &&& unknown_names(lines@, index.cards@, lines@.len() as int).len() == 0
                    &&& joined_entries(
                        lib.entries@,
                        placed_lines(lines@, index.cards@, lines@.len() as int, |p: Placement| p is Library),
                        lines@,
                        index.cards@,
                    )
                    &&& joined_entries(
                        lib.commanders@,
                        placed_lines(lines@, index.cards@, lines@.len() as int, |p: Placement| p is Commander),
                        lines@,
                        index.cards@,
                    )
                    &&& excluded_entries(
                        lib.excluded@,
                        placed_lines(lines@, index.cards@, lines@.len() as int, |p: Placement| p is Excluded),
                        lines@,
                        index.cards@,
                    )
                    &&& lib.deck_sha256@ == hex_of(sha256_of(deck_text@))
                    &&& lib.index_is_stale == (match index.schema {
                        Some(v) => v,
                        None => 0u32,
                    } < crate::index::SCHEMA)
                    &&& lib.index_updated_at == index.updated_at
                    &&& lib.index_tags.carried_of() == string_views(index.tags@)
                },
            },
    {
        let mut unknown: Vec<String> = Vec::new();
        let mut found: Vec<usize> = Vec::new();
        let mut k: usize = 0;
        while k < lines.len()
            invariant
                k <= lines@.len(),
                string_views(unknown@) == unknown_names(lines@, index.cards@, k as int),
                found@.len() == k,
                forall|j: int|
                    0 <= j < k ==> match first_from(index.cards@, key_of(lines@[j].name@), 0) {
                        Some(i) => (#[trigger] found@[j]) as int == i,
                        None => true,
                    },
            decreases lines@.len() - k,
        {
            let ghost before = unknown@;
            match index.position(lines[k].name.as_str()) {
                Some(i) => {
                    found.push(i);
                },
                None => {
                    found.push(0);
                    unknown.push(lines[k].name.clone());
                    proof {
                        assert(string_views(unknown@) =~= string_views(before).push(lines@[k as int].name@));
                    }
                },
            }
            k += 1;
        }
        if unknown.len() > 0 {
            return Err(unknown);
        }
        proof {
            lemma_all_known(lines@, index.cards@, lines@.len() as int);
            assert forall|j: int| 0 <= j < lines@.len() implies (#[trigger] found@[j]) < index.cards@.len()
                && first_from(index.cards@, key_of(lines@[j].name@), 0) == Some(found@[j] as int) by {
                lemma_first_in_range(index.cards@, key_of(lines@[j].name@), 0);
            }
        }
        let mut entries: Vec<Entry> = Vec::new();
        let mut commanders: Vec<Entry> = Vec::new();
        let mut excluded: Vec<Excluded> = Vec::new();
        let mut k: usize = 0;
        while k < lines.len()
            invariant
                k <= lines@.len(),
                found@.len() == lines@.len(),
                forall|j: int|
                    0 <= j < lines@.len() ==> first_from(index.cards@, key_of(lines@[j].name@), 0)
                        == Some((#[trigger] found@[j]) as int),
                forall|j: int| 0 <= j < lines@.len() ==> (#[trigger] found@[j]) < index.cards@.len(),
                joined_entries(
                    entries@,
                    placed_lines(lines@, index.cards@, k as int, |p: Placement| p is Library),
                    lines@,
                    index.cards@,
                ),
                joined_entries(
                    commanders@,
                    placed_lines(lines@, index.cards@, k as int, |p: Placement| p is Commander),
                    lines@,
                    index.cards@,
                ),
                excluded_entries(
                    excluded@,
                    placed_lines(lines@, index.cards@, k as int, |p: Placement| p is Excluded),
                    lines@,
                    index.cards@,
                ),
            decreases lines@.len() - k,
        {
            let line = &lines[k];
            let card = &index.cards[found[k]];
            proof {
                assert(card_of(lines@, index.cards@, k as int) == found@[k as int] as int);
            }
            let entry = Entry {
                card: card.copy(),
                categories: line.categories.clone(),
                qty: line.qty,
            };
            proof {
                assert(string_views(entry.categories@) =~= string_views(line.categories@));
            }
            if line.commander {
                commanders.push(entry);
            } else if line.outside {
            } else {
                match card.outside_library() {
                    Some(t) => {
                        excluded.push(Excluded { name: card.name.clone(), qty: line.qty, card_type: t });
                    },
                    None => {
                        entries.push(entry);
                    },
                }
            }
            k += 1;
        }
        let stale = index.is_stale();
        let tags = index.tag_vocabulary();
        let updated = match &index.updated_at {
            Some(u) => Some(u.clone()),
            None => None,
        };
        Ok(Library {
            entries,
            commanders,
            deck_sha256: sha256_hex(deck_text),
            index_updated_at: updated,
            index_is_stale: stale,
            index_tags: tags,
            excluded,
        })
    }

    /// The list as the legality checks read it.
    pub fn deck(&self) -> (d: Deck)
        ensures
            d.entries@.len() == self.entries@.len(),
            d.commanders@.len() == self.commanders@.len(),
            forall|k: int| 0 <= k < self.entries@.len() ==> deck_entry_of(#[trigger] d.entries@[k], self.entries@[k]),
            forall|k: int| 0 <= k < self.commanders@.len() ==> deck_entry_of(#[trigger] d.commanders@[k], self.commanders@[k]),
    {
        Deck { entries: deck_entries(&self.entries), commanders: deck_entries(&self.commanders) }
    }

    /// How many cards the library holds.
    pub fn size(&self) -> (r: u32)
        requires
            copies_of(self.entries@, self.entries@.len() as int) <= u32::MAX,
        ensures
            r == copies_of(self.entries@, self.entries@.len() as int),
    {
        let mut total: u32 = 0;
        let mut i: usize = 0;
        while i < self.entries.len()
            invariant
                i <= self.entries@.len(),
                copies_of(self.entries@, self.entries@.len() as int) <= u32::MAX,
                total == copies_of(self.entries@, i as int),
            decreases self.entries@.len() - i,
        {
            proof {
                lemma_copies_prefix_le(self.entries@, i + 1, self.entries@.len() as int);
            }
            total = total + self.entries[i].qty;
            i += 1;
        }
        total
    }

    /// The commanders' names, in the order the list gave them.
    pub fn commander_names(&self) -> (r: Vec<String>)
        ensures
            r@.len() == self.commanders@.len(),
            forall|i: int| 0 <= i < r@.len() ==> #[trigger] r@[i]@ == self.commanders@[i].card.name@,
    {
        let mut out: Vec<String> = Vec::new();
        let mut i: usize = 0;
        while i < self.commanders.len()
            invariant
                i <= self.commanders@.len(),
                out@.len() == i,
                forall|k: int| 0 <= k < i ==> #[trigger] out@[k]@ == self.commanders@[k].card.name@,
            decreases self.commanders@.len() - i,
        {
            out.push(self.commanders[i].card.name.clone());
            i += 1;
        }
        out
    }

    /// Group the library by which of `queries` each card matches, then by
    /// the `marked` bits the caller worked out, which come after the
    /// queries so an index a criterion already holds does not move.
    ///
    /// `mana_value` says how two numbers, as written, compare; see
    /// [`Query::matches`]. A query that does not parse is refused by name,
    /// the first one in order; more names than a mask has bits is the
    /// grouping's refusal.
    pub fn grouping_for<F: Fn(String, String) -> Option<Order>>(
        &self,
        queries: &[String],
        marked: &[Marked],
        mana: ManaDetail,
        mana_value: &F,
    ) -> (r: Result<Grouping, LibraryError>)
        requires
            forall|a: String, b: String| #[trigger] call_requires(*mana_value, (a, b)),
            copies_of(self.entries@, self.entries@.len() as int) <= u32::MAX,
            queries@.len() + marked@.len() <= usize::MAX,
            forall|k: int|
                0 <= k < marked@.len() ==> (#[trigger] marked@[k]).members@.len()
                    >= self.entries@.len(),
        ensures
            match parsed_all(queries@) {
                Err((i, e)) => r matches Err(LibraryError::Query { query, error }) && error@ == e
                    && query@ == queries@[i]@,
                Ok(parsed) => if queries@.len() + marked@.len() > MAX_QUERIES {
                    r matches Err(LibraryError::Grouping(GroupingError::TooManyQueries(n))) && n
                        == queries@.len() + marked@.len()
                } else {
                    r matches Ok(g) && string_views(g.queries_of()) == names_of(queries@, marked@)
                        && sum_of(g.sizes_of(), g.sizes_of().len() as int) == copies_of(
                        self.entries@,
                        self.entries@.len() as int,
                    ) && forall|m: spec_fn(Seq<char>, Seq<char>) -> Option<Order>|
                        #[trigger] answers_as(*mana_value, m) ==> g.groups_cards(
                            grouped_cards(self.entries@, parsed, marked@, mana, m),
                        )
                },
            },
    {
        let parsed = match parse_all(queries) {
            Ok(p) => p,
            Err(e) => return Err(e),
        };
        let ghost pv = parsed@.map_values(|q: Query| q@);
        proof {
            lemma_parsed_len(queries@, queries@.len() as int);
        }
        if marked.len() > MAX_QUERIES || queries.len() > MAX_QUERIES - marked.len() {
            return Err(LibraryError::Grouping(GroupingError::TooManyQueries(queries.len() + marked.len())));
        }
        let nq = queries.len();
        let total = nq + marked.len();
        let mut cards: Vec<(u64, ManaSource, u32)> = Vec::new();
        let mut c: usize = 0;
        while c < self.entries.len()
            invariant
                c <= self.entries@.len(),
                nq == queries@.len(),
                total == nq + marked@.len(),
                total <= 64,
                parsed@.len() == nq,
                pv == parsed@.map_values(|q: Query| q@),
                forall|a: String, b: String| #[trigger] call_requires(*mana_value, (a, b)),
                forall|k: int|
                    0 <= k < marked@.len() ==> (#[trigger] marked@[k]).members@.len()
                        >= self.entries@.len(),
                cards@.len() == c,
                forall|k: int| 0 <= k < c ==> (#[trigger] cards@[k]).2 == self.entries@[k].qty,
                forall|m: spec_fn(Seq<char>, Seq<char>) -> Option<Order>|
                    #[trigger] answers_as(*mana_value, m) ==> forall|k: int|
                        0 <= k < c ==> #[trigger] cards@[k] == grouped_cards(
                            self.entries@,
                            pv,
                            marked@,
                            mana,
                            m,
                        )[k],
            decreases self.entries@.len() - c,
        {
            let e = &self.entries[c];
            let view = e.card.view(e.categories.as_slice());
            let mut mask: u64 = 0;
            let mut i: usize = 0;
            while i < total
                invariant
                    i <= total,
                    total <= 64,
                    nq == queries@.len(),
                    total == nq + marked@.len(),
                    parsed@.len() == nq,
                    pv == parsed@.map_values(|q: Query| q@),
                    c < self.entries@.len(),
                    *e == self.entries@[c as int],
                    view.facts() == e.card.facts_with(e.categories@),
                    forall|a: String, b: String| #[trigger] call_requires(*mana_value, (a, b)),
                    forall|k: int|
                        0 <= k < marked@.len() ==> (#[trigger] marked@[k]).members@.len()
                            >= self.entries@.len(),
                    forall|m: spec_fn(Seq<char>, Seq<char>) -> Option<Order>|
                        #[trigger] answers_as(*mana_value, m) ==> mask == mask_of(
                            self.entries@,
                            pv,
                            marked@,
                            c as int,
                            m,
                            i as int,
                        ),
                decreases total - i,
            {
                let hit = if i < nq {
                    parsed[i].matches(&view, mana_value)
                } else {
                    marked[i - nq].members[c]
                };
                let bit: u64 = if hit {
                    1u64 << (i as u64)
                } else {
                    0u64
                };
                let ghost was = mask;
                mask = mask | bit;
                proof {
                    assert forall|m: spec_fn(Seq<char>, Seq<char>) -> Option<Order>|
                        #[trigger] answers_as(*mana_value, m) implies mask == mask_of(
                            self.entries@,
                            pv,
                            marked@,
                            c as int,
                            m,
                            i + 1,
                        ) by {
                        assert(was == mask_of(self.entries@, pv, marked@, c as int, m, i as int));
                        if i < nq {
                            assert(pv[i as int] == parsed@[i as int]@);
                        }
                        assert(hit == carries(
                            pv,
                            marked@,
                            self.entries@[c as int].card.facts_with(
                                self.entries@[c as int].categories@,
                            ),
                            c as int,
                            m,
                            i as int,
                        ));
                    }
                }
                i += 1;
            }
            let source = match mana {
                ManaDetail::Ignored => ManaSource::Spell,
                ManaDetail::Modelled => mana_source(&e.card),
            };
            cards.push((mask, source, e.qty));
            proof {
                assert forall|m: spec_fn(Seq<char>, Seq<char>) -> Option<Order>|
                    #[trigger] answers_as(*mana_value, m) implies forall|k: int|
                        0 <= k < c + 1 ==> #[trigger] cards@[k] == grouped_cards(
                            self.entries@,
                            pv,
                            marked@,
                            mana,
                            m,
                        )[k] by {
                    assert forall|k: int| 0 <= k < c + 1 implies #[trigger] cards@[k]
                        == grouped_cards(self.entries@, pv, marked@, mana, m)[k] by {
                        if k < c {
                        }
                    }
                }
            }
            c += 1;
        }
        let mut names: Vec<String> = Vec::new();
        let mut k: usize = 0;
        while k < nq
            invariant
                k <= nq,
                nq == queries@.len(),
                names@.len() == k,
                forall|j: int| 0 <= j < k ==> #[trigger] names@[j]@ == queries@[j]@,
            decreases nq - k,
        {
            names.push(queries[k].clone());
            k += 1;
        }
        let mut k: usize = 0;
        while k < marked.len()
            invariant
                k <= marked@.len(),
                nq == queries@.len(),
                names@.len() == nq + k,
                forall|j: int| 0 <= j < nq ==> #[trigger] names@[j]@ == queries@[j]@,
                forall|j: int| 0 <= j < k ==> #[trigger] names@[nq + j]@ == marked@[j].label@,
            decreases marked@.len() - k,
        {
            names.push(marked[k].label.clone());
            k += 1;
        }
        let ghost named = names@;
        proof {
            assert(string_views(named) =~= names_of(queries@, marked@)) by {
                assert forall|j: int| 0 <= j < named.len() implies #[trigger] string_views(named)[j]
                    == names_of(queries@, marked@)[j] by {
                    if j >= nq {
                        assert(named[nq + (j - nq)]@ == marked@[j - nq].label@);
                    }
                }
            }
            lemma_qty_total_is_copies(self.entries@, cards@, cards@.len() as int);
        }
        let ghost built = cards@;
        let r = Grouping::with_mana(names, cards);
        proof {
            if r is Ok {
                crate::grouping::grouping_holds_every_copy(r->Ok_0, built);
            }
            assert forall|m: spec_fn(Seq<char>, Seq<char>) -> Option<Order>|
                #[trigger] answers_as(*mana_value, m) implies (r matches Ok(g) && g.groups_cards(
                    grouped_cards(self.entries@, pv, marked@, mana, m),
                )) by {
                assert(cards@ =~= grouped_cards(self.entries@, pv, marked@, mana, m));
            }
        }
        match r {
            Ok(g) => Ok(g),
            Err(e) => Err(LibraryError::Grouping(e)),
        }
    }

    /// How many library cards match `query`, counting copies.
    pub fn matching<F: Fn(String, String) -> Option<Order>>(&self, query: &str, mana_value: &F) -> (r:
        Result<u32, LibraryError>)
        requires
            forall|a: String, b: String| #[trigger] call_requires(*mana_value, (a, b)),
            copies_of(self.entries@, self.entries@.len() as int) <= u32::MAX,
        ensures
            match parse_spec(query@) {
                Err(e) => r matches Err(LibraryError::Query { query: q, error }) && q@ == query@
                    && error@ == e,
                Ok(q) => r matches Ok(n) && forall|m: spec_fn(Seq<char>, Seq<char>) -> Option<Order>|
                    #[trigger] answers_as(*mana_value, m) ==> n == matching_copies(
                        self.entries@,
                        q,
                        m,
                        self.entries@.len() as int,
                    ),
            },
    {
        let q = match parse(query) {
            Ok(q) => q,
            Err(e) => return Err(LibraryError::Query { query: string_of(chars_of(query).as_slice()), error: e }),
        };
        let mut total: u32 = 0;
        let mut i: usize = 0;
        while i < self.entries.len()
            invariant
                i <= self.entries@.len(),
                copies_of(self.entries@, self.entries@.len() as int) <= u32::MAX,
                forall|a: String, b: String| #[trigger] call_requires(*mana_value, (a, b)),
                total <= copies_of(self.entries@, i as int),
                forall|m: spec_fn(Seq<char>, Seq<char>) -> Option<Order>|
                    #[trigger] answers_as(*mana_value, m) ==> total == matching_copies(
                        self.entries@,
                        q@,
                        m,
                        i as int,
                    ),
            decreases self.entries@.len() - i,
        {
            proof {
                lemma_copies_prefix_le(self.entries@, i + 1, self.entries@.len() as int);
            }
            let e = &self.entries[i];
            let view = e.card.view(e.categories.as_slice());
            if q.matches(&view, mana_value) {
                total = total + e.qty;
            }
            i += 1;
        }
        Ok(total)
    }

    /// The cards matching `query` that are not lands, by name, sorted and
    /// without repeats: the check behind a battlefield question, since a
    /// land arrives on a land drop and everything else has to be cast.
    pub fn non_lands_matching<F: Fn(String, String) -> Option<Order>>(
        &self,
        query: &str,
        mana_value: &F,
    ) -> (r: Result<Vec<String>, LibraryError>)
        requires
            forall|a: String, b: String| #[trigger] call_requires(*mana_value, (a, b)),
        ensures
            match parse_spec(query@) {
                Err(e) => r matches Err(LibraryError::Query { query: q, error }) && q@ == query@
                    && error@ == e,
                Ok(q) => r matches Ok(names) && strictly_sorted(string_views(names@)) && forall|
                    m: spec_fn(Seq<char>, Seq<char>) -> Option<Order>,
                | #[trigger] answers_as(*mana_value, m) ==> forall|t: Seq<char>|
                    #![trigger string_views(names@).contains(t)]
                    string_views(names@).contains(t) <==> exists|i: int|
                        0 <= i < self.entries@.len() && holds(
                            q,
                            (#[trigger] self.entries@[i]).card.facts_with(
                                self.entries@[i].categories@,
                            ),
                            m,
                        ) && !land_line(self.entries@[i].card.type_line@)
                            && self.entries@[i].card.name@ == t,
            },
    {
        let q = match parse(query) {
            Ok(q) => q,
            Err(e) => return Err(LibraryError::Query { query: string_of(chars_of(query).as_slice()), error: e }),
        };
        let mut names: Vec<String> = Vec::new();
        let mut i: usize = 0;
        while i < self.entries.len()
            invariant
                i <= self.entries@.len(),
                forall|a: String, b: String| #[trigger] call_requires(*mana_value, (a, b)),
                strictly_sorted(string_views(names@)),
                forall|m: spec_fn(Seq<char>, Seq<char>) -> Option<Order>|
                    #[trigger] answers_as(*mana_value, m) ==> forall|t: Seq<char>|
                        #![trigger string_views(names@).contains(t)]
                        string_views(names@).contains(t) <==> exists|k: int|
                            0 <= k < i && holds(
                                q@,
                                (#[trigger] self.entries@[k]).card.facts_with(
                                    self.entries@[k].categories@,
                                ),
                                m,
                            ) && !land_line(self.entries@[k].card.type_line@)
                                && self.entries@[k].card.name@ == t,
            decreases self.entries@.len() - i,
        {
            let e = &self.entries[i];
            let view = e.card.view(e.categories.as_slice());
            let hit = q.matches(&view, mana_value) && !is_land(&e.card);
            let ghost before = string_views(names@);
            if hit {
                insert_sorted(&mut names, e.card.name.clone());
            }
            proof {
                assert forall|m: spec_fn(Seq<char>, Seq<char>) -> Option<Order>|
                    #[trigger] answers_as(*mana_value, m) implies forall|t: Seq<char>|
                        #![trigger string_views(names@).contains(t)]
                        string_views(names@).contains(t) <==> exists|k: int|
                            0 <= k < i + 1 && holds(
                                q@,
                                (#[trigger] self.entries@[k]).card.facts_with(
                                    self.entries@[k].categories@,
                                ),
                                m,
                            ) && !land_line(self.entries@[k].card.type_line@)
                                && self.entries@[k].card.name@ == t by {
                    assert forall|t: Seq<char>| #![trigger string_views(names@).contains(t)]
                        string_views(names@).contains(t) <==> exists|k: int|
                            0 <= k < i + 1 && holds(
                                q@,
                                (#[trigger] self.entries@[k]).card.facts_with(
                                    self.entries@[k].categories@,
                                ),
                                m,
                            ) && !land_line(self.entries@[k].card.type_line@)
                                && self.entries@[k].card.name@ == t by {
                        assert(before.contains(t) <==> exists|k: int|
                            0 <= k < i && holds(
                                q@,
                                (#[trigger] self.entries@[k]).card.facts_with(
                                    self.entries@[k].categories@,
                                ),
                                m,
                            ) && !land_line(self.entries@[k].card.type_line@)
                                && self.entries@[k].card.name@ == t);
                        if exists|k: int|
                            0 <= k < i + 1 && holds(
                                q@,
                                (#[trigger] self.entries@[k]).card.facts_with(
                                    self.entries@[k].categories@,
                                ),
                                m,
                            ) && !land_line(self.entries@[k].card.type_line@)
                                && self.entries@[k].card.name@ == t {
                            let k = choose|k: int|
                                0 <= k < i + 1 && holds(
                                    q@,
                                    (#[trigger] self.entries@[k]).card.facts_with(
                                        self.entries@[k].categories@,
                                    ),
                                    m,
                                ) && !land_line(self.entries@[k].card.type_line@)
                                    && self.entries@[k].card.name@ == t;
                            if k < i {
                            }
                        }
                    }
                }
            }
            i += 1;
        }
        Ok(names)
    }

    /// Whether any card in the library is a land.
    pub fn has_lands(&self) -> (r: bool)
        ensures
            r == exists|i: int|
                0 <= i < self.entries@.len() && land_line(#[trigger] self.entries@[i].card.type_line@),
    {
        let mut i: usize = 0;
        while i < self.entries.len()
            invariant
                i <= self.entries@.len(),
                forall|k: int| 0 <= k < i ==> !land_line(#[trigger] self.entries@[k].card.type_line@),
            decreases self.entries@.len() - i,
        {
            if is_land(&self.entries[i].card) {
                return true;
            }
            i += 1;
        }
        false
    }

    /// The lands whose tapped-ness the pilot decides, by name, sorted and
    /// without repeats so the note reads the same on every run.
    pub fn conditional_taplands(&self) -> (r: Vec<String>)
        ensures
            strictly_sorted(string_views(r@)),
            forall|t: Seq<char>| #![trigger string_views(r@).contains(t)]
                string_views(r@).contains(t) <==> exists|i: int|
                    0 <= i < self.entries@.len() && any_eq(
                        #[trigger] self.entries@[i].card.tags@,
                        "conditional-tapland"@,
                    ) && self.entries@[i].card.name@ == t,
    {
        let mut names: Vec<String> = Vec::new();
        let mut i: usize = 0;
        while i < self.entries.len()
            invariant
                i <= self.entries@.len(),
                strictly_sorted(string_views(names@)),
                forall|t: Seq<char>| #![trigger string_views(names@).contains(t)]
                    string_views(names@).contains(t) <==> exists|k: int|
                        0 <= k < i && any_eq(
                            #[trigger] self.entries@[k].card.tags@,
                            "conditional-tapland"@,
                        ) && self.entries@[k].card.name@ == t,
            decreases self.entries@.len() - i,
        {
            let e = &self.entries[i];
            if carries_tag(e.card.tags.as_slice(), "conditional-tapland") {
                insert_sorted(&mut names, e.card.name.clone());
            }
            proof {
                assert forall|t: Seq<char>| #![trigger string_views(names@).contains(t)]
                    string_views(names@).contains(t) <==> exists|k: int|
                        0 <= k < i + 1 && any_eq(
                            #[trigger] self.entries@[k].card.tags@,
                            "conditional-tapland"@,
                        ) && self.entries@[k].card.name@ == t by {
                    if exists|k: int|
                        0 <= k < i + 1 && any_eq(
                            #[trigger] self.entries@[k].card.tags@,
                            "conditional-tapland"@,
                        ) && self.entries@[k].card.name@ == t {
                        let k = choose|k: int|
                            0 <= k < i + 1 && any_eq(
                                #[trigger] self.entries@[k].card.tags@,
                                "conditional-tapland"@,
                            ) && self.entries@[k].card.name@ == t;
                        if k < i {
                        }
                    }
                }
            }
            i += 1;
        }
        names
    }
}

} // verus!

//! Whether a Commander list is legal, as a set of reported violations.
//!
//! A list that nominates no commander gets no checks at all: it could be a
//! sixty-card constructed deck or a Commander list whose export lost its
//! commander, and every check here would answer differently for the two.

use vstd::prelude::*;
use crate::colors::{Colors, color_bit, letters_mask, joined};
use crate::legality::{
    CommanderLegality, Legalities, Legality, LegalityWord, commander_route, commander_word,
    has_basic_supertype, identity_fits_within, route_of, front_face_types,
};
use crate::text::{
    ascii_upper, chars_of, decimal, decimal_spec, has_word_chars, has_word_spec, pieces,
    push_chars, push_str, split_on, split_once_char, split_once_spec, string_of,
};

verus! {

/// What the legality checks read of one card.
#[derive(Debug, Clone)]
pub struct DeckCard {
    pub name: String,
    pub type_line: String,
    pub oracle: String,
    /// Colour identity letters, e.g. `["W","U"]`.
    pub ci: Vec<String>,
    /// What every format says about the card.
    pub legalities: Legalities,
    /// An older index's single Commander legality word.
    pub commander_legal: LegalityWord,
    /// Whether a deck may contain any number of copies; `None` when the
    /// index never said.
    pub any_number: Option<bool>,
}

/// One line of a decklist.
#[derive(Debug, Clone)]
pub struct DeckEntry {
    pub qty: u32,
    pub card: DeckCard,
}

/// A list as the checks see it: the library and the nominated commanders.
#[derive(Debug, Clone)]
pub struct Deck {
    pub entries: Vec<DeckEntry>,
    pub commanders: Vec<DeckEntry>,
}

/// One thing wrong with the list.
#[derive(Debug, Clone, PartialEq, Eq)]
pub struct Violation {
    /// Which rule: `commander`, `color_identity`, `singleton`,
    /// `format_legality` or `deck_size`.
    pub rule: &'static str,
    /// The card at fault, or `None` for a rule about the list as a whole.
    pub card: Option<String>,
    pub detail: String,
}

/// A violation as the contracts see it.
pub struct ViolationView {
    pub rule: Seq<char>,
    pub card: Option<Seq<char>>,
    pub detail: Seq<char>,
}

pub open spec fn violation_view(v: Violation) -> ViolationView {
    ViolationView {
        rule: v.rule@,
        card: match v.card {
            Some(c) => Some(c@),
            None => None,
        },
        detail: v.detail@,
    }
}

pub open spec fn violations_view(vs: Seq<Violation>) -> Seq<ViolationView> {
    vs.map_values(|v: Violation| violation_view(v))
}

/// Whether the type line is a token's: some face has the word `Token`, in
/// any case, left of its em dash.
pub open spec fn token_line(type_line: Seq<char>) -> bool {
    let faces = pieces(type_line, "//"@);
    exists|k: int|
        0 <= k < faces.len() && has_word_spec(
            match split_once_spec(#[trigger] faces[k], '—') {
                Some((types, _)) => types,
                None => faces[k],
            },
            "token"@,
        )
}

/// Whether this index entry is a token rather than the card that was asked
/// for. Scryfall prints tokens that share a name with a real card, and when
/// the token wins the index's key every field belongs to it, so callers
/// treat it as no data at all.
pub fn is_token(type_line: &str) -> (r: bool)
    ensures
        r == token_line(type_line@),
{
    let line = chars_of(type_line);
    let sep = chars_of("//");
    proof {
        reveal_strlit("//");
    }
    let faces = split_on(line.as_slice(), sep.as_slice());
    let token = chars_of("token");
    let mut k: usize = 0;
    while k < faces.len()
        invariant
            k <= faces@.len(),
            faces@.len() == pieces(type_line@, "//"@).len(),
            forall|j: int| 0 <= j < faces@.len() ==> (#[trigger] faces@[j])@ == pieces(
                type_line@,
                "//"@,
            )[j],
            token@ == "token"@,
            forall|j: int|
                0 <= j < k ==> !has_word_spec(
                    match split_once_spec(#[trigger] pieces(type_line@, "//"@)[j], '—') {
                        Some((types, _)) => types,
                        None => pieces(type_line@, "//"@)[j],
                    },
                    "token"@,
                ),
        decreases faces@.len() - k,
    {
        let face = &faces[k];
        let hit = match split_once_char(face.as_slice(), '—') {
            Some((types, _)) => has_word_chars(types.as_slice(), token.as_slice()),
            None => has_word_chars(face.as_slice(), token.as_slice()),
        };
        if hit {
            return true;
        }
        k += 1;
    }
    false
}

/// Colour identity letters in printed WUBRG order, each once: those of
/// `WUBRG` that occur in `raw` once it is upper-cased.
pub open spec fn wubrg_letters(raw: Seq<char>) -> Seq<char> {
    let up = raw.map_values(|c: char| ascii_upper(c));
    "WUBRG"@.filter(|c: char| up.contains(c))
}

fn wubrg_letters_of(raw: &[char]) -> (r: Vec<char>)
    ensures
        r@ == wubrg_letters(raw@),
{
    let ghost u = raw@.map_values(|c: char| ascii_upper(c));
    let mut upper: Vec<char> = Vec::new();
    let mut i: usize = 0;
    while i < raw.len()
        invariant
            i <= raw@.len(),
            upper@ == raw@.subrange(0, i as int).map_values(|c: char| ascii_upper(c)),
        decreases raw@.len() - i,
    {
        upper.push(crate::text::upper_char(raw[i]));
        i += 1;
        proof {
            assert(upper@ =~= raw@.subrange(0, i as int).map_values(|c: char| ascii_upper(c)));
        }
    }
    proof {
        assert(raw@.subrange(0, raw@.len() as int) =~= raw@);
    }
    let order = chars_of("WUBRG");
    proof {
        reveal_strlit("WUBRG");
    }
    let mut out: Vec<char> = Vec::new();
    let mut k: usize = 0;
    while k < order.len()
        invariant
            k <= order@.len(),
            order@ == "WUBRG"@,
            upper@ == u,
            out@ == order@.subrange(0, k as int).filter(|c: char| u.contains(c)),
        decreases order@.len() - k,
    {
        let c = order[k];
        let mut found = false;
        let mut j: usize = 0;
        while j < upper.len()
            invariant
                j <= upper@.len(),
                found == exists|x: int| 0 <= x < j && upper@[x] == c,
            decreases upper@.len() - j,
        {
            if upper[j] == c {
                found = true;
            }
            j += 1;
        }
        proof {
            assert(order@.subrange(0, k + 1).drop_last() =~= order@.subrange(0, k as int));
            assert(order@.subrange(0, k + 1).last() == c);
            if found {
                let x = choose|x: int| 0 <= x < upper@.len() && upper@[x] == c;
                assert(u.contains(c));
            } else {
                assert(!u.contains(c)) by {
                    if u.contains(c) {
                        let x = choose|x: int| 0 <= x < u.len() && u[x] == c;
                        assert(upper@[x] == c);
                    }
                }
            }
        }
        if found {
            out.push(c);
        }
        k += 1;
        proof {
            reveal(Seq::filter);
        }
    }
    proof {
        assert(order@.subrange(0, order@.len() as int) =~= order@);
    }
    out
}


/// A card's Commander legality: what its legalities say, or the older
/// single word where they say nothing.
pub open spec fn commander_legality_of(c: DeckCard) -> CommanderLegality {
    let k = match c.legalities.get_spec("commander"@) {
        Some(Legality::Legal) => CommanderLegality::Legal,
        Some(Legality::NotLegal) => CommanderLegality::NotLegal,
        Some(Legality::Banned) => CommanderLegality::Banned,
        _ => CommanderLegality::Unknown,
    };
    if k == CommanderLegality::Unknown {
        commander_word(c.commander_legal.word())
    } else {
        k
    }
}

/// Whether a Commander deck may contain the card, or `None` when the index
/// never said.
pub open spec fn playable_in_commander(c: DeckCard) -> Option<bool> {
    match commander_legality_of(c) {
        CommanderLegality::Legal => Some(true),
        CommanderLegality::NotLegal | CommanderLegality::Banned => Some(false),
        CommanderLegality::Unknown => None,
    }
}

/// Whether a deck may contain any number of copies: always for a card with
/// the Basic supertype, else what the index said.
pub open spec fn any_number_of(c: DeckCard) -> Option<bool> {
    if has_word_spec(front_face_types(c.type_line@), "basic"@) {
        Some(true)
    } else {
        c.any_number
    }
}

fn commander_legality(c: &DeckCard) -> (r: CommanderLegality)
    ensures
        r == commander_legality_of(*c),
{
    match c.legalities.commander() {
        CommanderLegality::Unknown => c.commander_legal.commander(),
        known => known,
    }
}

fn may_appear_any_number_of_times(c: &DeckCard) -> (r: Option<bool>)
    ensures
        r == any_number_of(*c),
{
    if has_basic_supertype(c.type_line.as_str()) {
        Some(true)
    } else {
        c.any_number
    }
}

/// The text of `v`.
pub open spec fn chars(v: Seq<char>) -> Seq<char> {
    v
}

/// Whether `e` is a nominated commander the rule has a word for and that
/// has no route to the command zone.
pub open spec fn cannot_command(e: DeckEntry) -> bool {
    e.card.type_line@.len() != 0 && !token_line(e.card.type_line@) && route_of(
        e.card.name@,
        e.card.type_line@,
        e.card.oracle@,
    ) is None
}

/// The commander violations among the first `n` nominated commanders.
pub open spec fn commander_violations(cs: Seq<DeckEntry>, n: int) -> Seq<ViolationView>
    decreases n,
{
    if n <= 0 {
        Seq::empty()
    } else {
        let prev = commander_violations(cs, n - 1);
        let e = cs[n - 1];
        if cannot_command(e) {
            prev.push(
                ViolationView {
                    rule: "commander"@,
                    card: Some(e.card.name@),
                    detail: e.card.name@
                        + " is nominated as a commander, but it is neither a legendary creature nor a card whose own text says it can be one"@,
                },
            )
        } else {
            prev
        }
    }
}

/// Every commander's identity letters, one after another.
pub open spec fn commander_identity(cs: Seq<DeckEntry>, n: int) -> Seq<char>
    decreases n,
{
    if n <= 0 {
        Seq::empty()
    } else {
        commander_identity(cs, n - 1) + joined(cs[n - 1].card.ci@)
    }
}

/// The commanders' names joined with " and ".
pub open spec fn commander_names(cs: Seq<DeckEntry>, n: int) -> Seq<char>
    decreases n,
{
    if n <= 0 {
        Seq::empty()
    } else if n == 1 {
        cs[0].card.name@
    } else {
        commander_names(cs, n - 1) + " and "@ + cs[n - 1].card.name@
    }
}

/// The identity violations among the first `n` library entries, against
/// the identity `allowed` spells out as `letters`.
pub open spec fn identity_violations(
    es: Seq<DeckEntry>,
    allowed: Colors,
    letters: Seq<char>,
    names: Seq<char>,
    n: int,
) -> Seq<ViolationView>
    decreases n,
{
    if n <= 0 {
        Seq::empty()
    } else {
        let prev = identity_violations(es, allowed, letters, names, n - 1);
        let e = es[n - 1];
        let fits = (match letters_mask(joined(e.card.ci@)) {
            Some(m) => m,
            None => 0u8,
        } & !allowed.0) == 0;
        if token_line(e.card.type_line@) || fits {
            prev
        } else {
            prev.push(
                ViolationView {
                    rule: "color_identity"@,
                    card: Some(e.card.name@),
                    detail: e.card.name@ + " has colour identity "@ + wubrg_letters(
                        joined(e.card.ci@),
                    ) + ", which is outside "@ + letters + " — the identity of "@ + names,
                },
            )
        }
    }
}

/// The colour identity rule for the whole list: nothing when a commander
/// resolved to a token or the commanders' combined identity is colourless
/// (which cannot be told apart from an index that never carried it), else
/// every library card outside it.
pub open spec fn colour_identity_violations(d: Deck) -> Seq<ViolationView> {
    let cs = d.commanders@;
    let letters = wubrg_letters(commander_identity(cs, cs.len() as int));
    if exists|k: int| 0 <= k < cs.len() && token_line(#[trigger] cs[k].card.type_line@) {
        Seq::empty()
    } else if letters.len() == 0 {
        Seq::empty()
    } else {
        identity_violations(
            d.entries@,
            Colors(
                match letters_mask(letters) {
                    Some(m) => m,
                    None => 0u8,
                },
            ),
            letters,
            commander_names(cs, cs.len() as int),
            d.entries@.len() as int,
        )
    }
}

/// Every card the list plays: the library, then the commanders.
pub open spec fn played(d: Deck) -> Seq<DeckEntry> {
    d.entries@ + d.commanders@
}

/// The singleton violations among the first `n` played entries.
pub open spec fn singleton_violations(es: Seq<DeckEntry>, n: int) -> Seq<ViolationView>
    decreases n,
{
    if n <= 0 {
        Seq::empty()
    } else {
        let prev = singleton_violations(es, n - 1);
        let e = es[n - 1];
        if e.qty <= 1 || token_line(e.card.type_line@) || any_number_of(e.card) != Some(false) {
            prev
        } else {
            prev.push(
                ViolationView {
                    rule: "singleton"@,
                    card: Some(e.card.name@),
                    detail: decimal_spec(e.qty as nat) + "x "@ + e.card.name@
                        + " — Commander is singleton outside basic lands and the cards that say otherwise"@,
                },
            )
        }
    }
}

/// The format violations among the first `n` played entries.
pub open spec fn format_violations(es: Seq<DeckEntry>, n: int) -> Seq<ViolationView>
    decreases n,
{
    if n <= 0 {
        Seq::empty()
    } else {
        let prev = format_violations(es, n - 1);
        let e = es[n - 1];
        if token_line(e.card.type_line@) || playable_in_commander(e.card) != Some(false) {
            prev
        } else {
            prev.push(
                ViolationView {
                    rule: "format_legality"@,
                    card: Some(e.card.name@),
                    detail: e.card.name@ + if commander_legality_of(e.card)
                        == CommanderLegality::Banned {
                        " is banned in Commander"@
                    } else {
                        " is not legal in Commander"@
                    },
                },
            )
        }
    }
}

/// The number of cards the first `n` entries hold.
pub open spec fn copies(es: Seq<DeckEntry>, n: int) -> int
    decreases n,
{
    if n <= 0 {
        0
    } else {
        copies(es, n - 1) + es[n - 1].qty
    }
}

/// The deck size rule: a hundred cards, library and command zone together.
pub open spec fn size_violations(d: Deck) -> Seq<ViolationView> {
    let library = copies(d.entries@, d.entries@.len() as int);
    let zone = copies(d.commanders@, d.commanders@.len() as int);
    if library + zone == 100 {
        Seq::empty()
    } else {
        seq![
            ViolationView {
                rule: "deck_size"@,
                card: None,
                detail: "a Commander deck is 100 cards; this list has "@ + decimal_spec(
                    (library + zone) as nat,
                ) + " ("@ + decimal_spec(library as nat) + " in the library plus "@
                    + decimal_spec(zone as nat) + " in the command zone)"@,
            },
        ]
    }
}

/// Everything wrong with a list that nominates a commander, rule by rule:
/// commanders that cannot command, cards outside the colour identity,
/// cards over the singleton limit, cards Commander does not allow, and the
/// deck size.
pub open spec fn deck_violations(d: Deck) -> Seq<ViolationView> {
    if d.commanders@.len() == 0 {
        Seq::empty()
    } else {
        commander_violations(d.commanders@, d.commanders@.len() as int)
            + colour_identity_violations(d) + singleton_violations(
            played(d),
            played(d).len() as int,
        ) + format_violations(played(d), played(d).len() as int) + size_violations(d)
    }
}

proof fn lemma_views_push(vs: Seq<Violation>, v: Violation)
    ensures
        violations_view(vs.push(v)) == violations_view(vs).push(violation_view(v)),
{
    assert(violations_view(vs.push(v)) =~= violations_view(vs).push(violation_view(v)));
}

fn check_commanders(deck: &Deck, found: &mut Vec<Violation>)
    ensures
        violations_view(final(found)@) == violations_view(old(found)@) + commander_violations(
            deck.commanders@,
            deck.commanders@.len() as int,
        ),
{
    let ghost start = violations_view(found@);
    let mut k: usize = 0;
    while k < deck.commanders.len()
        invariant
            k <= deck.commanders@.len(),
            violations_view(found@) == start + commander_violations(deck.commanders@, k as int),
        decreases deck.commanders@.len() - k,
    {
        let e = &deck.commanders[k];
        let tl = e.card.type_line.as_str();
        let skip = tl.unicode_len() == 0 || is_token(tl) || commander_route(
            e.card.name.as_str(),
            tl,
            e.card.oracle.as_str(),
        ).is_some();
        if !skip {
            let mut detail: Vec<char> = Vec::new();
            push_str(&mut detail, e.card.name.as_str());
            push_str(
                &mut detail,
                " is nominated as a commander, but it is neither a legendary creature nor a card whose own text says it can be one",
            );
            let v = Violation {
                rule: "commander",
                card: Some(crate::text::copy_string(&e.card.name)),
                detail: string_of(detail.as_slice()),
            };
            let ghost before = found@;
            found.push(v);
            proof {
                lemma_views_push(before, v);
                reveal_strlit("commander");
                assert(violation_view(v).rule == "commander"@);
            }
        }
        k += 1;
    }
}


/// The characters of `ci`, joined.
fn joined_chars(ci: &Vec<String>) -> (r: Vec<char>)
    ensures
        r@ == joined(ci@),
{
    let mut out: Vec<char> = Vec::new();
    let mut i: usize = 0;
    while i < ci.len()
        invariant
            i <= ci@.len(),
            out@ == joined(ci@.subrange(0, i as int)),
        decreases ci@.len() - i,
    {
        push_str(&mut out, ci[i].as_str());
        i += 1;
        proof {
            assert(ci@.subrange(0, i as int).drop_last() =~= ci@.subrange(0, i - 1));
        }
    }
    proof {
        assert(ci@.subrange(0, ci@.len() as int) =~= ci@);
    }
    out
}

fn check_color_identity(deck: &Deck, found: &mut Vec<Violation>)
    ensures
        violations_view(final(found)@) == violations_view(old(found)@) + colour_identity_violations(
            *deck,
        ),
{
    let ghost start = violations_view(found@);
    let cs = &deck.commanders;
    let mut k: usize = 0;
    while k < cs.len()
        invariant
            k <= cs@.len(),
            violations_view(found@) == start,
            cs == &deck.commanders,
            forall|j: int| 0 <= j < k ==> !token_line(#[trigger] cs@[j].card.type_line@),
        decreases cs@.len() - k,
    {
        if is_token(cs[k].card.type_line.as_str()) {
            proof {
                assert(token_line(cs@[k as int].card.type_line@));
                assert(violations_view(found@) =~= start + Seq::<ViolationView>::empty());
            }
            return;
        }
        k += 1;
    }
    let mut all: Vec<char> = Vec::new();
    let mut names: Vec<char> = Vec::new();
    let mut k: usize = 0;
    while k < cs.len()
        invariant
            k <= cs@.len(),
            all@ == commander_identity(cs@, k as int),
            names@ == commander_names(cs@, k as int),
        decreases cs@.len() - k,
    {
        let ci = joined_chars(&cs[k].card.ci);
        push_chars(&mut all, ci.as_slice());
        if k > 0 {
            push_str(&mut names, " and ");
        }
        push_str(&mut names, cs[k].card.name.as_str());
        k += 1;
        proof {
            if k == 1 {
                assert(names@ =~= commander_names(cs@, 1));
            }
        }
    }
    let letters = wubrg_letters_of(all.as_slice());
    if letters.len() == 0 {
        proof {
            assert(violations_view(found@) =~= start + Seq::<ViolationView>::empty());
        }
        return;
    }
    let allowed = match Colors::from_letter_chars(letters.as_slice()) {
        Some(c) => c,
        None => Colors(0),
    };
    let es = &deck.entries;
    let mut i: usize = 0;
    while i < es.len()
        invariant
            i <= es@.len(),
            letters@ == wubrg_letters(commander_identity(cs@, cs@.len() as int)),
            names@ == commander_names(cs@, cs@.len() as int),
            allowed == Colors(
                match letters_mask(letters@) {
                    Some(m) => m,
                    None => 0u8,
                },
            ),
            violations_view(found@) == start + identity_violations(
                es@,
                allowed,
                letters@,
                names@,
                i as int,
            ),
        decreases es@.len() - i,
    {
        let e = &es[i];
        if !(is_token(e.card.type_line.as_str()) || identity_fits_within(
            e.card.ci.as_slice(),
            allowed,
        )) {
            let mut detail: Vec<char> = Vec::new();
            push_str(&mut detail, e.card.name.as_str());
            push_str(&mut detail, " has colour identity ");
            let own = joined_chars(&e.card.ci);
            let own_letters = wubrg_letters_of(own.as_slice());
            push_chars(&mut detail, own_letters.as_slice());
            push_str(&mut detail, ", which is outside ");
            push_chars(&mut detail, letters.as_slice());
            push_str(&mut detail, " — the identity of ");
            push_chars(&mut detail, names.as_slice());
            let v = Violation {
                rule: "color_identity",
                card: Some(crate::text::copy_string(&e.card.name)),
                detail: string_of(detail.as_slice()),
            };
            let ghost before = found@;
            found.push(v);
            proof {
                lemma_views_push(before, v);
            }
        }
        i += 1;
    }
}

/// The `i`th card the list plays: the library, then the commanders.
fn played_at(deck: &Deck, i: usize) -> (e: &DeckEntry)
    requires
        i < played(*deck).len(),
    ensures
        *e == played(*deck)[i as int],
{
    if i < deck.entries.len() {
        &deck.entries[i]
    } else {
        &deck.commanders[i - deck.entries.len()]
    }
}

fn check_singleton(deck: &Deck, found: &mut Vec<Violation>)
    requires
        deck.entries@.len() + deck.commanders@.len() <= usize::MAX,
    ensures
        violations_view(final(found)@) == violations_view(old(found)@) + singleton_violations(
            played(*deck),
            played(*deck).len() as int,
        ),
{
    let ghost start = violations_view(found@);
    let ghost es = played(*deck);
    let n = deck.entries.len() + deck.commanders.len();
    let mut i: usize = 0;
    while i < n
        invariant
            es == played(*deck),
            n == es.len(),
            i <= es.len(),
            violations_view(found@) == start + singleton_violations(es, i as int),
        decreases es.len() - i,
    {
        let e = played_at(deck, i);
        let skip = e.qty <= 1 || is_token(e.card.type_line.as_str()) || match may_appear_any_number_of_times(
            &e.card,
        ) {
            Some(false) => false,
            _ => true,
        };
        if !skip {
            let mut detail: Vec<char> = Vec::new();
            let q = decimal(e.qty as u64);
            push_chars(&mut detail, q.as_slice());
            push_str(&mut detail, "x ");
            push_str(&mut detail, e.card.name.as_str());
            push_str(
                &mut detail,
                " — Commander is singleton outside basic lands and the cards that say otherwise",
            );
            let v = Violation {
                rule: "singleton",
                card: Some(crate::text::copy_string(&e.card.name)),
                detail: string_of(detail.as_slice()),
            };
            let ghost before = found@;
            found.push(v);
            proof {
                lemma_views_push(before, v);
            }
        }
        i += 1;
    }
}

fn check_format(deck: &Deck, found: &mut Vec<Violation>)
    requires
        deck.entries@.len() + deck.commanders@.len() <= usize::MAX,
    ensures
        violations_view(final(found)@) == violations_view(old(found)@) + format_violations(
            played(*deck),
            played(*deck).len() as int,
        ),
{
    let ghost start = violations_view(found@);
    let ghost es = played(*deck);
    let n = deck.entries.len() + deck.commanders.len();
    let mut i: usize = 0;
    while i < n
        invariant
            es == played(*deck),
            n == es.len(),
            i <= es.len(),
            violations_view(found@) == start + format_violations(es, i as int),
        decreases es.len() - i,
    {
        let e = played_at(deck, i);
        let legality = commander_legality(&e.card);
        let refused = match legality {
            CommanderLegality::NotLegal | CommanderLegality::Banned => true,
            _ => false,
        };
        if !is_token(e.card.type_line.as_str()) && refused {
            let mut detail: Vec<char> = Vec::new();
            push_str(&mut detail, e.card.name.as_str());
            match legality {
                CommanderLegality::Banned => push_str(&mut detail, " is banned in Commander"),
                _ => push_str(&mut detail, " is not legal in Commander"),
            }
            let v = Violation {
                rule: "format_legality",
                card: Some(crate::text::copy_string(&e.card.name)),
                detail: string_of(detail.as_slice()),
            };
            let ghost before = found@;
            found.push(v);
            proof {
                lemma_views_push(before, v);
            }
        }
        i += 1;
    }
}

fn copies_of(es: &Vec<DeckEntry>) -> (r: u32)
    requires
        copies(es@, es@.len() as int) <= u32::MAX,
    ensures
        r == copies(es@, es@.len() as int),
{
    let mut total: u32 = 0;
    let mut i: usize = 0;
    while i < es.len()
        invariant
            i <= es@.len(),
            copies(es@, es@.len() as int) <= u32::MAX,
            total == copies(es@, i as int),
        decreases es@.len() - i,
    {
        proof {
            lemma_copies_prefix(es@, i + 1, es@.len() as int);
        }
        total = total + es[i].qty;
        i += 1;
    }
    total
}

proof fn lemma_copies_prefix(es: Seq<DeckEntry>, i: int, n: int)
    requires
        0 <= i <= n,
    ensures
        copies(es, i) <= copies(es, n),
    decreases n - i,
{
    if i < n {
        lemma_copies_prefix(es, i, n - 1);
    }
}

fn check_deck_size(deck: &Deck, found: &mut Vec<Violation>)
    requires
        copies(deck.entries@, deck.entries@.len() as int) + copies(
            deck.commanders@,
            deck.commanders@.len() as int,
        ) <= u32::MAX,
    ensures
        violations_view(final(found)@) == violations_view(old(found)@) + size_violations(*deck),
{
    let ghost start = violations_view(found@);
    proof {
        lemma_copies_nonneg(deck.entries@, deck.entries@.len() as int);
        lemma_copies_nonneg(deck.commanders@, deck.commanders@.len() as int);
    }
    let library = copies_of(&deck.entries);
    let zone = copies_of(&deck.commanders);
    let total = library + zone;
    if total == 100 {
        proof {
            assert(violations_view(found@) =~= start + Seq::<ViolationView>::empty());
        }
        return;
    }
    let mut detail: Vec<char> = Vec::new();
    push_str(&mut detail, "a Commander deck is 100 cards; this list has ");
    push_chars(&mut detail, decimal(total as u64).as_slice());
    push_str(&mut detail, " (");
    push_chars(&mut detail, decimal(library as u64).as_slice());
    push_str(&mut detail, " in the library plus ");
    push_chars(&mut detail, decimal(zone as u64).as_slice());
    push_str(&mut detail, " in the command zone)");
    let v = Violation { rule: "deck_size", card: None, detail: string_of(detail.as_slice()) };
    let ghost before = found@;
    found.push(v);
    proof {
        lemma_views_push(before, v);
        assert(violations_view(found@) =~= start + size_violations(*deck));
    }
}

proof fn lemma_copies_nonneg(es: Seq<DeckEntry>, n: int)
    ensures
        copies(es, n) >= 0,
    decreases n,
{
    if n > 0 {
        lemma_copies_nonneg(es, n - 1);
    }
}

/// Everything wrong with the list, as [`deck_violations`] says, or nothing
/// when it nominates no commander.
pub fn check(deck: &Deck) -> (r: Vec<Violation>)
    requires
        deck.entries@.len() + deck.commanders@.len() <= usize::MAX,
        copies(deck.entries@, deck.entries@.len() as int) + copies(
            deck.commanders@,
            deck.commanders@.len() as int,
        ) <= u32::MAX,
    ensures
        violations_view(r@) == deck_violations(*deck),
{
    let mut found: Vec<Violation> = Vec::new();
    if deck.commanders.len() == 0 {
        proof {
            assert(violations_view(found@) =~= Seq::<ViolationView>::empty());
        }
        return found;
    }
    proof {
        assert(violations_view(found@) =~= Seq::<ViolationView>::empty());
    }
    check_commanders(deck, &mut found);
    check_color_identity(deck, &mut found);
    check_singleton(deck, &mut found);
    check_format(deck, &mut found);
    check_deck_size(deck, &mut found);
    found
}


/// Whether `c` is, ignoring ASCII case, one of the identity letters some
/// commander in `cs` carries.
pub open spec fn some_commander_has(cs: Seq<DeckEntry>, c: char) -> bool {
    exists|k: int, j: int|
        0 <= k < cs.len() && 0 <= j < joined(cs[k].card.ci@).len() && ascii_upper(
            #[trigger] joined(cs[k].card.ci@)[j],
        ) == ascii_upper(c)
}

/// Every identity letter of every library card is one some commander
/// carries: the library sits inside the commanders' identities taken
/// together.
pub open spec fn library_within_commanders(d: Deck) -> bool {
    forall|e: int, j: int|
        0 <= e < d.entries@.len() && 0 <= j < joined(d.entries@[e].card.ci@).len()
            ==> some_commander_has(d.commanders@, #[trigger] joined(d.entries@[e].card.ci@)[j])
}

proof fn lemma_commander_letters_kept(cs: Seq<DeckEntry>, n: int, k: int, j: int)
    requires
        0 <= k < n <= cs.len(),
        0 <= j < joined(cs[k].card.ci@).len(),
    ensures
        commander_identity(cs, n).contains(joined(cs[k].card.ci@)[j]),
    decreases n,
{
    let cat = commander_identity(cs, n);
    let prev = commander_identity(cs, n - 1);
    let last = joined(cs[n - 1].card.ci@);
    assert(cat == prev + last);
    if k < n - 1 {
        lemma_commander_letters_kept(cs, n - 1, k, j);
        let i = choose|i: int| 0 <= i < prev.len() && prev[i] == joined(cs[k].card.ci@)[j];
        assert(cat[i] == prev[i]);
    } else {
        assert(cat[prev.len() + j] == last[j]);
    }
}

proof fn lemma_bit_in_mask(s: Seq<char>, m: u8, j: int, b: u8)
    requires
        letters_mask(s) == Some(m),
        0 <= j < s.len(),
        color_bit(s[j]) == Some(b),
    ensures
        b & !m == 0,
    decreases s.len(),
{
    let m0 = letters_mask(s.drop_last());
    let b0 = color_bit(s.last());
    if j < s.len() - 1 {
        let mm = m0->0;
        assert(s.drop_last()[j] == s[j]);
        lemma_bit_in_mask(s.drop_last(), mm, j, b);
        let bl = b0->0;
        assert(m == mm | bl);
        assert(b & !mm == 0 ==> b & !(mm | bl) == 0) by (bit_vector);
    } else {
        let mm = m0->0;
        assert(m == mm | b);
        assert(b & !(mm | b) == 0) by (bit_vector);
    }
}

proof fn lemma_mask_within(s: Seq<char>, a: u8)
    requires
        forall|j: int|
            0 <= j < s.len() ==> match color_bit(#[trigger] s[j]) {
                Some(b) => b & !a == 0,
                None => true,
            },
    ensures
        match letters_mask(s) {
            Some(m) => m & !a == 0,
            None => true,
        },
    decreases s.len(),
{
    assert(0u8 & !a == 0) by (bit_vector);
    if s.len() > 0 {
        assert forall|j: int| 0 <= j < s.drop_last().len() implies match color_bit(
            #[trigger] s.drop_last()[j],
        ) {
            Some(b) => b & !a == 0,
            None => true,
        } by {
            assert(s.drop_last()[j] == s[j]);
        }
        lemma_mask_within(s.drop_last(), a);
        let lm = letters_mask(s.drop_last());
        let lb = color_bit(s[s.len() - 1]);
        assert(s.last() == s[s.len() - 1]);
        if lm is Some && lb is Some {
            let m = lm->0;
            let b = lb->0;
            assert(b & !a == 0);
            assert(m & !a == 0);
            assert(m & !a == 0 && b & !a == 0 ==> (m | b) & !a == 0) by (bit_vector);
            assert(letters_mask(s) == Some(m | b));
        }
    }
}

proof fn lemma_mask_some(s: Seq<char>)
    requires
        forall|j: int| 0 <= j < s.len() ==> (#[trigger] color_bit(s[j])) is Some,
    ensures
        letters_mask(s) is Some,
    decreases s.len(),
{
    if s.len() > 0 {
        assert forall|j: int| 0 <= j < s.drop_last().len() implies (#[trigger] color_bit(
            s.drop_last()[j],
        )) is Some by {
            assert(s.drop_last()[j] == s[j]);
        }
        lemma_mask_some(s.drop_last());
        assert(color_bit(s[s.len() - 1]) is Some);
    }
}

proof fn lemma_no_identity_violations(
    es: Seq<DeckEntry>,
    allowed: Colors,
    letters: Seq<char>,
    names: Seq<char>,
    n: int,
)
    requires
        0 <= n <= es.len(),
        forall|e: int|
            0 <= e < n ==> (match letters_mask(joined((#[trigger] es[e]).card.ci@)) {
                Some(m) => m,
                None => 0u8,
            } & !allowed.0) == 0,
    ensures
        identity_violations(es, allowed, letters, names, n).len() == 0,
    decreases n,
{
    if n > 0 {
        lemma_no_identity_violations(es, allowed, letters, names, n - 1);
        assert(es[n - 1] == es[n - 1]);
    }
}

/// Partners and a Background define the deck's identity together: a list
/// whose every library card takes its identity letters from among those its
/// commanders carry, any of them, breaks no colour identity rule.
pub proof fn commanders_share_their_identity(d: Deck)
    requires
        library_within_commanders(d),
    ensures
        colour_identity_violations(d).len() == 0,
{
    let cs = d.commanders@;
    let cat = commander_identity(cs, cs.len() as int);
    let up = cat.map_values(|c: char| ascii_upper(c));
    let pred = |c: char| up.contains(c);
    let letters = wubrg_letters(cat);
    reveal_strlit("WUBRG");
    let wubrg = "WUBRG"@;
    assert(wubrg.len() == 5);
    assert(wubrg[0] == 'W' && wubrg[1] == 'U' && wubrg[2] == 'B' && wubrg[3] == 'R' && wubrg[4]
        == 'G');
    assert(letters == wubrg.filter(pred));
    if (exists|k: int| 0 <= k < cs.len() && token_line(#[trigger] cs[k].card.type_line@))
        || letters.len() == 0 {
        return;
    }
    assert forall|j: int| 0 <= j < letters.len() implies (#[trigger] color_bit(letters[j])) is Some by {
        wubrg.lemma_filter_pred(pred, j);
        assert(letters.contains(letters[j]));
        wubrg.lemma_filter_contains_rev(pred, letters[j]);
    }
    lemma_mask_some(letters);
    let m = letters_mask(letters)->0;
    let allowed = Colors(m);
    assert forall|e: int|
        0 <= e < d.entries@.len() implies (match letters_mask(
        joined((#[trigger] d.entries@[e]).card.ci@),
    ) {
        Some(x) => x,
        None => 0u8,
    } & !allowed.0) == 0 by {
        let s = joined(d.entries@[e].card.ci@);
        assert forall|j: int| 0 <= j < s.len() implies match color_bit(#[trigger] s[j]) {
            Some(b) => b & !m == 0,
            None => true,
        } by {
            let c = s[j];
            assert(some_commander_has(cs, c));
            let (k, i) = choose|k: int, i: int|
                0 <= k < cs.len() && 0 <= i < joined(cs[k].card.ci@).len() && ascii_upper(
                    #[trigger] joined(cs[k].card.ci@)[i],
                ) == ascii_upper(c);
            lemma_commander_letters_kept(cs, cs.len() as int, k, i);
            let x = joined(cs[k].card.ci@)[i];
            let p = choose|p: int| 0 <= p < cat.len() && cat[p] == x;
            assert(up[p] == ascii_upper(c));
            assert(up.contains(ascii_upper(c)));
            match color_bit(c) {
                Some(b) => {
                    if b != 0 {
                        let w: int = if b == 1 {
                            0
                        } else if b == 2 {
                            1
                        } else if b == 4 {
                            2
                        } else if b == 8 {
                            3
                        } else {
                            4
                        };
                        assert(wubrg[w] == ascii_upper(c));
                        wubrg.lemma_filter_contains(pred, w);
                        let q = choose|q: int| 0 <= q < letters.len() && letters[q] == wubrg[w];
                        assert(color_bit(letters[q]) == Some(b));
                        lemma_bit_in_mask(letters, m, q, b);
                    } else {
                        assert(0u8 & !m == 0) by (bit_vector);
                    }
                },
                None => {},
            }
        }
        lemma_mask_within(s, m);
        assert(0u8 & !m == 0) by (bit_vector);
    }
    lemma_no_identity_violations(
        d.entries@,
        allowed,
        letters,
        commander_names(cs, cs.len() as int),
        d.entries@.len() as int,
    );
}


proof fn lemma_commander_letter_source(cs: Seq<DeckEntry>, n: int, p: int)
    requires
        0 <= n <= cs.len(),
        0 <= p < commander_identity(cs, n).len(),
    ensures
        exists|k: int, j: int|
            0 <= k < n && 0 <= j < joined(cs[k].card.ci@).len() && #[trigger] joined(
                cs[k].card.ci@,
            )[j] == commander_identity(cs, n)[p],
    decreases n,
{
    let prev = commander_identity(cs, n - 1);
    let last = joined(cs[n - 1].card.ci@);
    assert(commander_identity(cs, n) == prev + last);
    if p < prev.len() {
        lemma_commander_letter_source(cs, n - 1, p);
        let (k, j) = choose|k: int, j: int|
            0 <= k < n - 1 && 0 <= j < joined(cs[k].card.ci@).len() && #[trigger] joined(
                cs[k].card.ci@,
            )[j] == prev[p];
        assert(joined(cs[k].card.ci@)[j] == commander_identity(cs, n)[p]);
    } else {
        assert(last[p - prev.len()] == commander_identity(cs, n)[p]);
    }
}

proof fn lemma_same_bit_same_letter(x: char, y: char, b: u8)
    requires
        color_bit(x) == Some(b),
        color_bit(y) == Some(b),
        b != 0,
    ensures
        ascii_upper(x) == ascii_upper(y),
{
}

proof fn lemma_mask_avoids(s: Seq<char>, m: u8, b: u8)
    requires
        letters_mask(s) == Some(m),
        forall|j: int|
            0 <= j < s.len() ==> match color_bit(#[trigger] s[j]) {
                Some(x) => x & b == 0,
                None => true,
            },
    ensures
        m & b == 0,
    decreases s.len(),
{
    if s.len() == 0 {
        assert(0u8 & b == 0) by (bit_vector);
    } else {
        let mm = letters_mask(s.drop_last())->0;
        let x = color_bit(s[s.len() - 1])->0;
        assert(s.last() == s[s.len() - 1]);
        assert forall|j: int| 0 <= j < s.drop_last().len() implies match color_bit(
            #[trigger] s.drop_last()[j],
        ) {
            Some(x) => x & b == 0,
            None => true,
        } by {
            assert(s.drop_last()[j] == s[j]);
        }
        lemma_mask_avoids(s.drop_last(), mm, b);
        assert(m == mm | x);
        assert(mm & b == 0 && x & b == 0 ==> (mm | x) & b == 0) by (bit_vector);
    }
}

proof fn lemma_violation_kept(
    es: Seq<DeckEntry>,
    allowed: Colors,
    letters: Seq<char>,
    names: Seq<char>,
    n: int,
    e: int,
)
    requires
        0 <= e < n <= es.len(),
        !token_line(es[e].card.type_line@),
        (match letters_mask(joined(es[e].card.ci@)) {
            Some(m) => m,
            None => 0u8,
        } & !allowed.0) != 0,
    ensures
        exists|i: int|
            0 <= i < identity_violations(es, allowed, letters, names, n).len() && (#[trigger] identity_violations(
                es,
                allowed,
                letters,
                names,
                n,
            )[i]).rule == "color_identity"@ && identity_violations(es, allowed, letters, names, n)[i].card
                == Some(es[e].card.name@),
    decreases n,
{
    let prev = identity_violations(es, allowed, letters, names, n - 1);
    let now = identity_violations(es, allowed, letters, names, n);
    if e < n - 1 {
        lemma_violation_kept(es, allowed, letters, names, n - 1, e);
        let i = choose|i: int|
            0 <= i < prev.len() && (#[trigger] prev[i]).rule == "color_identity"@ && prev[i].card
                == Some(es[e].card.name@);
        assert(now == prev || now == prev.push(now.last()));
        assert(now[i] == prev[i]);
    } else {
        assert(now.len() == prev.len() + 1);
        assert(now[prev.len() as int].card == Some(es[e].card.name@));
    }
}

/// The other side of the rule: where the commanders carry some colour, a
/// library card (not a token) whose identity names a colour none of them
/// carries is reported as outside the deck's identity.
pub proof fn a_colour_no_commander_carries_is_reported(d: Deck, e: int, j: int, b: u8)
    requires
        forall|k: int|
            0 <= k < d.commanders@.len() ==> !token_line(
                (#[trigger] d.commanders@[k]).card.type_line@,
            ),
        exists|k: int, i: int|
            0 <= k < d.commanders@.len() && 0 <= i < joined(d.commanders@[k].card.ci@).len()
                && #[trigger] color_bit(joined(d.commanders@[k].card.ci@)[i]) is Some && color_bit(
                joined(d.commanders@[k].card.ci@)[i],
            ) != Some(0u8),
        0 <= e < d.entries@.len(),
        !token_line(d.entries@[e].card.type_line@),
        letters_mask(joined(d.entries@[e].card.ci@)) is Some,
        0 <= j < joined(d.entries@[e].card.ci@).len(),
        color_bit(joined(d.entries@[e].card.ci@)[j]) == Some(b),
        b != 0,
        !some_commander_has(d.commanders@, joined(d.entries@[e].card.ci@)[j]),
    ensures
        exists|i: int|
            0 <= i < colour_identity_violations(d).len() && (#[trigger] colour_identity_violations(
                d,
            )[i]).rule == "color_identity"@ && colour_identity_violations(d)[i].card == Some(
                d.entries@[e].card.name@,
            ),
{
    let cs = d.commanders@;
    let cat = commander_identity(cs, cs.len() as int);
    let up = cat.map_values(|c: char| ascii_upper(c));
    let pred = |c: char| up.contains(c);
    let letters = wubrg_letters(cat);
    reveal_strlit("WUBRG");
    let wubrg = "WUBRG"@;
    assert(wubrg.len() == 5);
    assert(wubrg[0] == 'W' && wubrg[1] == 'U' && wubrg[2] == 'B' && wubrg[3] == 'R' && wubrg[4]
        == 'G');
    assert(letters == wubrg.filter(pred));
    let card = joined(d.entries@[e].card.ci@);
    let c = card[j];
    // The commanders carry a colour, so the letters are not empty.
    let (k0, i0) = choose|k: int, i: int|
        0 <= k < cs.len() && 0 <= i < joined(cs[k].card.ci@).len() && #[trigger] color_bit(
            joined(cs[k].card.ci@)[i],
        ) is Some && color_bit(joined(cs[k].card.ci@)[i]) != Some(0u8);
    let c0 = joined(cs[k0].card.ci@)[i0];
    lemma_commander_letters_kept(cs, cs.len() as int, k0, i0);
    let p0 = choose|p: int| 0 <= p < cat.len() && cat[p] == c0;
    assert(up[p0] == ascii_upper(c0));
    let b0 = color_bit(c0)->0;
    let w0: int = if b0 == 1 {
        0
    } else if b0 == 2 {
        1
    } else if b0 == 4 {
        2
    } else if b0 == 8 {
        3
    } else {
        4
    };
    assert(wubrg[w0] == ascii_upper(c0));
    wubrg.lemma_filter_contains(pred, w0);
    assert(letters.len() > 0);
    assert(!(exists|k: int| 0 <= k < cs.len() && token_line(#[trigger] cs[k].card.type_line@)));
    // Every letter is one some commander carries, so none has the card's bit.
    assert forall|q: int| 0 <= q < letters.len() implies (#[trigger] color_bit(letters[q])) is Some
        && (color_bit(letters[q])->0) & b == 0 by {
        wubrg.lemma_filter_pred(pred, q);
        assert(letters.contains(letters[q]));
        wubrg.lemma_filter_contains_rev(pred, letters[q]);
        let l = letters[q];
        let p = choose|p: int| 0 <= p < up.len() && up[p] == l;
        lemma_commander_letter_source(cs, cs.len() as int, p);
        let (k, i) = choose|k: int, i: int|
            0 <= k < cs.len() && 0 <= i < joined(cs[k].card.ci@).len() && #[trigger] joined(
                cs[k].card.ci@,
            )[i] == cat[p];
        let x = color_bit(l)->0;
        if x == b {
            lemma_same_bit_same_letter(l, c, b);
            assert(ascii_upper(joined(cs[k].card.ci@)[i]) == ascii_upper(c));
            assert(some_commander_has(cs, c));
        }
        assert(x == 1 || x == 2 || x == 4 || x == 8 || x == 16);
        assert(b == 1 || b == 2 || b == 4 || b == 8 || b == 16);
        assert((x == 1 || x == 2 || x == 4 || x == 8 || x == 16) && (b == 1 || b == 2 || b == 4
            || b == 8 || b == 16) && x != b ==> x & b == 0) by (bit_vector);
    }
    assert forall|q: int| 0 <= q < letters.len() implies (#[trigger] color_bit(letters[q])) is Some by {}
    lemma_mask_some(letters);
    let m = letters_mask(letters)->0;
    assert forall|q: int| 0 <= q < letters.len() implies match color_bit(#[trigger] letters[q]) {
        Some(x) => x & b == 0,
        None => true,
    } by {}
    lemma_mask_avoids(letters, m, b);
    let cm = letters_mask(card)->0;
    lemma_bit_in_mask(card, cm, j, b);
    assert(b != 0 && b & !cm == 0 && m & b == 0 ==> cm & !m != 0) by (bit_vector);
    lemma_violation_kept(
        d.entries@,
        Colors(m),
        letters,
        commander_names(cs, cs.len() as int),
        d.entries@.len() as int,
        e,
    );
    let all = identity_violations(
        d.entries@,
        Colors(m),
        letters,
        commander_names(cs, cs.len() as int),
        d.entries@.len() as int,
    );
    assert(colour_identity_violations(d) == all);
    let i = choose|i: int|
        0 <= i < all.len() && (#[trigger] all[i]).rule == "color_identity"@ && all[i].card == Some(
            d.entries@[e].card.name@,
        );
    assert(colour_identity_violations(d)[i] == all[i]);
}

} // verus!

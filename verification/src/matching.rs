//! Whether a card matches a parsed query.
//!
//! Everything a query can ask is read off the card's text here, except one
//! thing: a card's mana value is a fractional number (half points exist), and
//! so is the number a `mv` term compares it with. That comparison is handed in
//! by the caller, as "how does this card's mana value compare with the number
//! written here", and the rest of the matching is decided here.

use vstd::prelude::*;
use crate::colors::{joined, letters_mask, Cmp, Colors, IsProperty};
use crate::legality::{Legalities, Legality};
use crate::query::{lemma_views_index, query_view, rarity_named, rarity_of, views_of, Query, QueryView, Rarity};
use crate::text::{
    chars_of, contains, contains_exec, copy_string, eq_ignore_ascii_case, eq_ignore_case, lower,
    lowered, str_eq, string_of, trim, trim_spec,
};

verus! {

/// How one number stands to another.
#[derive(Debug, Clone, Copy, PartialEq, Eq, Structural)]
pub enum Order {
    Less,
    Equal,
    Greater,
}

/// A card as the matcher sees it: the card data, and the categories the
/// decklist gave it.
pub struct CardView<'a> {
    pub name: &'a str,
    pub type_line: &'a str,
    pub oracle: &'a str,
    /// The card's mana value, as the card data wrote the number.
    pub mana_value: &'a str,
    pub keywords: &'a [String],
    pub color_identity: &'a [String],
    pub rarity: &'a str,
    pub legalities: &'a Legalities,
    pub tags: &'a [String],
    pub categories: &'a [String],
}

/// What the matcher reads of a card, as the contracts see it.
pub struct CardFacts {
    pub name: Seq<char>,
    pub type_line: Seq<char>,
    pub oracle: Seq<char>,
    pub mana_value: Seq<char>,
    pub keywords: Seq<String>,
    pub color_identity: Seq<String>,
    pub rarity: Seq<char>,
    pub legalities: Legalities,
    pub tags: Seq<String>,
    pub categories: Seq<String>,
}

impl<'a> CardView<'a> {
    pub open spec fn facts(self) -> CardFacts {
        CardFacts {
            name: self.name@,
            type_line: self.type_line@,
            oracle: self.oracle@,
            mana_value: self.mana_value@,
            keywords: self.keywords@,
            color_identity: self.color_identity@,
            rarity: self.rarity@,
            legalities: *self.legalities,
            tags: self.tags@,
            categories: self.categories@,
        }
    }
}

/// Whether `needle` occurs in `hay` once ASCII case is ignored on both.
pub open spec fn contains_ci(hay: Seq<char>, needle: Seq<char>) -> bool {
    contains(lower(hay), lower(needle))
}

/// Whether one of `list` equals `s`, ignoring ASCII case.
pub open spec fn any_eq_ci(list: Seq<String>, s: Seq<char>) -> bool {
    exists|i: int| 0 <= i < list.len() && eq_ignore_case(#[trigger] list[i]@, s)
}

/// Whether one of `list` equals `s` exactly.
pub open spec fn any_eq(list: Seq<String>, s: Seq<char>) -> bool {
    exists|i: int| 0 <= i < list.len() && #[trigger] list[i]@ == s
}

/// The order Scryfall ranks rarities in.
pub open spec fn rank(r: Rarity) -> u8 {
    match r {
        Rarity::Common => 0,
        Rarity::Uncommon => 1,
        Rarity::Rare => 2,
        Rarity::Special => 3,
        Rarity::Mythic => 4,
        Rarity::Bonus => 5,
    }
}

/// Whether `a` stands to `b` as the comparison asks.
pub open spec fn compares(op: Cmp, a: int, b: int) -> bool {
    match op {
        Cmp::Lt => a < b,
        Cmp::Le => a <= b,
        Cmp::Eq => a == b,
        Cmp::Ne => a != b,
        Cmp::Ge => a >= b,
        Cmp::Gt => a > b,
    }
}

/// What `id` asks of a card's identity: subset and superset rather than a
/// numeric order, so `id<=W` asks whether the card fits in a white deck.
pub open spec fn identity_holds(op: Cmp, have: Colors, want: Colors) -> bool {
    let sub = have.0 & !want.0 == 0;
    let sup = want.0 & !have.0 == 0;
    match op {
        Cmp::Le => sub,
        Cmp::Lt => sub && have != want,
        Cmp::Ge => sup,
        Cmp::Gt => sup && have != want,
        Cmp::Eq => have == want,
        Cmp::Ne => have != want,
    }
}

/// The identity the card's colour letters spell, as
/// [`Colors::from_identity`] reads them.
pub open spec fn identity_of(card: CardFacts) -> Colors {
    Colors(
        match letters_mask(joined(card.color_identity)) {
            Some(m) => m,
            None => 0,
        },
    )
}

/// What `is:` asks of a card.
pub open spec fn is_holds(p: IsProperty, card: CardFacts) -> bool {
    let t = card.type_line;
    match p {
        IsProperty::Permanent => contains_ci(t, "artifact"@) || contains_ci(t, "creature"@)
            || contains_ci(t, "enchantment"@) || contains_ci(t, "land"@) || contains_ci(
            t,
            "planeswalker"@,
        ) || contains_ci(t, "battle"@),
        IsProperty::Spell => !contains_ci(t, "land"@),
        IsProperty::Historic => contains_ci(t, "artifact"@) || contains_ci(t, "legendary"@)
            || contains_ci(t, "saga"@),
        IsProperty::Vanilla => contains_ci(t, "creature"@) && trim_spec(card.oracle).len() == 0,
    }
}

/// Whether `q` holds of `card`, where `mv` says how one number, as written,
/// compares with another: the card's mana value with a `mv` term's.
pub open spec fn holds(
    q: QueryView,
    card: CardFacts,
    mv: spec_fn(Seq<char>, Seq<char>) -> Option<Order>,
) -> bool
    decreases q, 0nat,
{
    match q {
        QueryView::Type(s) => contains_ci(card.type_line, s),
        QueryView::Oracle(s) => contains_ci(card.oracle, s),
        QueryView::Name(s) => contains_ci(card.name, s),
        QueryView::Keyword(s) => any_eq_ci(card.keywords, s),
        QueryView::Category(s) => any_eq_ci(card.categories, s),
        QueryView::Tag(s) => any_eq(card.tags, s),
        QueryView::ManaValue(op, s) => match mv(card.mana_value, s) {
            Some(ord) => match ord {
                Order::Less => op is Lt || op is Le || op is Ne,
                Order::Equal => op is Le || op is Eq || op is Ge,
                Order::Greater => op is Ne || op is Ge || op is Gt,
            },
            None => false,
        },
        QueryView::Identity(op, want) => identity_holds(op, identity_of(card), want),
        QueryView::Format(f) => match card.legalities.get_spec(f) {
            Some(Legality::Legal) => true,
            Some(Legality::Restricted) => true,
            _ => false,
        },
        QueryView::Rarity(op, want) => match rarity_named(card.rarity) {
            Some(have) => compares(op, rank(have) as int, rank(want) as int),
            None => false,
        },
        QueryView::Is(p) => is_holds(p, card),
        QueryView::Not(inner) => !holds(*inner, card, mv),
        QueryView::And(parts) => all_hold(parts, parts.len(), card, mv),
        QueryView::Or(parts) => some_hold(parts, parts.len(), card, mv),
    }
}

/// Whether each of the first `n` parts holds.
pub open spec fn all_hold(
    parts: Seq<QueryView>,
    n: nat,
    card: CardFacts,
    mv: spec_fn(Seq<char>, Seq<char>) -> Option<Order>,
) -> bool
    decreases parts, n,
{
    if n == 0 || n > parts.len() {
        true
    } else {
        all_hold(parts, (n - 1) as nat, card, mv) && holds(parts[n - 1], card, mv)
    }
}

/// Whether one of the first `n` parts holds.
pub open spec fn some_hold(
    parts: Seq<QueryView>,
    n: nat,
    card: CardFacts,
    mv: spec_fn(Seq<char>, Seq<char>) -> Option<Order>,
) -> bool
    decreases parts, n,
{
    if n == 0 || n > parts.len() {
        false
    } else {
        some_hold(parts, (n - 1) as nat, card, mv) || holds(parts[n - 1], card, mv)
    }
}

/// Whether every answer `f` can give is the one `m` gives.
pub open spec fn answers_as<F: Fn(String, String) -> Option<Order>>(
    f: F,
    m: spec_fn(Seq<char>, Seq<char>) -> Option<Order>,
) -> bool {
    forall|a: String, b: String, o: Option<Order>| #[trigger]
        call_ensures(f, (a, b), o) ==> o == m(a@, b@)
}

fn contains_ci_exec(hay: &str, needle: &str) -> (r: bool)
    ensures
        r == contains_ci(hay@, needle@),
{
    let h = chars_of(hay);
    let n = chars_of(needle);
    let hl = lowered(h.as_slice());
    let nl = lowered(n.as_slice());
    contains_exec(hl.as_slice(), nl.as_slice())
}

fn any_eq_ci_exec(list: &[String], s: &String) -> (r: bool)
    ensures
        r == any_eq_ci(list@, s@),
{
    let want = chars_of(s.as_str());
    let mut i: usize = 0;
    while i < list.len()
        invariant
            i <= list.len(),
            want@ == s@,
            forall|j: int| 0 <= j < i ==> !eq_ignore_case(#[trigger] list@[j]@, s@),
        decreases list.len() - i,
    {
        let have = chars_of(list[i].as_str());
        if eq_ignore_ascii_case(have.as_slice(), want.as_slice()) {
            return true;
        }
        i += 1;
    }
    false
}

fn any_eq_exec(list: &[String], s: &String) -> (r: bool)
    ensures
        r == any_eq(list@, s@),
{
    let mut i: usize = 0;
    while i < list.len()
        invariant
            i <= list.len(),
            forall|j: int| 0 <= j < i ==> #[trigger] list@[j]@ != s@,
        decreases list.len() - i,
    {
        if str_eq(list[i].as_str(), s.as_str()) {
            return true;
        }
        i += 1;
    }
    false
}

fn rank_of(r: Rarity) -> (k: u8)
    ensures
        k == rank(r),
{
    match r {
        Rarity::Common => 0,
        Rarity::Uncommon => 1,
        Rarity::Rare => 2,
        Rarity::Special => 3,
        Rarity::Mythic => 4,
        Rarity::Bonus => 5,
    }
}

fn compares_exec(op: Cmp, a: u8, b: u8) -> (r: bool)
    ensures
        r == compares(op, a as int, b as int),
{
    match op {
        Cmp::Lt => a < b,
        Cmp::Le => a <= b,
        Cmp::Eq => a == b,
        Cmp::Ne => a != b,
        Cmp::Ge => a >= b,
        Cmp::Gt => a > b,
    }
}

fn is_exec(p: IsProperty, card: &CardView<'_>) -> (r: bool)
    ensures
        r == is_holds(p, card.facts()),
{
    let t = card.type_line;
    match p {
        IsProperty::Permanent => contains_ci_exec(t, "artifact") || contains_ci_exec(t, "creature")
            || contains_ci_exec(t, "enchantment") || contains_ci_exec(t, "land")
            || contains_ci_exec(t, "planeswalker") || contains_ci_exec(t, "battle"),
        IsProperty::Spell => !contains_ci_exec(t, "land"),
        IsProperty::Historic => contains_ci_exec(t, "artifact") || contains_ci_exec(t, "legendary")
            || contains_ci_exec(t, "saga"),
        IsProperty::Vanilla => {
            let o = chars_of(card.oracle);
            let trimmed = trim(o.as_slice());
            contains_ci_exec(t, "creature") && trimmed.len() == 0
        },
    }
}

impl Query {
    /// Whether this query holds of `card`.
    ///
    /// `mana_value` answers how one number, as written, compares with
    /// another — here the card's mana value with the number a `mv` term
    /// wrote — or `None` where the two cannot be compared. Whatever it
    /// answers, the result is what [`holds`] says of those answers.
    pub fn matches<F: Fn(String, String) -> Option<Order>>(
        &self,
        card: &CardView<'_>,
        mana_value: &F,
    ) -> (r: bool)
        requires
            forall|a: String, b: String| #[trigger] call_requires(*mana_value, (a, b)),
        ensures
            forall|m: spec_fn(Seq<char>, Seq<char>) -> Option<Order>|
                #[trigger] answers_as(*mana_value, m) ==> r == holds(query_view(*self), card.facts(), m),
        decreases self,
    {
        match self {
            Query::Type(s) => contains_ci_exec(card.type_line, s.as_str()),
            Query::Oracle(s) => contains_ci_exec(card.oracle, s.as_str()),
            Query::Name(s) => contains_ci_exec(card.name, s.as_str()),
            Query::Keyword(s) => any_eq_ci_exec(card.keywords, s),
            Query::Category(s) => any_eq_ci_exec(card.categories, s),
            Query::Tag(s) => any_eq_exec(card.tags, s),
            Query::ManaValue(op, s) => {
                let have_chars = chars_of(card.mana_value);
                let have = string_of(have_chars.as_slice());
                let written = copy_string(s);
                let answer = mana_value(have, written);
                match answer {
                    Some(Order::Less) => match op {
                        Cmp::Lt | Cmp::Le | Cmp::Ne => true,
                        _ => false,
                    },
                    Some(Order::Equal) => match op {
                        Cmp::Le | Cmp::Eq | Cmp::Ge => true,
                        _ => false,
                    },
                    Some(Order::Greater) => match op {
                        Cmp::Ne | Cmp::Ge | Cmp::Gt => true,
                        _ => false,
                    },
                    None => false,
                }
            },
            Query::Identity(op, want) => {
                let have = Colors::from_identity(card.color_identity);
                let sub = have.is_subset_of(*want);
                let sup = want.is_subset_of(have);
                match op {
                    Cmp::Le => sub,
                    Cmp::Lt => sub && have != *want,
                    Cmp::Ge => sup,
                    Cmp::Gt => sup && have != *want,
                    Cmp::Eq => have == *want,
                    Cmp::Ne => have != *want,
                }
            },
            Query::Format(f) => match card.legalities.get(f.as_str()) {
                Some(Legality::Legal) => true,
                Some(Legality::Restricted) => true,
                _ => false,
            },
            Query::Rarity(op, want) => {
                let word = chars_of(card.rarity);
                match rarity_of(word.as_slice()) {
                    Some(have) => compares_exec(*op, rank_of(have), rank_of(*want)),
                    None => false,
                }
            },
            Query::Is(p) => is_exec(*p, card),
            Query::Not(inner) => {
                let held = inner.matches(card, mana_value);
                !held
            },
            Query::And(parts) => {
                let ghost pv = views_of(parts@, parts@.len());
                proof {
                    lemma_views_index(parts@, parts@.len());
                }
                let mut i: usize = 0;
                let mut all = true;
                while i < parts.len()
                    invariant
                        i <= parts.len(),
                        *self == Query::And(*parts),
                        pv == views_of(parts@, parts@.len()),
                        pv.len() == parts@.len(),
                        forall|k: int| 0 <= k < parts@.len() ==> #[trigger] pv[k] == query_view(parts@[k]),
                        forall|a: String, b: String| #[trigger] call_requires(*mana_value, (a, b)),
                        forall|m: spec_fn(Seq<char>, Seq<char>) -> Option<Order>|
                            #[trigger] answers_as(*mana_value, m) ==> all == all_hold(pv, i as nat, card.facts(), m),
                    decreases parts.len() - i,
                {
                    proof {
                        let whole = *self;
                        assert(decreases_to!(whole => whole->And_0[i as int]));
                    }
                    let held = parts[i].matches(card, mana_value);
                    all = all && held;
                    i += 1;
                }
                all
            },
            Query::Or(parts) => {
                let ghost pv = views_of(parts@, parts@.len());
                proof {
                    lemma_views_index(parts@, parts@.len());
                }
                let mut i: usize = 0;
                let mut any = false;
                while i < parts.len()
                    invariant
                        i <= parts.len(),
                        *self == Query::Or(*parts),
                        pv == views_of(parts@, parts@.len()),
                        pv.len() == parts@.len(),
                        forall|k: int| 0 <= k < parts@.len() ==> #[trigger] pv[k] == query_view(parts@[k]),
                        forall|a: String, b: String| #[trigger] call_requires(*mana_value, (a, b)),
                        forall|m: spec_fn(Seq<char>, Seq<char>) -> Option<Order>|
                            #[trigger] answers_as(*mana_value, m) ==> any == some_hold(pv, i as nat, card.facts(), m),
                    decreases parts.len() - i,
                {
                    proof {
                        let whole = *self;
                        assert(decreases_to!(whole => whole->Or_0[i as int]));
                    }
                    let held = parts[i].matches(card, mana_value);
                    any = any || held;
                    i += 1;
                }
                any
            },
        }
    }
}


/// The card types that stay on the battlefield: what `is:permanent` names.
pub open spec fn permanent_types() -> Seq<Seq<char>> {
    seq!["artifact"@, "creature"@, "enchantment"@, "land"@, "planeswalker"@, "battle"@]
}

/// The type searches `t:<word>` for each of `words`.
pub open spec fn type_searches(words: Seq<Seq<char>>) -> Seq<QueryView> {
    words.map_values(|w: Seq<char>| QueryView::Type(w))
}

/// Each `is:` word asks what a search on the type line asks: `is:permanent`
/// is a type line naming any permanent type (artifact, creature,
/// enchantment, land, planeswalker or battle, in any case); `is:spell` is
/// `-t:land`; `is:historic` is `t:artifact or t:legendary or t:saga`; and
/// `is:vanilla` is a creature with no rules text.
pub proof fn is_words_are_type_searches(
    card: CardFacts,
    mv: spec_fn(Seq<char>, Seq<char>) -> Option<Order>,
)
    ensures
        holds(QueryView::Is(IsProperty::Permanent), card, mv) == holds(
            QueryView::Or(type_searches(permanent_types())),
            card,
            mv,
        ),
        holds(QueryView::Is(IsProperty::Permanent), card, mv) <==> exists|i: int|
            0 <= i < permanent_types().len() && contains_ci(
                card.type_line,
                #[trigger] permanent_types()[i],
            ),
        holds(QueryView::Is(IsProperty::Spell), card, mv) == holds(
            QueryView::Not(Box::new(QueryView::Type("land"@))),
            card,
            mv,
        ),
        holds(QueryView::Is(IsProperty::Historic), card, mv) == holds(
            QueryView::Or(type_searches(seq!["artifact"@, "legendary"@, "saga"@])),
            card,
            mv,
        ),
        holds(QueryView::Is(IsProperty::Vanilla), card, mv) == (holds(
            QueryView::Type("creature"@),
            card,
            mv,
        ) && trim_spec(card.oracle).len() == 0),
        !holds(QueryView::Is(IsProperty::Spell), card, mv) ==> holds(
            QueryView::Is(IsProperty::Permanent),
            card,
            mv,
        ),
{
    let ps = type_searches(permanent_types());
    let hs = type_searches(seq!["artifact"@, "legendary"@, "saga"@]);
    reveal_with_fuel(some_hold, 7);
    assert(ps.len() == 6);
    assert(hs.len() == 3);
    assert(holds(QueryView::Or(ps), card, mv) == some_hold(ps, 6, card, mv));
    assert(holds(QueryView::Or(hs), card, mv) == some_hold(hs, 3, card, mv));
    let t = card.type_line;
    let land = QueryView::Type("land"@);
    assert(holds(land, card, mv) == contains_ci(t, "land"@));
    assert(holds(QueryView::Not(Box::new(land)), card, mv) == !holds(land, card, mv));
    if contains_ci(t, "artifact"@) {
        assert(contains_ci(t, permanent_types()[0]));
    }
    if contains_ci(t, "creature"@) {
        assert(contains_ci(t, permanent_types()[1]));
    }
    if contains_ci(t, "enchantment"@) {
        assert(contains_ci(t, permanent_types()[2]));
    }
    if contains_ci(t, "land"@) {
        assert(contains_ci(t, permanent_types()[3]));
    }
    if contains_ci(t, "planeswalker"@) {
        assert(contains_ci(t, permanent_types()[4]));
    }
    if contains_ci(t, "battle"@) {
        assert(contains_ci(t, permanent_types()[5]));
    }
}

} // verus!

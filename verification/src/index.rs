//! The card index's keys and what it knows about keywords.

use vstd::prelude::*;
use crate::colors::{joined, letters_mask, Colors};
use crate::legality::{
    commander_route, commander_word, front_face_types, has_basic_supertype, identity_fits_within,
    route_of, CommanderLegality, CommanderRoute, Legalities, Legality, LegalityWord,
};
use crate::matching::{CardFacts, CardView};
use crate::query::{lemma_views_index, query_view, views_of, Query, QueryView};
use crate::outside::{outside_kind, outside_library, OutsideLibrary};
use crate::text::{
    chars_of, copy_string, copy_strings, has_word_spec, str_eq, string_of, trim, trim_spec,
};

verus! {

/// What `str::to_lowercase` makes of some text: Unicode's full lowercase
/// mapping, which can change a string's length and which this crate does
/// not restate.
pub uninterp spec fn unicode_lowercase(s: Seq<char>) -> Seq<char>;

/// `str::to_lowercase`.
#[verifier::external_body]
fn to_lowercase(s: &str) -> (r: String)
    ensures
        r@ == unicode_lowercase(s@),
{
    s.to_lowercase()
}

/// A card name in the index's key form: trimmed of whitespace at both ends,
/// then lowercased. Lookups must use the same form the index was built
/// with, or every one misses.
pub fn keyname(name: &str) -> (r: String)
    ensures
        r@ == unicode_lowercase(trim_spec(name@)),
{
    let chars = chars_of(name);
    let trimmed = trim(chars.as_slice());
    let t = string_of(trimmed.as_slice());
    to_lowercase(t.as_str())
}

/// The keywords an index knows about, lowercased, for checking a `kw:` term
/// against.
#[derive(Debug, Clone, Default)]
pub struct KeywordVocabulary {
    known: Vec<String>,
}

impl KeywordVocabulary {
    /// The known keywords, each lowercased.
    pub closed spec fn known_of(self) -> Seq<Seq<char>> {
        self.known@.map_values(|k: String| k@)
    }

    /// The vocabulary of every keyword any card carries.
    pub fn from_keywords(keywords: &[String]) -> (v: KeywordVocabulary)
        ensures
            v.known_of() == keywords@.map_values(|k: String| unicode_lowercase(k@)),
    {
        let mut known: Vec<String> = Vec::new();
        let mut i: usize = 0;
        while i < keywords.len()
            invariant
                i <= keywords@.len(),
                known@.len() == i,
                forall|j: int| 0 <= j < i ==> #[trigger] known@[j]@ == unicode_lowercase(keywords@[j]@),
            decreases keywords@.len() - i,
        {
            known.push(to_lowercase(keywords[i].as_str()));
            i += 1;
        }
        proof {
            assert(known@.map_values(|k: String| k@) =~= keywords@.map_values(
                |k: String| unicode_lowercase(k@),
            ));
        }
        KeywordVocabulary { known }
    }

    /// Whether `keyword`, lowercased, is one of the known keywords.
    pub fn contains(&self, keyword: &str) -> (r: bool)
        ensures
            r == self.known_of().contains(unicode_lowercase(keyword@)),
    {
        let want = to_lowercase(keyword);
        let mut i: usize = 0;
        while i < self.known.len()
            invariant
                i <= self.known@.len(),
                want@ == unicode_lowercase(keyword@),
                forall|k: int| 0 <= k < i ==> self.known_of()[k] != want@,
            decreases self.known@.len() - i,
        {
            if crate::text::str_eq(self.known[i].as_str(), want.as_str()) {
                proof {
                    assert(self.known_of()[i as int] == want@);
                }
                return true;
            }
            i += 1;
        }
        false
    }

    /// Whether the index said anything at all about keywords: one silent
    /// about keywords proves nothing about any keyword.
    pub fn is_empty(&self) -> (r: bool)
        ensures
            r == (self.known_of().len() == 0),
    {
        self.known.len() == 0
    }
}

/// One face of a card, as the index stores it. Power, toughness, loyalty
/// and defense are kept as printed: `*`, `1+*` and `∞` are all real values.
#[derive(Debug, Clone, Default)]
pub struct Face {
    pub name: String,
    pub type_line: String,
    pub mana_cost: String,
    pub full_oracle: String,
    pub colors: Vec<String>,
    pub power: Option<String>,
    pub toughness: Option<String>,
    pub loyalty: Option<String>,
    pub defense: Option<String>,
}

fn copy_opt(s: &Option<String>) -> (r: Option<String>)
    ensures
        r == *s,
{
    match s {
        Some(t) => Some(t.clone()),
        None => None,
    }
}

fn copy_list(v: &Vec<String>) -> (r: Vec<String>)
    ensures
        r@ == v@,
{
    let mut out: Vec<String> = Vec::new();
    let mut i: usize = 0;
    while i < v.len()
        invariant
            i <= v@.len(),
            out@ =~= v@.subrange(0, i as int),
        decreases v@.len() - i,
    {
        out.push(v[i].clone());
        i += 1;
    }
    proof {
        assert(out@ =~= v@);
    }
    out
}

/// Whether two faces hold the same values.
pub open spec fn same_face(a: Face, b: Face) -> bool {
    &&& a.name == b.name
    &&& a.type_line == b.type_line
    &&& a.mana_cost == b.mana_cost
    &&& a.full_oracle == b.full_oracle
    &&& a.colors@ == b.colors@
    &&& a.power == b.power
    &&& a.toughness == b.toughness
    &&& a.loyalty == b.loyalty
    &&& a.defense == b.defense
}

/// Whether two cards hold the same values.
pub open spec fn same_card(a: Card, b: Card) -> bool {
    &&& a.name == b.name
    &&& a.oracle_id == b.oracle_id
    &&& a.layout == b.layout
    &&& a.ci@ == b.ci@
    &&& a.colors@ == b.colors@
    &&& a.type_line == b.type_line
    &&& a.mana_cost == b.mana_cost
    &&& a.cmc == b.cmc
    &&& a.oracle == b.oracle
    &&& a.full_oracle == b.full_oracle
    &&& a.keywords@ == b.keywords@
    &&& a.produces@ == b.produces@
    &&& a.rarity == b.rarity
    &&& a.set == b.set
    &&& a.faces@.len() == b.faces@.len()
    &&& forall|i: int| 0 <= i < a.faces@.len() ==> same_face(#[trigger] a.faces@[i], b.faces@[i])
    &&& a.legalities == b.legalities
    &&& a.commander_legal == b.commander_legal
    &&& a.any_number == b.any_number
    &&& a.game_changer == b.game_changer
    &&& a.reserved == b.reserved
    &&& a.tags@ == b.tags@
}

impl Face {
    /// A copy of this face.
    pub fn copy(&self) -> (r: Face)
        ensures
            same_face(r, *self),
    {
        Face {
            name: self.name.clone(),
            type_line: self.type_line.clone(),
            mana_cost: self.mana_cost.clone(),
            full_oracle: self.full_oracle.clone(),
            colors: copy_list(&self.colors),
            power: copy_opt(&self.power),
            toughness: copy_opt(&self.toughness),
            loyalty: copy_opt(&self.loyalty),
            defense: copy_opt(&self.defense),
        }
    }
}

/// The index shape this build writes. Bumped when a field is added that a
/// query depends on, so a run against an older index can say *rebuild it*
/// rather than answer from data that was never there.
pub const SCHEMA: u32 = 1;

/// One card, as the index stores it.
///
/// Every field but the name may be absent in an older index or a
/// hand-written fixture, so absence is representable everywhere.
#[derive(Debug, Clone)]
pub struct Card {
    pub name: String,
    /// Scryfall's identity for the card; names are not unique.
    pub oracle_id: Option<String>,
    pub layout: String,
    /// Colour identity letters, e.g. `["W","U"]`: what `id:` reads.
    pub ci: Vec<String>,
    /// The card's own colours, which are not its identity.
    pub colors: Vec<String>,
    pub type_line: String,
    pub mana_cost: String,
    /// The mana value, as the card data wrote the number. Half points
    /// exist, so it is not a whole number.
    pub cmc: String,
    /// Oracle text of every face, joined, with reminder text removed: what
    /// `o:` searches.
    pub oracle: String,
    /// The same text with reminder text left in, written only where it
    /// differs; `None` means the two are the same.
    pub full_oracle: Option<String>,
    /// Keyword abilities and actions as Scryfall prints them.
    pub keywords: Vec<String>,
    /// The mana this card can make, as Scryfall's `produced_mana`.
    pub produces: Vec<String>,
    pub rarity: String,
    pub set: String,
    /// Every face, including the only one of a single-faced card.
    pub faces: Vec<Face>,
    /// What every format says about this card.
    pub legalities: Legalities,
    /// An older index's single Commander legality word, read and never
    /// written.
    pub commander_legal: LegalityWord,
    /// Whether a deck may contain any number of copies; `None` when the
    /// index never said.
    pub any_number: Option<bool>,
    pub game_changer: Option<bool>,
    pub reserved: Option<bool>,
    /// The oracle tags this card carries, e.g. `tapland`.
    pub tags: Vec<String>,
}

/// The text `fo:` searches: the full oracle text where the index wrote
/// one, else the stripped text, which is then the same.
pub open spec fn full_oracle_of(c: Card) -> Seq<char> {
    match c.full_oracle {
        Some(f) => f@,
        None => c.oracle@,
    }
}

/// What the index says about a card's Commander legality: the format
/// table first, falling back to an older index's single word.
pub open spec fn commander_legality_spec(c: Card) -> CommanderLegality {
    let k = match c.legalities.get_spec("commander"@) {
        Some(Legality::Legal) => CommanderLegality::Legal,
        Some(Legality::NotLegal) => CommanderLegality::NotLegal,
        Some(Legality::Banned) => CommanderLegality::Banned,
        _ => CommanderLegality::Unknown,
    };
    if k == CommanderLegality::Unknown {
        commander_word(c.commander_legal.word())
    } else {
        k
    }
}

impl Card {
    /// A copy of this card.
    pub fn copy(&self) -> (r: Card)
        ensures
            same_card(r, *self),
    {
        let mut faces: Vec<Face> = Vec::new();
        let mut i: usize = 0;
        while i < self.faces.len()
            invariant
                i <= self.faces@.len(),
                faces@.len() == i,
                forall|k: int| 0 <= k < i ==> same_face(#[trigger] faces@[k], self.faces@[k]),
            decreases self.faces@.len() - i,
        {
            faces.push(self.faces[i].copy());
            i += 1;
        }
        Card {
            name: self.name.clone(),
            oracle_id: copy_opt(&self.oracle_id),
            layout: self.layout.clone(),
            ci: copy_list(&self.ci),
            colors: copy_list(&self.colors),
            type_line: self.type_line.clone(),
            mana_cost: self.mana_cost.clone(),
            cmc: self.cmc.clone(),
            oracle: self.oracle.clone(),
            full_oracle: copy_opt(&self.full_oracle),
            keywords: copy_list(&self.keywords),
            produces: copy_list(&self.produces),
            rarity: self.rarity.clone(),
            set: self.set.clone(),
            faces,
            legalities: self.legalities.copy(),
            commander_legal: self.commander_legal.copy(),
            any_number: self.any_number,
            game_changer: self.game_changer,
            reserved: self.reserved,
            tags: copy_list(&self.tags),
        }
    }

    /// What the matcher reads of this card, beside the categories a
    /// decklist gave it.
    pub open spec fn facts_with(self, categories: Seq<String>) -> CardFacts {
        CardFacts {
            name: self.name@,
            type_line: self.type_line@,
            oracle: self.oracle@,
            mana_value: self.cmc@,
            keywords: self.keywords@,
            color_identity: self.ci@,
            rarity: self.rarity@,
            legalities: self.legalities,
            tags: self.tags@,
            categories,
        }
    }

    /// Join this card with the categories a decklist gave it.
    pub fn view<'a>(&'a self, categories: &'a [String]) -> (v: CardView<'a>)
        ensures
            v.facts() == self.facts_with(categories@),
    {
        CardView {
            name: self.name.as_str(),
            type_line: self.type_line.as_str(),
            oracle: self.oracle.as_str(),
            mana_value: self.cmc.as_str(),
            keywords: self.keywords.as_slice(),
            color_identity: self.ci.as_slice(),
            rarity: self.rarity.as_str(),
            legalities: &self.legalities,
            tags: self.tags.as_slice(),
            categories,
        }
    }

    /// Oracle text with reminder text left in, for `fo:`.
    pub fn full_oracle(&self) -> (r: &str)
        ensures
            r@ == full_oracle_of(*self),
    {
        match &self.full_oracle {
            Some(f) => f.as_str(),
            None => self.oracle.as_str(),
        }
    }

    /// Which never-in-the-library type this card is, if it is one.
    pub fn outside_library(&self) -> (r: Option<OutsideLibrary>)
        ensures
            r == outside_kind(self.type_line@),
    {
        outside_library(self.type_line.as_str())
    }

    /// What the index says about this card's Commander legality.
    pub fn commander_legality(&self) -> (r: CommanderLegality)
        ensures
            r == commander_legality_spec(*self),
    {
        match self.legalities.commander() {
            CommanderLegality::Unknown => self.commander_legal.commander(),
            known => known,
        }
    }

    /// Whether a Commander deck may contain this card, or `None` when the
    /// index never said.
    pub fn may_be_played_in_commander(&self) -> (r: Option<bool>)
        ensures
            r == match commander_legality_spec(*self) {
                CommanderLegality::Legal => Some(true),
                CommanderLegality::NotLegal | CommanderLegality::Banned => Some(false),
                CommanderLegality::Unknown => None::<bool>,
            },
    {
        self.commander_legality().permits_play()
    }

    /// Which route, if any, puts this card in the command zone.
    pub fn commander_route(&self) -> (r: Option<CommanderRoute>)
        ensures
            r == route_of(self.name@, self.type_line@, self.oracle@),
    {
        commander_route(self.name.as_str(), self.type_line.as_str(), self.oracle.as_str())
    }

    /// Whether a deck may contain any number of copies: always for the
    /// `Basic` supertype, else what the index said.
    pub fn may_appear_any_number_of_times(&self) -> (r: Option<bool>)
        ensures
            r == if has_word_spec(front_face_types(self.type_line@), "basic"@) {
                Some(true)
            } else {
                self.any_number
            },
    {
        if has_basic_supertype(self.type_line.as_str()) {
            Some(true)
        } else {
            self.any_number
        }
    }

    /// Whether this card's colour identity fits inside the one a deck allows.
    pub fn identity_fits_within(&self, allowed: Colors) -> (r: bool)
        ensures
            r == (match letters_mask(joined(self.ci@)) {
                Some(m) => m,
                None => 0u8,
            } & !allowed.0 == 0),
    {
        identity_fits_within(self.ci.as_slice(), allowed)
    }
}

/// The oracle tags an index carries: fetched one by one from the search
/// API, so an index may carry some, all or none of them.
#[derive(Debug, Clone)]
pub struct TagVocabulary {
    carried: Vec<String>,
}

impl TagVocabulary {
    /// The carried tags, in the order the index lists them.
    pub closed spec fn carried_of(self) -> Seq<Seq<char>> {
        self.carried@.map_values(|t: String| t@)
    }

    pub fn new(carried: Vec<String>) -> (v: TagVocabulary)
        ensures
            v.carried_of() == carried@.map_values(|t: String| t@),
    {
        TagVocabulary { carried }
    }

    /// Whether the index carries `tag`, exactly as written.
    pub fn contains(&self, tag: &str) -> (r: bool)
        ensures
            r == self.carried_of().contains(tag@),
    {
        let mut i: usize = 0;
        while i < self.carried.len()
            invariant
                i <= self.carried@.len(),
                forall|k: int| 0 <= k < i ==> self.carried_of()[k] != tag@,
            decreases self.carried@.len() - i,
        {
            if str_eq(self.carried[i].as_str(), tag) {
                proof {
                    assert(self.carried_of()[i as int] == tag@);
                }
                return true;
            }
            i += 1;
        }
        false
    }

    /// The carried tags.
    pub fn carried(&self) -> (r: &Vec<String>)
        ensures
            r@.map_values(|t: String| t@) == self.carried_of(),
    {
        &self.carried
    }
}

/// A card name in the key form [`keyname`] makes of it.
pub open spec fn key_of(name: Seq<char>) -> Seq<char> {
    unicode_lowercase(trim_spec(name))
}

/// The position of the first card from `i` on whose name has key `key`.
pub open spec fn first_from(cards: Seq<Card>, key: Seq<char>, i: int) -> Option<int>
    decreases cards.len() - i,
{
    if i < 0 || i >= cards.len() {
        None
    } else if key_of(cards[i].name@) == key {
        Some(i)
    } else {
        first_from(cards, key, i + 1)
    }
}

/// Every keyword the first `n` cards carry, in order.
pub open spec fn keywords_upto(cards: Seq<Card>, n: int) -> Seq<Seq<char>>
    decreases n,
{
    if n <= 0 || n > cards.len() {
        Seq::empty()
    } else {
        keywords_upto(cards, n - 1) + cards[n - 1].keywords@.map_values(|k: String| k@)
    }
}

/// No two cards share a key, as in an index keyed by [`keyname`]: one card
/// per name, whatever its capitalisation.
pub open spec fn keys_unique(cards: Seq<Card>) -> bool {
    forall|i: int, j: int|
        0 <= i < j < cards.len() ==> key_of(#[trigger] cards[i].name@) != key_of(
            #[trigger] cards[j].name@,
        )
}

/// The card index: every card, the shape it was written in and when.
#[derive(Debug, Clone)]
pub struct Index {
    /// One card per key; see [`keyname`].
    pub cards: Vec<Card>,
    /// Which shape this index was written in; `None` is schema 0, an index
    /// from before the field existed.
    pub schema: Option<u32>,
    /// When this index was built, as the builder wrote it, or `None` when it
    /// never said.
    pub updated_at: Option<String>,
    /// The oracle tags this index carries.
    pub tags: Vec<String>,
}

impl Index {
    /// Which shape this index was written in; one that never said is
    /// schema 0 rather than the current one.
    pub fn schema(&self) -> (r: u32)
        ensures
            r == match self.schema {
                Some(v) => v,
                None => 0u32,
            },
    {
        match self.schema {
            Some(v) => v,
            None => 0,
        }
    }

    /// Whether this index predates fields the current queries read.
    pub fn is_stale(&self) -> (r: bool)
        ensures
            r == (match self.schema {
                Some(v) => v,
                None => 0u32,
            } < SCHEMA),
    {
        self.schema() < SCHEMA
    }

    /// The first card whose name has the same key as `name`.
    pub fn get(&self, name: &str) -> (r: Option<&Card>)
        ensures
            match r {
                Some(c) => exists|i: int|
                    0 <= i < self.cards@.len() && self.cards@[i] == *c && key_of(
                        self.cards@[i].name@,
                    ) == key_of(name@) && forall|j: int|
                        0 <= j < i ==> key_of(#[trigger] self.cards@[j].name@) != key_of(name@),
                None => forall|j: int|
                    0 <= j < self.cards@.len() ==> key_of(#[trigger] self.cards@[j].name@)
                        != key_of(name@),
            },
            keys_unique(self.cards@) ==> match r {
                Some(c) => forall|j: int|
                    0 <= j < self.cards@.len() && key_of(#[trigger] self.cards@[j].name@) == key_of(
                        name@,
                    ) ==> self.cards@[j] == *c,
                None => true,
            },
    {
        let want = keyname(name);
        let mut i: usize = 0;
        while i < self.cards.len()
            invariant
                i <= self.cards@.len(),
                want@ == key_of(name@),
                forall|j: int| 0 <= j < i ==> key_of(#[trigger] self.cards@[j].name@) != key_of(name@),
            decreases self.cards@.len() - i,
        {
            let key = keyname(self.cards[i].name.as_str());
            if str_eq(key.as_str(), want.as_str()) {
                return Some(&self.cards[i]);
            }
            i += 1;
        }
        None
    }

    /// Where the first card with the same key as `name` stands.
    pub fn position(&self, name: &str) -> (r: Option<usize>)
        ensures
            r matches Some(i) ==> first_from(self.cards@, key_of(name@), 0) == Some(i as int),
            r is None ==> first_from(self.cards@, key_of(name@), 0) is None,
    {
        let want = keyname(name);
        let mut i: usize = 0;
        while i < self.cards.len()
            invariant
                i <= self.cards@.len(),
                want@ == key_of(name@),
                first_from(self.cards@, key_of(name@), 0) == first_from(
                    self.cards@,
                    key_of(name@),
                    i as int,
                ),
            decreases self.cards@.len() - i,
        {
            let key = keyname(self.cards[i].name.as_str());
            if str_eq(key.as_str(), want.as_str()) {
                return Some(i);
            }
            i += 1;
        }
        None
    }

    /// Whether some card has the same key as `name`.
    pub fn contains(&self, name: &str) -> (r: bool)
        ensures
            r == exists|j: int|
                0 <= j < self.cards@.len() && key_of(#[trigger] self.cards@[j].name@) == key_of(
                    name@,
                ),
    {
        match self.get(name) {
            Some(_) => true,
            None => false,
        }
    }

    /// Every keyword any card here carries, lowercased for comparison.
    pub fn keyword_vocabulary(&self) -> (v: KeywordVocabulary)
        ensures
            v.known_of() == keywords_upto(self.cards@, self.cards@.len() as int).map_values(
                |k: Seq<char>| unicode_lowercase(k),
            ),
    {
        let mut all: Vec<String> = Vec::new();
        let mut i: usize = 0;
        while i < self.cards.len()
            invariant
                i <= self.cards@.len(),
                all@.map_values(|k: String| k@) == keywords_upto(self.cards@, i as int),
            decreases self.cards@.len() - i,
        {
            let kws = &self.cards[i].keywords;
            let mut k: usize = 0;
            let ghost before = all@.map_values(|k: String| k@);
            while k < kws.len()
                invariant
                    k <= kws@.len(),
                    kws == &self.cards@[i as int].keywords,
                    all@.map_values(|k: String| k@) == before + kws@.subrange(0, k as int).map_values(
                        |k: String| k@,
                    ),
                decreases kws@.len() - k,
            {
                let ghost was = all@;
                all.push(copy_string(&kws[k]));
                proof {
                    assert(all@.map_values(|k: String| k@) =~= was.map_values(|k: String| k@).push(
                        kws@[k as int]@,
                    ));
                    assert(kws@.subrange(0, k + 1).map_values(|k: String| k@) =~= kws@.subrange(
                        0,
                        k as int,
                    ).map_values(|k: String| k@).push(kws@[k as int]@));
                }
                k += 1;
            }
            proof {
                assert(kws@.subrange(0, kws@.len() as int) =~= kws@);
            }
            i += 1;
        }
        let v = KeywordVocabulary::from_keywords(all.as_slice());
        proof {
            let whole = keywords_upto(self.cards@, self.cards@.len() as int);
            let views = all@.map_values(|k: String| k@);
            let a = all@.map_values(|k: String| unicode_lowercase(k@));
            let b = whole.map_values(|k: Seq<char>| unicode_lowercase(k));
            assert(views == whole);
            assert forall|j: int| 0 <= j < a.len() implies #[trigger] a[j] == b[j] by {
                assert(views[j] == all@[j]@);
            }
            assert(a =~= b);
        }
        v
    }

    /// The oracle tags this index carries.
    pub fn tag_vocabulary(&self) -> (v: TagVocabulary)
        ensures
            v.carried_of() == self.tags@.map_values(|t: String| t@),
    {
        TagVocabulary::new(copy_strings(self.tags.as_slice()))
    }
}


/// Whether a character goes into a URL as itself: ASCII letters and digits
/// and `-`, `_`, `.`, `~`.
pub open spec fn unreserved(c: char) -> bool {
    ('a' <= c && c <= 'z') || ('A' <= c && c <= 'Z') || ('0' <= c && c <= '9') || c == '-' || c
        == '_' || c == '.' || c == '~'
}

/// The upper-case hex digit for `d`, which is below sixteen.
pub open spec fn upper_hex_digit(d: int) -> char {
    if d < 10 {
        (('0' as int) + d) as char
    } else {
        (('A' as int) + d - 10) as char
    }
}

/// `n` in upper-case hex, without leading zeros.
pub open spec fn upper_hex(n: nat) -> Seq<char>
    decreases n,
{
    if n < 16 {
        seq![upper_hex_digit(n as int)]
    } else {
        upper_hex(n / 16) + seq![upper_hex_digit((n % 16) as int)]
    }
}

/// How one character is written in a URL: as itself if unreserved, else
/// `%` and its code point in upper-case hex, at least two digits.
pub open spec fn escaped(c: char) -> Seq<char> {
    if unreserved(c) {
        seq![c]
    } else {
        let code = c as u32;
        let h = upper_hex(code as nat);
        "%"@ + if h.len() < 2 {
            seq!['0'] + h
        } else {
            h
        }
    }
}

/// The first `n` characters of `s`, each written as [`escaped`] says.
pub open spec fn url_encoded(s: Seq<char>, n: int) -> Seq<char>
    decreases n,
{
    if n <= 0 {
        Seq::empty()
    } else {
        url_encoded(s, n - 1) + escaped(s[n - 1])
    }
}

fn hex_upper(n: u32) -> (r: Vec<char>)
    ensures
        r@ == upper_hex(n as nat),
        r@.len() >= 1,
    decreases n,
{
    let d = n % 16;
    let digits: [char; 16] = [
        '0',
        '1',
        '2',
        '3',
        '4',
        '5',
        '6',
        '7',
        '8',
        '9',
        'A',
        'B',
        'C',
        'D',
        'E',
        'F',
    ];
    let c = digits[d as usize];
    proof {
        assert(c == upper_hex_digit(d as int));
    }
    if n < 16 {
        let mut r = Vec::new();
        r.push(c);
        proof {
            assert(r@ =~= seq![upper_hex_digit(n as int)]);
        }
        r
    } else {
        let mut r = hex_upper(n / 16);
        r.push(c);
        proof {
            assert(r@ =~= upper_hex((n / 16) as nat) + seq![upper_hex_digit((n % 16) as int)]);
        }
        r
    }
}

/// Percent-encodes a tag name for a search URL, as [`url_encoded`] says, so
/// that a tag with anything unexpected in it fails as a bad request rather
/// than as a URL that means something else.
pub fn urlencode(s: &str) -> (r: String)
    ensures
        r@ == url_encoded(s@, s@.len() as int),
{
    let chars = chars_of(s);
    let mut out: Vec<char> = Vec::new();
    let mut i: usize = 0;
    while i < chars.len()
        invariant
            i <= chars@.len(),
            chars@ == s@,
            out@ == url_encoded(s@, i as int),
        decreases chars@.len() - i,
    {
        let c = chars[i];
        let ghost before = out@;
        if ('a' <= c && c <= 'z') || ('A' <= c && c <= 'Z') || ('0' <= c && c <= '9') || c == '-'
            || c == '_' || c == '.' || c == '~' {
            out.push(c);
            proof {
                assert(out@ =~= before + seq![c]);
            }
        } else {
            out.push('%');
            let code = c as u32;
            let h = hex_upper(code);
            let ghost pct = out@;
            if h.len() < 2 {
                out.push('0');
            }
            let ghost padded = out@;
            crate::text::push_chars(&mut out, h.as_slice());
            proof {
                reveal_strlit("%");
                assert("%"@ =~= seq!['%']);
                assert(pct =~= before + seq!['%']);
                if h@.len() < 2 {
                    assert(padded =~= before + seq!['%', '0']);
                    assert(out@ =~= before + ("%"@ + (seq!['0'] + h@)));
                } else {
                    assert(out@ =~= before + ("%"@ + h@));
                }
                assert(out@ =~= before + escaped(c));
            }
        }
        i += 1;
    }
    string_of(out.as_slice())
}

/// Which term values a query names under one key: `kw:` or `otag:`.
#[derive(Debug, Clone, Copy, PartialEq, Eq, Structural)]
pub enum TermKey {
    Keyword,
    Tag,
}

/// The values `q` gives the terms under `key`, in the order they are
/// written.
pub open spec fn terms_of(q: QueryView, key: TermKey) -> Seq<Seq<char>>
    decreases q, 0nat,
{
    match q {
        QueryView::Keyword(s) => if key is Keyword {
            seq![s]
        } else {
            Seq::empty()
        },
        QueryView::Tag(s) => if key is Tag {
            seq![s]
        } else {
            Seq::empty()
        },
        QueryView::Not(inner) => terms_of(*inner, key),
        QueryView::And(parts) => terms_in(parts, parts.len(), key),
        QueryView::Or(parts) => terms_in(parts, parts.len(), key),
        _ => Seq::empty(),
    }
}

/// The values the first `n` parts give the terms under `key`.
pub open spec fn terms_in(parts: Seq<QueryView>, n: nat, key: TermKey) -> Seq<Seq<char>>
    decreases parts, n,
{
    if n == 0 || n > parts.len() {
        Seq::empty()
    } else {
        terms_in(parts, (n - 1) as nat, key) + terms_of(parts[n - 1], key)
    }
}

/// Of the first `n` of `s`, those `keep` says, each once, where it first
/// appears.
pub open spec fn first_kept(s: Seq<Seq<char>>, keep: spec_fn(Seq<char>) -> bool, n: int) -> Seq<Seq<char>>
    decreases n,
{
    if n <= 0 || n > s.len() {
        Seq::empty()
    } else {
        let before = first_kept(s, keep, n - 1);
        if keep(s[n - 1]) && !before.contains(s[n - 1]) {
            before.push(s[n - 1])
        } else {
            before
        }
    }
}

/// The values `q` gives its terms under `key`, appended to `out`.
fn collect_terms(q: &Query, key: TermKey, out: &mut Vec<String>)
    ensures
        crate::text::string_views(final(out)@) == crate::text::string_views(old(out)@) + terms_of(
            query_view(*q),
            key,
        ),
    decreases q,
{
    let ghost start = crate::text::string_views(out@);
    match q {
        Query::Keyword(s) => {
            if key == TermKey::Keyword {
                out.push(s.clone());
            }
            proof {
                assert(crate::text::string_views(out@) =~= start + terms_of(query_view(*q), key));
            }
        },
        Query::Tag(s) => {
            if key == TermKey::Tag {
                out.push(s.clone());
            }
            proof {
                assert(crate::text::string_views(out@) =~= start + terms_of(query_view(*q), key));
            }
        },
        Query::Not(inner) => {
            collect_terms(inner, key, out);
        },
        Query::And(parts) | Query::Or(parts) => {
            let ghost pv = views_of(parts@, parts@.len());
            proof {
                lemma_views_index(parts@, parts@.len());
            }
            let mut i: usize = 0;
            while i < parts.len()
                invariant
                    i <= parts@.len(),
                    *q == Query::And(*parts) || *q == Query::Or(*parts),
                    pv == views_of(parts@, parts@.len()),
                    pv.len() == parts@.len(),
                    forall|k: int| 0 <= k < parts@.len() ==> #[trigger] pv[k] == query_view(parts@[k]),
                    crate::text::string_views(out@) == start + terms_in(pv, i as nat, key),
                decreases parts.len() - i,
            {
                proof {
                    let whole = *q;
                    if whole is And {
                        assert(decreases_to!(whole => whole->And_0[i as int]));
                    } else {
                        assert(decreases_to!(whole => whole->Or_0[i as int]));
                    }
                }
                collect_terms(&parts[i], key, out);
                i += 1;
            }
            proof {
                assert(crate::text::string_views(out@) =~= start + terms_of(query_view(*q), key));
            }
        },
        _ => {
            proof {
                assert(crate::text::string_views(out@) =~= start + terms_of(query_view(*q), key));
            }
        },
    }
}

/// Why an index cannot answer the oracle tags a query names.
#[derive(Debug, Clone, PartialEq, Eq)]
pub enum TagGap {
    /// The index carries tags, and not these.
    NotCarried(Vec<String>),
    /// The index carries no tags at all; these are the ones named.
    NoneFetched(Vec<String>),
}

impl TagGap {
    /// The tags the gap is about.
    pub fn tags(&self) -> (r: &Vec<String>)
        ensures
            r == match self {
                TagGap::NotCarried(t) => t,
                TagGap::NoneFetched(t) => t,
            },
    {
        match self {
            TagGap::NotCarried(t) => t,
            TagGap::NoneFetched(t) => t,
        }
    }
}

/// Of `values`, each once in first-appearance order, those `keep` says.
fn keep_first(
    values: &Vec<String>,
    keep: &Vec<bool>,
    Ghost(wanted): Ghost<spec_fn(Seq<char>) -> bool>,
) -> (r: Vec<String>)
    requires
        keep@.len() == values@.len(),
        forall|k: int| 0 <= k < values@.len() ==> keep@[k] == wanted(#[trigger] values@[k]@),
    ensures
        crate::text::string_views(r@) == first_kept(
            crate::text::string_views(values@),
            wanted,
            values@.len() as int,
        ),
{
    let ghost vs = crate::text::string_views(values@);
    let mut out: Vec<String> = Vec::new();
    let mut i: usize = 0;
    while i < values.len()
        invariant
            i <= values@.len(),
            keep@.len() == values@.len(),
            vs == crate::text::string_views(values@),
            forall|k: int| 0 <= k < values@.len() ==> keep@[k] == wanted(#[trigger] values@[k]@),
            crate::text::string_views(out@) == first_kept(vs, wanted, i as int),
        decreases values@.len() - i,
    {
        if keep[i] {
            let mut seen = false;
            let mut j: usize = 0;
            while j < out.len()
                invariant
                    j <= out@.len(),
                    i < values@.len(),
                    seen == exists|k: int| 0 <= k < j && out@[k]@ == values@[i as int]@,
                decreases out@.len() - j,
            {
                if str_eq(out[j].as_str(), values[i].as_str()) {
                    seen = true;
                }
                j += 1;
            }
            let ghost before = crate::text::string_views(out@);
            proof {
                assert(before.contains(vs[i as int]) == seen) by {
                    if seen {
                        let k = choose|k: int| 0 <= k < out@.len() && out@[k]@ == values@[i as int]@;
                        assert(before[k] == vs[i as int]);
                    }
                    if before.contains(vs[i as int]) {
                        let k = choose|k: int| 0 <= k < before.len() && before[k] == vs[i as int];
                        assert(out@[k]@ == values@[i as int]@);
                    }
                }
            }
            if !seen {
                out.push(values[i].clone());
                proof {
                    assert(crate::text::string_views(out@) =~= before.push(vs[i as int]));
                }
            }
        }
        i += 1;
    }
    out
}

impl Query {
    /// The `kw:` values this query names that no card in the index carries,
    /// each once, in the order written. An index that lists no keywords at
    /// all never recorded them, so it names none.
    pub fn unknown_keywords(&self, vocabulary: &KeywordVocabulary) -> (r: Vec<String>)
        ensures
            vocabulary.known_of().len() == 0 ==> r@.len() == 0,
            vocabulary.known_of().len() != 0 ==> crate::text::string_views(r@) == first_kept(
                terms_of(query_view(*self), TermKey::Keyword),
                |t: Seq<char>| !vocabulary.known_of().contains(unicode_lowercase(t)),
                terms_of(query_view(*self), TermKey::Keyword).len() as int,
            ),
    {
        if vocabulary.is_empty() {
            return Vec::new();
        }
        let mut named: Vec<String> = Vec::new();
        collect_terms(self, TermKey::Keyword, &mut named);
        proof {
            assert(crate::text::string_views(named@) =~= terms_of(query_view(*self), TermKey::Keyword));
        }
        let mut keep: Vec<bool> = Vec::new();
        let mut i: usize = 0;
        while i < named.len()
            invariant
                i <= named@.len(),
                keep@.len() == i,
                forall|k: int| 0 <= k < i ==> keep@[k] == !vocabulary.known_of().contains(
                    unicode_lowercase(#[trigger] named@[k]@),
                ),
            decreases named@.len() - i,
        {
            keep.push(!vocabulary.contains(named[i].as_str()));
            i += 1;
        }
        keep_first(&named, &keep, Ghost(|t: Seq<char>| !vocabulary.known_of().contains(unicode_lowercase(t))))
    }

    /// Whether this query names oracle tags the index cannot answer: none
    /// carried at all, or some named that are not. Each tag once, in the
    /// order written.
    pub fn tag_gap(&self, tags: &TagVocabulary) -> (r: Option<TagGap>)
        ensures
            ({
                let named = terms_of(query_view(*self), TermKey::Tag);
                let all = first_kept(named, |t: Seq<char>| true, named.len() as int);
                let missing = first_kept(
                    named,
                    |t: Seq<char>| !tags.carried_of().contains(t),
                    named.len() as int,
                );
                match r {
                    None => (tags.carried_of().len() == 0 && all.len() == 0) || (tags.carried_of().len()
                        != 0 && missing.len() == 0),
                    Some(TagGap::NoneFetched(t)) => tags.carried_of().len() == 0 && all.len() != 0
                        && crate::text::string_views(t@) == all,
                    Some(TagGap::NotCarried(t)) => tags.carried_of().len() != 0 && missing.len() != 0
                        && crate::text::string_views(t@) == missing,
                }
            }),
    {
        let mut named: Vec<String> = Vec::new();
        collect_terms(self, TermKey::Tag, &mut named);
        proof {
            assert(crate::text::string_views(named@) =~= terms_of(query_view(*self), TermKey::Tag));
        }
        let none_carried = tags.carried().len() == 0;
        let mut keep: Vec<bool> = Vec::new();
        let mut i: usize = 0;
        while i < named.len()
            invariant
                i <= named@.len(),
                none_carried == (tags.carried_of().len() == 0),
                keep@.len() == i,
                forall|k: int|
                    0 <= k < i ==> #[trigger] keep@[k] == (none_carried || !tags.carried_of().contains(
                        named@[k]@,
                    )),
            decreases named@.len() - i,
        {
            if none_carried {
                keep.push(true);
            } else {
                keep.push(!tags.contains(named[i].as_str()));
            }
            i += 1;
        }
        if none_carried {
            let all = keep_first(&named, &keep, Ghost(|t: Seq<char>| true));
            if all.len() == 0 {
                None
            } else {
                Some(TagGap::NoneFetched(all))
            }
        } else {
            let missing = keep_first(&named, &keep, Ghost(|t: Seq<char>| !tags.carried_of().contains(t)));
            if missing.len() == 0 {
                None
            } else {
                Some(TagGap::NotCarried(missing))
            }
        }
    }
}

} // verus!

//! Legality rules that a single card decides on its own.
//!
//! Silence is never evidence: a card the index knows nothing about comes back
//! unknown, never illegal.

use vstd::prelude::*;
use crate::colors::{Colors, joined, letters_mask};
use crate::text::{
    chars_of, find, find_spec, has_word_chars, has_word_spec, is_ws, lower, lowered, next_char,
    pieces, seq_eq, split_on, split_once_char, split_once_spec, string_of, trim, trim_end,
    trim_end_spec, trim_spec,
};

verus! {

/// What the index says about a card's legality in Commander.
#[derive(Debug, Clone, Copy, PartialEq, Eq, Structural)]
pub enum CommanderLegality {
    Legal,
    NotLegal,
    Banned,
    Unknown,
}

/// Scryfall's word for a Commander legality: `legal`, `not_legal` and
/// `banned`, and anything else unknown.
pub open spec fn commander_word(word: Seq<char>) -> CommanderLegality {
    if word == "legal"@ {
        CommanderLegality::Legal
    } else if word == "not_legal"@ {
        CommanderLegality::NotLegal
    } else if word == "banned"@ {
        CommanderLegality::Banned
    } else {
        CommanderLegality::Unknown
    }
}

impl CommanderLegality {
    /// Read Scryfall's legality word.
    pub fn from_word(word: &str) -> (r: CommanderLegality)
        ensures
            r == commander_word(word@),
    {
        if crate::text::str_eq(word, "legal") {
            CommanderLegality::Legal
        } else if crate::text::str_eq(word, "not_legal") {
            CommanderLegality::NotLegal
        } else if crate::text::str_eq(word, "banned") {
            CommanderLegality::Banned
        } else {
            CommanderLegality::Unknown
        }
    }

    /// Whether a Commander deck may contain the card, or `None` when the
    /// index never said.
    pub fn permits_play(self) -> (r: Option<bool>)
        ensures
            r == match self {
                CommanderLegality::Legal => Some(true),
                CommanderLegality::NotLegal | CommanderLegality::Banned => Some(false),
                CommanderLegality::Unknown => None::<bool>,
            },
    {
        match self {
            CommanderLegality::Legal => Some(true),
            CommanderLegality::NotLegal | CommanderLegality::Banned => Some(false),
            CommanderLegality::Unknown => None,
        }
    }
}

/// Scryfall's legality word for one card, as written in the index.
#[derive(Debug, Clone, Default, PartialEq, Eq)]
pub struct LegalityWord(String);

impl LegalityWord {
    pub closed spec fn word(self) -> Seq<char> {
        self.0@
    }

    /// A copy of this word.
    pub fn copy(&self) -> (r: LegalityWord)
        ensures
            r == *self,
    {
        LegalityWord(self.0.clone())
    }

    /// The word as written.
    pub fn new(word: &str) -> (r: LegalityWord)
        ensures
            r.word() == word@,
    {
        LegalityWord(word.to_owned())
    }

    pub fn as_str(&self) -> (r: &str)
        ensures
            r@ == self.word(),
    {
        self.0.as_str()
    }

    /// Whether the index said nothing here.
    pub fn is_empty(&self) -> (r: bool)
        ensures
            r == (self.word().len() == 0),
    {
        self.0.unicode_len() == 0
    }

    pub fn commander(&self) -> (r: CommanderLegality)
        ensures
            r == commander_word(self.word()),
    {
        CommanderLegality::from_word(self.0.as_str())
    }
}

/// How a card qualifies for the command zone, when it does.
#[derive(Debug, Clone, Copy, PartialEq, Eq, Structural)]
pub enum CommanderRoute {
    /// A legendary creature, the ordinary route.
    LegendaryCreature,
    /// The card grants itself the role in its own text.
    SaysSo,
    /// A Background, which only commands beside a partner that chose it.
    Background,
}

/// `char::is_alphanumeric`'s answer for `c`.
pub uninterp spec fn alphanumeric(c: char) -> bool;

/// `char::is_alphanumeric`: Unicode's Alphabetic or Numeric property.
#[verifier::external_body]
fn is_alphanumeric(c: char) -> (r: bool)
    ensures
        r == alphanumeric(c),
{
    c.is_alphanumeric()
}

/// The types and supertypes of the front face: left of the em dash, and
/// left of the `//` that joins the faces of a double-faced card.
pub open spec fn front_face_types(type_line: Seq<char>) -> Seq<char> {
    let front = match find_spec(type_line, "//"@, 0) {
        Some(i) => type_line.subrange(0, i),
        None => type_line,
    };
    match split_once_spec(front, '—') {
        Some((types, _)) => types,
        None => front,
    }
}

/// Whether the front face is a legendary creature.
pub open spec fn legendary_creature(type_line: Seq<char>) -> bool {
    has_word_spec(front_face_types(type_line), "legendary"@) && has_word_spec(
        front_face_types(type_line),
        "creature"@,
    )
}

/// Whether some face names the Background subtype right of its em dash.
pub open spec fn background(type_line: Seq<char>) -> bool {
    let faces = pieces(type_line, "//"@);
    exists|k: int|
        0 <= k < faces.len() && match split_once_spec(#[trigger] faces[k], '—') {
            Some((_, subtypes)) => has_word_spec(subtypes, "background"@),
            None => false,
        }
}

/// The text of `s` before its first `c`.
pub open spec fn before_char(s: Seq<char>, c: char) -> Seq<char> {
    s.subrange(0, next_char(s, c, 0))
}

/// The ways a card names itself in its own text, for the first `n` faces:
/// "this card", then each face's full name and its short name, the part
/// before the comma.
pub open spec fn self_refs(faces: Seq<Seq<char>>, n: int) -> Seq<Seq<char>>
    decreases n,
{
    if n <= 0 {
        seq!["this card"@]
    } else {
        let face = trim_spec(faces[n - 1]);
        self_refs(faces, n - 1) + seq![face, trim_spec(before_char(face, ','))]
    }
}

/// Whether `head` ends with `subject` at a word boundary: nothing before it,
/// or something that is not a letter or digit.
pub open spec fn ends_naming(head: Seq<char>, subject: Seq<char>) -> bool {
    let k = head.len() - subject.len();
    &&& subject.len() <= head.len()
    &&& head.subrange(k, head.len() as int) == subject
    &&& (k == 0 || !alphanumeric(head[k - 1]))
}

/// Whether `head`, the text leading up to "can be your commander", ends by
/// naming the card `name` itself.
pub open spec fn names_itself_spec(head: Seq<char>, name: Seq<char>) -> bool {
    let faces = pieces(name, "//"@);
    let refs = self_refs(faces, faces.len() as int);
    exists|k: int| 0 <= k < refs.len() && ends_naming(head, lower(#[trigger] refs[k]))
}

/// Whether, from position `from` on, the lower-cased oracle text `o` has a
/// "can be your commander." whose subject is the card itself.
pub open spec fn grants_from(o: Seq<char>, name: Seq<char>, from: int) -> bool
    decreases o.len() + 1 - from,
{
    if from < 0 || from > o.len() || "can be your commander."@.len() == 0 {
        false
    } else {
        proof {
            crate::text::lemma_find_spec_bounds(o, "can be your commander."@, from);
        }
        match find_spec(o, "can be your commander."@, from) {
            Some(at) => names_itself_spec(trim_end_spec(o.subrange(from, at)), name) || (at
                >= from && grants_from(o, name, at + "can be your commander."@.len())),
            None => false,
        }
    }
}

/// Whether the card's own text says it can be your commander.
pub open spec fn says_so(name: Seq<char>, oracle: Seq<char>) -> bool {
    grants_from(lower(oracle), name, 0)
}

/// Which route puts a card in the command zone.
pub open spec fn route_of(name: Seq<char>, type_line: Seq<char>, oracle: Seq<char>) -> Option<
    CommanderRoute,
> {
    if legendary_creature(type_line) {
        Some(CommanderRoute::LegendaryCreature)
    } else if says_so(name, oracle) {
        Some(CommanderRoute::SaysSo)
    } else if background(type_line) {
        Some(CommanderRoute::Background)
    } else {
        None
    }
}

/// Which route, if any, puts this card in the command zone.
pub fn commander_route(name: &str, type_line: &str, oracle: &str) -> (r: Option<CommanderRoute>)
    ensures
        r == route_of(name@, type_line@, oracle@),
{
    if is_legendary_creature(type_line) {
        Some(CommanderRoute::LegendaryCreature)
    } else if says_it_can_be_your_commander(name, oracle) {
        Some(CommanderRoute::SaysSo)
    } else if is_background(type_line) {
        Some(CommanderRoute::Background)
    } else {
        None
    }
}

fn front_types(line: &[char]) -> (r: Vec<char>)
    ensures
        r@ == front_face_types(line@),
{
    let sep = chars_of("//");
    proof {
        reveal_strlit("//");
    }
    let front = match find(line, sep.as_slice(), 0) {
        Some(i) => crate::mana::slice_chars(line, 0, i),
        None => crate::mana::slice_chars(line, 0, line.len()),
    };
    proof {
        assert(line@.subrange(0, line@.len() as int) =~= line@);
    }
    match split_once_char(front.as_slice(), '—') {
        Some((types, _)) => types,
        None => front,
    }
}

/// Whether the front face is a legendary creature.
pub fn is_legendary_creature(type_line: &str) -> (r: bool)
    ensures
        r == legendary_creature(type_line@),
{
    let types = front_types(chars_of(type_line).as_slice());
    has_word_chars(types.as_slice(), chars_of("legendary").as_slice()) && has_word_chars(
        types.as_slice(),
        chars_of("creature").as_slice(),
    )
}

/// Whether the card carries the `Basic` supertype, as a whole word left of
/// the em dash.
pub fn has_basic_supertype(type_line: &str) -> (r: bool)
    ensures
        r == has_word_spec(front_face_types(type_line@), "basic"@),
{
    let types = front_types(chars_of(type_line).as_slice());
    has_word_chars(types.as_slice(), chars_of("basic").as_slice())
}

/// Whether the card is a Background, which is a subtype and so sits right
/// of the em dash.
pub fn is_background(type_line: &str) -> (r: bool)
    ensures
        r == background(type_line@),
{
    let line = chars_of(type_line);
    let sep = chars_of("//");
    proof {
        reveal_strlit("//");
    }
    let faces = split_on(line.as_slice(), sep.as_slice());
    let ghost fs = pieces(type_line@, "//"@);
    let word = chars_of("background");
    let mut k: usize = 0;
    while k < faces.len()
        invariant
            k <= faces@.len(),
            fs == pieces(type_line@, "//"@),
            faces@.len() == fs.len(),
            word@ == "background"@,
            forall|i: int| 0 <= i < faces@.len() ==> (#[trigger] faces@[i])@ == fs[i],
            forall|i: int|
                0 <= i < k ==> !match split_once_spec(#[trigger] fs[i], '—') {
                    Some((_, subtypes)) => has_word_spec(subtypes, "background"@),
                    None => false,
                },
        decreases faces@.len() - k,
    {
        assert(faces@[k as int]@ == fs[k as int]);
        match split_once_char(faces[k].as_slice(), '—') {
            Some((_, subtypes)) => {
                if has_word_chars(subtypes.as_slice(), word.as_slice()) {
                    return true;
                }
            },
            None => {},
        }
        k += 1;
    }
    false
}

/// The ways `name` refers to itself: "this card", then each face's full
/// name and short name.
fn self_references(name: &[char]) -> (r: Vec<Vec<char>>)
    ensures
        r@.len() == self_refs(pieces(name@, "//"@), pieces(name@, "//"@).len() as int).len(),
        forall|k: int|
            0 <= k < r@.len() ==> (#[trigger] r@[k])@ == self_refs(
                pieces(name@, "//"@),
                pieces(name@, "//"@).len() as int,
            )[k],
{
    let sep = chars_of("//");
    proof {
        reveal_strlit("//");
    }
    let faces = split_on(name, sep.as_slice());
    let ghost fs = pieces(name@, "//"@);
    let mut out: Vec<Vec<char>> = Vec::new();
    out.push(chars_of("this card"));
    let mut i: usize = 0;
    while i < faces.len()
        invariant
            i <= faces@.len(),
            fs == pieces(name@, "//"@),
            faces@.len() == fs.len(),
            forall|k: int| 0 <= k < faces@.len() ==> (#[trigger] faces@[k])@ == fs[k],
            out@.len() == self_refs(fs, i as int).len(),
            forall|k: int| 0 <= k < out@.len() ==> (#[trigger] out@[k])@ == self_refs(fs, i as int)[k],
        decreases faces@.len() - i,
    {
        let face = trim(faces[i].as_slice());
        let cut = crate::mana::find_char(face.as_slice(), ',', 0);
        proof {
            lemma_next_char_is(face@, ',', 0, cut as int);
        }
        let short = trim(crate::mana::slice_chars(face.as_slice(), 0, cut).as_slice());
        let ghost before = self_refs(fs, i as int);
        out.push(face);
        out.push(short);
        proof {
            assert(faces@[i as int]@ == fs[i as int]);
            let now = self_refs(fs, (i + 1) as int);
            assert(now == before + seq![face@, short@]);
            assert forall|k: int| 0 <= k < out@.len() implies (#[trigger] out@[k])@ == now[k] by {
                if k < before.len() {
                    assert(now[k] == before[k]);
                }
            }
        }
        i += 1;
    }
    out
}

proof fn lemma_next_char_is(s: Seq<char>, c: char, i: int, e: int)
    requires
        0 <= i <= e <= s.len(),
        e < s.len() ==> s[e] == c,
        forall|j: int| i <= j < e ==> s[j] != c,
    ensures
        next_char(s, c, i) == e,
    decreases e - i,
{
    if i < e {
        lemma_next_char_is(s, c, i + 1, e);
    }
}

/// Whether `head` ends with `subject` at a word boundary.
fn ends_with_name(head: &[char], subject: &[char]) -> (r: bool)
    ensures
        r == ends_naming(head@, subject@),
{
    if subject.len() > head.len() {
        return false;
    }
    let k = head.len() - subject.len();
    let tail = crate::mana::slice_chars(head, k, head.len());
    if !seq_eq(tail.as_slice(), subject) {
        return false;
    }
    k == 0 || !is_alphanumeric(head[k - 1])
}

/// Whether `head` ends by naming the card `name` itself.
fn names_itself(head: &[char], name: &[char]) -> (r: bool)
    ensures
        r == names_itself_spec(head@, name@),
{
    let refs = self_references(name);
    let ghost rs = self_refs(pieces(name@, "//"@), pieces(name@, "//"@).len() as int);
    let mut k: usize = 0;
    while k < refs.len()
        invariant
            k <= refs@.len(),
            rs == self_refs(pieces(name@, "//"@), pieces(name@, "//"@).len() as int),
            refs@.len() == rs.len(),
            forall|i: int| 0 <= i < refs@.len() ==> (#[trigger] refs@[i])@ == rs[i],
            forall|i: int| 0 <= i < k ==> !ends_naming(head@, lower(#[trigger] rs[i])),
        decreases refs@.len() - k,
    {
        let subject = lowered(refs[k].as_slice());
        proof {
            assert(refs@[k as int]@ == rs[k as int]);
        }
        if ends_with_name(head, subject.as_slice()) {
            return true;
        }
        k += 1;
    }
    false
}

/// Whether the card's own text says it can be your commander, with the
/// card itself as the subject of the sentence.
pub fn says_it_can_be_your_commander(name: &str, oracle: &str) -> (r: bool)
    ensures
        r == says_so(name@, oracle@),
{
    let grant = chars_of("can be your commander.");
    proof {
        reveal_strlit("can be your commander.");
    }
    let o = lowered(chars_of(oracle).as_slice());
    let n = chars_of(name);
    let mut from: usize = 0;
    while from <= o.len()
        invariant
            from <= o@.len() + 1,
            grant@ == "can be your commander."@,
            grant@.len() == 22,
            o@ == lower(oracle@),
            n@ == name@,
            grants_from(o@, n@, 0) == grants_from(o@, n@, from as int),
        decreases o@.len() + 1 - from,
    {
        match find(o.as_slice(), grant.as_slice(), from) {
            Some(at) => {
                let head = trim_end(crate::mana::slice_chars(o.as_slice(), from, at).as_slice());
                if names_itself(head.as_slice(), n.as_slice()) {
                    return true;
                }
                from = at + grant.len();
            },
            None => {
                return false;
            },
        }
    }
    false
}

/// Whether a card's colour identity fits inside the identity a deck
/// allows.
pub fn identity_fits_within(ci: &[String], allowed: Colors) -> (r: bool)
    ensures
        r == (match letters_mask(joined(ci@)) {
            Some(m) => m,
            None => 0u8,
        } & !allowed.0 == 0),
{
    Colors::from_identity(ci).is_subset_of(allowed)
}

/// What a format says about a card, in general. Restricted is a real
/// status everywhere but Commander, and means you may play one.
#[derive(Debug, Clone, Copy, PartialEq, Eq, Default, Structural)]
pub enum Legality {
    Legal,
    NotLegal,
    Banned,
    Restricted,
    #[default]
    Unknown,
}

/// The letter a status is stored as.
pub open spec fn letter_of(l: Legality) -> char {
    match l {
        Legality::Legal => 'l',
        Legality::NotLegal => 'n',
        Legality::Banned => 'b',
        Legality::Restricted => 'r',
        Legality::Unknown => '?',
    }
}

/// The status a stored letter stands for; any other letter is unknown.
pub open spec fn legality_of_letter(c: char) -> Legality {
    if c == 'l' {
        Legality::Legal
    } else if c == 'n' {
        Legality::NotLegal
    } else if c == 'b' {
        Legality::Banned
    } else if c == 'r' {
        Legality::Restricted
    } else {
        Legality::Unknown
    }
}

/// Scryfall's word for a status; any other word is unknown.
pub open spec fn legality_word(word: Seq<char>) -> Legality {
    if word == "legal"@ {
        Legality::Legal
    } else if word == "not_legal"@ {
        Legality::NotLegal
    } else if word == "banned"@ {
        Legality::Banned
    } else if word == "restricted"@ {
        Legality::Restricted
    } else {
        Legality::Unknown
    }
}

impl Legality {
    fn letter(self) -> (r: char)
        ensures
            r == letter_of(self),
    {
        match self {
            Legality::Legal => 'l',
            Legality::NotLegal => 'n',
            Legality::Banned => 'b',
            Legality::Restricted => 'r',
            Legality::Unknown => '?',
        }
    }

    fn from_letter(c: char) -> (r: Legality)
        ensures
            r == legality_of_letter(c),
    {
        if c == 'l' {
            Legality::Legal
        } else if c == 'n' {
            Legality::NotLegal
        } else if c == 'b' {
            Legality::Banned
        } else if c == 'r' {
            Legality::Restricted
        } else {
            Legality::Unknown
        }
    }

    /// Read Scryfall's word.
    pub fn from_word(word: &str) -> (r: Legality)
        ensures
            r == legality_word(word@),
    {
        if crate::text::str_eq(word, "legal") {
            Legality::Legal
        } else if crate::text::str_eq(word, "not_legal") {
            Legality::NotLegal
        } else if crate::text::str_eq(word, "banned") {
            Legality::Banned
        } else if crate::text::str_eq(word, "restricted") {
            Legality::Restricted
        } else {
            Legality::Unknown
        }
    }

    /// Whether a deck in this format may contain the card, or `None` when
    /// nothing was ever said. Restricted permits play, at one copy.
    pub fn permits_play(self) -> (r: Option<bool>)
        ensures
            r == match self {
                Legality::Legal | Legality::Restricted => Some(true),
                Legality::NotLegal | Legality::Banned => Some(false),
                Legality::Unknown => None::<bool>,
            },
    {
        match self {
            Legality::Legal | Legality::Restricted => Some(true),
            Legality::NotLegal | Legality::Banned => Some(false),
            Legality::Unknown => None,
        }
    }
}

/// The format names answered for, as Scryfall spells them, in storage
/// order.
pub const FORMATS: [&'static str; 23] = [
    "standard",
    "future",
    "historic",
    "timeless",
    "gladiator",
    "pioneer",
    "modern",
    "legacy",
    "pauper",
    "vintage",
    "penny",
    "commander",
    "oathbreaker",
    "standardbrawl",
    "brawl",
    "competitivebrawl",
    "alchemy",
    "paupercommander",
    "duel",
    "oldschool",
    "premodern",
    "predh",
    "tlr",
];

/// The storage position of format `f`, searching from position `k`.
pub open spec fn format_from(f: Seq<char>, k: int) -> Option<int>
    decreases 23 - k,
{
    if k < 0 || k >= 23 {
        None
    } else if FORMATS[k]@ == f {
        Some(k)
    } else {
        format_from(f, k + 1)
    }
}

/// The value of the first of the first `n` pairs whose key is `key`.
pub open spec fn lookup(words: Seq<(String, String)>, key: Seq<char>, n: int) -> Option<Seq<char>>
    decreases n,
{
    if n <= 0 {
        None
    } else {
        match lookup(words, key, n - 1) {
            Some(w) => Some(w),
            None => if words[n - 1].0@ == key {
                Some(words[n - 1].1@)
            } else {
                None
            },
        }
    }
}

/// What every format says about one card, one letter each in [`FORMATS`]
/// order.
#[derive(Debug, Clone, Default, PartialEq, Eq)]
pub struct Legalities(String);

impl Legalities {
    pub closed spec fn letters(self) -> Seq<char> {
        self.0@
    }

    /// A copy of this table.
    pub fn copy(&self) -> (r: Legalities)
        ensures
            r == *self,
    {
        Legalities(self.0.clone())
    }

    /// What format `f` says, or `None` when `f` is not a format: a position
    /// past the stored letters is unknown.
    pub open spec fn get_spec(self, f: Seq<char>) -> Option<Legality> {
        match format_from(f, 0) {
            Some(at) => Some(
                if at < self.letters().len() {
                    legality_of_letter(self.letters()[at])
                } else {
                    Legality::Unknown
                },
            ),
            None => None,
        }
    }

    /// The letters as stored.
    pub fn from_stored(letters: String) -> (r: Legalities)
        ensures
            r.letters() == letters@,
    {
        Legalities(letters)
    }

    /// Read a format's status by name.
    pub fn get(&self, format: &str) -> (r: Option<Legality>)
        ensures
            r == self.get_spec(format@),
    {
        let mut k: usize = 0;
        while k < 23
            invariant
                k <= 23,
                format_from(format@, 0) == format_from(format@, k as int),
            decreases 23 - k,
        {
            if crate::text::str_eq(FORMATS[k], format) {
                let n = self.0.unicode_len();
                if k < n {
                    return Some(Legality::from_letter(self.0.get_char(k)));
                }
                return Some(Legality::Unknown);
            }
            k += 1;
        }
        None
    }

    /// What this card's Commander legality is.
    pub fn commander(&self) -> (r: CommanderLegality)
        ensures
            r == match self.get_spec("commander"@) {
                Some(Legality::Legal) => CommanderLegality::Legal,
                Some(Legality::NotLegal) => CommanderLegality::NotLegal,
                Some(Legality::Banned) => CommanderLegality::Banned,
                _ => CommanderLegality::Unknown,
            },
    {
        match self.get("commander") {
            Some(Legality::Legal) => CommanderLegality::Legal,
            Some(Legality::NotLegal) => CommanderLegality::NotLegal,
            Some(Legality::Banned) => CommanderLegality::Banned,
            _ => CommanderLegality::Unknown,
        }
    }

    /// Build from Scryfall's `legalities` object, given as its (format,
    /// word) pairs: a format with no word is unknown, and a format this
    /// crate does not know is dropped. A format given twice is read from its
    /// first pair; the object itself never repeats a key.
    pub fn from_words(words: &[(String, String)]) -> (r: Legalities)
        ensures
            r.letters().len() == 23,
            forall|k: int|
                0 <= k < 23 ==> #[trigger] r.letters()[k] == letter_of(
                    match lookup(words@, FORMATS[k]@, words@.len() as int) {
                        Some(w) => legality_word(w),
                        None => Legality::Unknown,
                    },
                ),
    {
        let mut out: Vec<char> = Vec::new();
        let mut k: usize = 0;
        while k < 23
            invariant
                k <= 23,
                out@.len() == k,
                forall|j: int|
                    0 <= j < k ==> #[trigger] out@[j] == letter_of(
                        match lookup(words@, FORMATS[j]@, words@.len() as int) {
                            Some(w) => legality_word(w),
                            None => Legality::Unknown,
                        },
                    ),
            decreases 23 - k,
        {
            let mut found: Option<Legality> = None;
            let mut i: usize = 0;
            while i < words.len()
                invariant
                    i <= words@.len(),
                    k < 23,
                    match lookup(words@, FORMATS[k as int]@, i as int) {
                        Some(w) => found == Some(legality_word(w)),
                        None => found is None,
                    },
                decreases words@.len() - i,
            {
                if found.is_none() && crate::text::str_eq(words[i].0.as_str(), FORMATS[k]) {
                    found = Some(Legality::from_word(words[i].1.as_str()));
                }
                i += 1;
            }
            let status = match found {
                Some(l) => l,
                None => Legality::Unknown,
            };
            out.push(status.letter());
            k += 1;
        }
        Legalities(string_of(out.as_slice()))
    }

    /// Whether the index said anything at all about legality here.
    pub fn is_silent(&self) -> (r: bool)
        ensures
            r == forall|i: int|
                0 <= i < self.letters().len() ==> legality_of_letter(#[trigger] self.letters()[i])
                    == Legality::Unknown,
    {
        let n = self.0.unicode_len();
        let mut i: usize = 0;
        while i < n
            invariant
                i <= n,
                n == self.letters().len(),
                forall|j: int|
                    0 <= j < i ==> legality_of_letter(#[trigger] self.letters()[j]) == Legality::Unknown,
            decreases n - i,
        {
            if Legality::from_letter(self.0.get_char(i)) != Legality::Unknown {
                return false;
            }
            i += 1;
        }
        true
    }
}

} // verus!

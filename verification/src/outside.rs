//! Card types that are never in your library.
//!
//! Stickers, attractions, planes and the rest live in a deck of their own or
//! in none at all, and counting them as library cards moves every
//! probability. The type line is parsed, not searched: `Plane` is a whole
//! word left of the em dash, so a planeswalker is not a plane.

use vstd::prelude::*;
use crate::text::{chars_of, has_word_chars, has_word_spec, pieces, split_on, split_once_char, split_once_spec};

verus! {

/// Which of the out-of-library types a card is.
#[derive(Debug, Clone, Copy, PartialEq, Eq, Structural)]
pub enum OutsideLibrary {
    Stickers,
    Attraction,
    Plane,
    Phenomenon,
    Scheme,
    Vanguard,
    Conspiracy,
    Dungeon,
    Emblem,
}

impl OutsideLibrary {
    /// The type's name as printed.
    pub open spec fn name_of(self) -> Seq<char> {
        match self {
            OutsideLibrary::Stickers => "Stickers"@,
            OutsideLibrary::Attraction => "Attraction"@,
            OutsideLibrary::Plane => "Plane"@,
            OutsideLibrary::Phenomenon => "Phenomenon"@,
            OutsideLibrary::Scheme => "Scheme"@,
            OutsideLibrary::Vanguard => "Vanguard"@,
            OutsideLibrary::Conspiracy => "Conspiracy"@,
            OutsideLibrary::Dungeon => "Dungeon"@,
            OutsideLibrary::Emblem => "Emblem"@,
        }
    }

    pub fn as_str(self) -> (s: &'static str)
        ensures
            s@ == self.name_of(),
    {
        match self {
            OutsideLibrary::Stickers => "Stickers",
            OutsideLibrary::Attraction => "Attraction",
            OutsideLibrary::Plane => "Plane",
            OutsideLibrary::Phenomenon => "Phenomenon",
            OutsideLibrary::Scheme => "Scheme",
            OutsideLibrary::Vanguard => "Vanguard",
            OutsideLibrary::Conspiracy => "Conspiracy",
            OutsideLibrary::Dungeon => "Dungeon",
            OutsideLibrary::Emblem => "Emblem",
        }
    }
}

/// The card types among them, which sit left of the em dash.
pub const CARD_TYPES: [(&'static str, OutsideLibrary); 8] = [
    ("stickers", OutsideLibrary::Stickers),
    ("plane", OutsideLibrary::Plane),
    ("phenomenon", OutsideLibrary::Phenomenon),
    ("scheme", OutsideLibrary::Scheme),
    ("vanguard", OutsideLibrary::Vanguard),
    ("conspiracy", OutsideLibrary::Conspiracy),
    ("dungeon", OutsideLibrary::Dungeon),
    ("emblem", OutsideLibrary::Emblem),
];

/// The first of the card types from position `k` on that `types` names as a
/// whole word.
pub open spec fn first_type(types: Seq<char>, k: int) -> Option<OutsideLibrary>
    decreases 8 - k,
{
    if k < 0 || k >= 8 {
        None
    } else if has_word_spec(types, CARD_TYPES[k].0@) {
        Some(CARD_TYPES[k].1)
    } else {
        first_type(types, k + 1)
    }
}

/// What one face of a type line says: a card type left of the em dash, or
/// the Attraction subtype right of it.
pub open spec fn face_kind(face: Seq<char>) -> Option<OutsideLibrary> {
    let (types, subtypes) = match split_once_spec(face, '—') {
        Some(p) => p,
        None => (face, Seq::empty()),
    };
    match first_type(types, 0) {
        Some(k) => Some(k),
        None => if has_word_spec(subtypes, "attraction"@) {
            Some(OutsideLibrary::Attraction)
        } else {
            None
        },
    }
}

/// The first face, of the first `n`, that says anything.
pub open spec fn first_face_kind(faces: Seq<Seq<char>>, n: int) -> Option<OutsideLibrary>
    decreases n,
{
    if n <= 0 {
        None
    } else {
        match first_face_kind(faces, n - 1) {
            Some(k) => Some(k),
            None => face_kind(faces[n - 1]),
        }
    }
}

/// What a whole type line says, face by face.
pub open spec fn outside_kind(type_line: Seq<char>) -> Option<OutsideLibrary> {
    let faces = pieces(type_line, "//"@);
    first_face_kind(faces, faces.len() as int)
}

fn face_outside_library(face: &[char]) -> (r: Option<OutsideLibrary>)
    ensures
        r == face_kind(face@),
{
    let (types, subtypes) = match split_once_char(face, '—') {
        Some(p) => p,
        None => (crate::mana::slice_chars(face, 0, face.len()), Vec::new()),
    };
    proof {
        if split_once_spec(face@, '—') is None {
            assert(face@.subrange(0, face@.len() as int) =~= face@);
            assert(subtypes@ =~= Seq::<char>::empty());
        }
    }
    let mut k: usize = 0;
    while k < 8
        invariant
            k <= 8,
            first_type(types@, 0) == first_type(types@, k as int),
            face_kind(face@) == match first_type(types@, 0) {
                Some(t) => Some(t),
                None => if has_word_spec(subtypes@, "attraction"@) {
                    Some(OutsideLibrary::Attraction)
                } else {
                    None
                },
            },
        decreases 8 - k,
    {
        let word = chars_of(CARD_TYPES[k].0);
        if has_word_chars(types.as_slice(), word.as_slice()) {
            proof {
                assert(first_type(types@, k as int) == Some(CARD_TYPES[k as int].1));
            }
            return Some(CARD_TYPES[k].1);
        }
        k += 1;
    }
    let word = chars_of("attraction");
    if has_word_chars(subtypes.as_slice(), word.as_slice()) {
        Some(OutsideLibrary::Attraction)
    } else {
        None
    }
}

/// Classify a type line, if it names a type that is never in the library.
pub fn outside_library(type_line: &str) -> (r: Option<OutsideLibrary>)
    ensures
        r == outside_kind(type_line@),
{
    let line = chars_of(type_line);
    let sep = chars_of("//");
    proof {
        reveal_strlit("//");
    }
    let faces = split_on(line.as_slice(), sep.as_slice());
    let ghost fs = pieces(type_line@, "//"@);
    let mut i: usize = 0;
    while i < faces.len()
        invariant
            i <= faces@.len(),
            fs == pieces(type_line@, "//"@),
            faces@.len() == fs.len(),
            forall|k: int| 0 <= k < faces@.len() ==> (#[trigger] faces@[k])@ == fs[k],
            first_face_kind(fs, i as int) is None,
        decreases faces@.len() - i,
    {
        let found = face_outside_library(faces[i].as_slice());
        if found.is_some() {
            proof {
                assert(faces@[i as int]@ == fs[i as int]);
                assert(first_face_kind(fs, (i + 1) as int) == found);
                lemma_first_face_stays(fs, (i + 1) as int, fs.len() as int);
            }
            return found;
        }
        i += 1;
    }
    None
}

proof fn lemma_first_face_stays(faces: Seq<Seq<char>>, i: int, n: int)
    requires
        0 <= i <= n,
        first_face_kind(faces, i) is Some,
    ensures
        first_face_kind(faces, n) == first_face_kind(faces, i),
    decreases n - i,
{
    if i < n {
        lemma_first_face_stays(faces, i, n - 1);
    }
}

} // verus!

//! Colour identities and comparison operators, as the query language reads
//! them.

use vstd::prelude::*;
use crate::text::{ascii_lower, chars_of, lower_char};

verus! {

/// A comparison written in a query: `<`, `<=`, `=`, `!=`, `>=`, `>`.
#[derive(Debug, Clone, Copy, PartialEq, Eq, Structural)]
pub enum Cmp {
    Lt,
    Le,
    Eq,
    Ne,
    Ge,
    Gt,
}

impl Cmp {
    /// Whether an ordering between a card's value and the query's value
    /// satisfies this comparison.
    pub fn test_ord(self, ordering: std::cmp::Ordering) -> (r: bool)
        ensures
            r == match ordering {
                std::cmp::Ordering::Less => self is Lt || self is Le || self is Ne,
                std::cmp::Ordering::Equal => self is Le || self is Eq || self is Ge,
                std::cmp::Ordering::Greater => self is Ne || self is Ge || self is Gt,
            },
    {
        match ordering {
            std::cmp::Ordering::Less => match self {
                Cmp::Lt | Cmp::Le | Cmp::Ne => true,
                _ => false,
            },
            std::cmp::Ordering::Equal => match self {
                Cmp::Le | Cmp::Eq | Cmp::Ge => true,
                _ => false,
            },
            std::cmp::Ordering::Greater => match self {
                Cmp::Ne | Cmp::Ge | Cmp::Gt => true,
                _ => false,
            },
        }
    }
}

/// The bit a colour letter stands for, ignoring ASCII case: `w` `u` `b`
/// `r` `g`, and `c` for colourless, which adds none.
pub open spec fn color_bit(c: char) -> Option<u8> {
    let l = ascii_lower(c);
    if l == 'w' {
        Some(1u8)
    } else if l == 'u' {
        Some(2u8)
    } else if l == 'b' {
        Some(4u8)
    } else if l == 'r' {
        Some(8u8)
    } else if l == 'g' {
        Some(16u8)
    } else if l == 'c' {
        Some(0u8)
    } else {
        None
    }
}

/// The identity a run of colour letters spells, or `None` if any character
/// is not one.
pub open spec fn letters_mask(s: Seq<char>) -> Option<u8>
    decreases s.len(),
{
    if s.len() == 0 {
        Some(0u8)
    } else {
        match (letters_mask(s.drop_last()), color_bit(s.last())) {
            (Some(m), Some(b)) => Some(m | b),
            _ => None,
        }
    }
}

/// The strings of `ci`, joined end to end.
pub open spec fn joined(ci: Seq<String>) -> Seq<char>
    decreases ci.len(),
{
    if ci.len() == 0 {
        Seq::empty()
    } else {
        joined(ci.drop_last()) + ci.last()@
    }
}

/// Colour identity as a set over WUBRG: one bit each, white lowest.
#[derive(Debug, Clone, Copy, PartialEq, Eq, Default, Structural)]
pub struct Colors(pub u8);

/// The colour letters and their bits.
pub const LETTERS: [(char, u8); 5] = [('w', 1), ('u', 2), ('b', 4), ('r', 8), ('g', 16)];

fn bit_of_letter(c: char) -> (r: Option<u8>)
    ensures
        r == color_bit(c),
{
    let l = lower_char(c);
    let mut i: usize = 0;
    while i < 5
        invariant
            i <= 5,
            l == ascii_lower(c),
            forall|k: int| 0 <= k < i ==> LETTERS[k].0 != l,
        decreases 5 - i,
    {
        if LETTERS[i].0 == l {
            return Some(LETTERS[i].1);
        }
        i += 1;
    }
    if l == 'c' {
        Some(0)
    } else {
        None
    }
}

impl Colors {
    /// The identity spelled by colour letters, if every character is one.
    pub fn from_letter_chars(s: &[char]) -> (r: Option<Colors>)
        ensures
            r == match letters_mask(s@) {
                Some(m) => Some(Colors(m)),
                None => None,
            },
    {
        let mut bits: u8 = 0;
        let mut i: usize = 0;
        while i < s.len()
            invariant
                i <= s@.len(),
                letters_mask(s@.subrange(0, i as int)) == Some(bits),
            decreases s@.len() - i,
        {
            assert(s@.subrange(0, i + 1).drop_last() =~= s@.subrange(0, i as int));
            match bit_of_letter(s[i]) {
                Some(b) => {
                    bits = bits | b;
                },
                None => {
                    proof {
                        lemma_mask_none_stays(s@, i + 1);
                    }
                    return None;
                },
            }
            i += 1;
        }
        assert(s@.subrange(0, s@.len() as int) =~= s@);
        Some(Colors(bits))
    }

    /// [`Colors::from_letter_chars`] on a string.
    pub fn from_letters(s: &str) -> (r: Option<Colors>)
        ensures
            r == match letters_mask(s@) {
                Some(m) => Some(Colors(m)),
                None => None,
            },
    {
        let cs = chars_of(s);
        Colors::from_letter_chars(cs.as_slice())
    }

    /// The identity the letters of `ci` spell together, or none at all when
    /// any of them is not a colour letter.
    pub fn from_identity(ci: &[String]) -> (r: Colors)
        ensures
            r == Colors(
                match letters_mask(joined(ci@)) {
                    Some(m) => m,
                    None => 0,
                },
            ),
    {
        let mut all: Vec<char> = Vec::new();
        let mut i: usize = 0;
        while i < ci.len()
            invariant
                i <= ci@.len(),
                all@ == joined(ci@.subrange(0, i as int)),
            decreases ci@.len() - i,
        {
            let cs = chars_of(ci[i].as_str());
            let mut k: usize = 0;
            let ghost start = all@;
            while k < cs.len()
                invariant
                    k <= cs@.len(),
                    all@ =~= start + cs@.subrange(0, k as int),
                decreases cs@.len() - k,
            {
                all.push(cs[k]);
                k += 1;
            }
            proof {
                assert(ci@.subrange(0, i + 1).drop_last() =~= ci@.subrange(0, i as int));
                assert(cs@.subrange(0, cs@.len() as int) =~= cs@);
            }
            i += 1;
        }
        assert(ci@.subrange(0, ci@.len() as int) =~= ci@);
        match Colors::from_letter_chars(all.as_slice()) {
            Some(c) => c,
            None => Colors(0),
        }
    }

    /// Whether every colour here is also in `other`.
    pub fn is_subset_of(self, other: Colors) -> (r: bool)
        ensures
            r == (self.0 & !other.0 == 0),
    {
        self.0 & !other.0 == 0
    }

    /// The colours in both.
    pub fn intersect(self, other: Colors) -> (r: Colors)
        ensures
            r == Colors(self.0 & other.0),
    {
        Colors(self.0 & other.0)
    }

    /// The colours in either.
    pub fn union(self, other: Colors) -> (r: Colors)
        ensures
            r == Colors(self.0 | other.0),
    {
        Colors(self.0 | other.0)
    }

    pub fn is_empty(self) -> (r: bool)
        ensures
            r == (self.0 == 0),
    {
        self.0 == 0
    }
}

proof fn lemma_mask_none_stays(s: Seq<char>, i: int)
    requires
        0 <= i <= s.len(),
        letters_mask(s.subrange(0, i)) is None,
    ensures
        letters_mask(s) is None,
    decreases s.len() - i,
{
    if i < s.len() {
        assert(s.subrange(0, i + 1).drop_last() =~= s.subrange(0, i));
        lemma_mask_none_stays(s, i + 1);
    } else {
        assert(s.subrange(0, i) =~= s);
    }
}

/// A property `is:` asks about.
#[derive(Debug, Clone, Copy, PartialEq, Eq, Structural)]
pub enum IsProperty {
    Permanent,
    Spell,
    Historic,
    /// A creature with no rules text.
    Vanilla,
}

} // verus!

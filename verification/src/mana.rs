//! Mana as a gate: could this have been paid for, by this turn.
//!
//! One Hallowed Fountain counts toward a white source and toward a blue one,
//! so two independent counts both satisfied by a hand can still fail to pay
//! `{W}{U}`. Whether a set of sources covers a set of pips is a bipartite
//! matching, decided here by Hall's condition over the pip kinds a cost
//! demands.

use vstd::prelude::*;
use crate::text::{
    ascii_upper, chars_of, is_ascii_digit, is_digit, is_whitespace, is_ws, parse_u32, parse_u32_spec,
    string_of, upper_char,
};

verus! {

/// The bit a pip kind occupies in a [`Palette`], by its index in
/// White, Blue, Black, Red, Green, Colorless order.
pub open spec fn bit_of(k: int) -> u8 {
    if k == 0 {
        1
    } else if k == 1 {
        2
    } else if k == 2 {
        4
    } else if k == 3 {
        8
    } else if k == 4 {
        16
    } else {
        32
    }
}

/// Whether the bits `m` include pip kind `k`.
pub open spec fn in_mask(m: u8, k: int) -> bool {
    m & bit_of(k) != 0
}

/// One kind of mana symbol a cost can demand. Generic is not here: it is a
/// number of sources of no kind at all.
#[derive(Debug, Clone, Copy, PartialEq, Eq, Structural)]
pub enum Pip {
    White,
    Blue,
    Black,
    Red,
    Green,
    Colorless,
}

/// The pip kind with index `k`.
pub open spec fn pip_at(k: int) -> Pip {
    if k == 0 {
        Pip::White
    } else if k == 1 {
        Pip::Blue
    } else if k == 2 {
        Pip::Black
    } else if k == 3 {
        Pip::Red
    } else if k == 4 {
        Pip::Green
    } else {
        Pip::Colorless
    }
}

/// The pip a letter names, case-insensitively.
pub open spec fn pip_of_letter(c: char) -> Option<Pip> {
    let u = ascii_upper(c);
    if u == 'W' {
        Some(Pip::White)
    } else if u == 'U' {
        Some(Pip::Blue)
    } else if u == 'B' {
        Some(Pip::Black)
    } else if u == 'R' {
        Some(Pip::Red)
    } else if u == 'G' {
        Some(Pip::Green)
    } else if u == 'C' {
        Some(Pip::Colorless)
    } else {
        None
    }
}

impl Pip {
    pub open spec fn index(self) -> int {
        match self {
            Pip::White => 0,
            Pip::Blue => 1,
            Pip::Black => 2,
            Pip::Red => 3,
            Pip::Green => 4,
            Pip::Colorless => 5,
        }
    }

    pub fn index_of(self) -> (r: usize)
        ensures
            r == self.index(),
    {
        match self {
            Pip::White => 0,
            Pip::Blue => 1,
            Pip::Black => 2,
            Pip::Red => 3,
            Pip::Green => 4,
            Pip::Colorless => 5,
        }
    }

    /// The pip at position `k` of White, Blue, Black, Red, Green, Colorless.
    pub fn at(k: usize) -> (p: Pip)
        requires
            k < 6,
        ensures
            p == pip_at(k as int),
            p.index() == k,
    {
        if k == 0 {
            Pip::White
        } else if k == 1 {
            Pip::Blue
        } else if k == 2 {
            Pip::Black
        } else if k == 3 {
            Pip::Red
        } else if k == 4 {
            Pip::Green
        } else {
            Pip::Colorless
        }
    }

    pub fn bit(self) -> (b: u8)
        ensures
            b == bit_of(self.index()),
    {
        match self {
            Pip::White => 1,
            Pip::Blue => 2,
            Pip::Black => 4,
            Pip::Red => 8,
            Pip::Green => 16,
            Pip::Colorless => 32,
        }
    }

    pub fn from_letter(c: char) -> (r: Option<Pip>)
        ensures
            r == pip_of_letter(c),
    {
        let u = upper_char(c);
        if u == 'W' {
            Some(Pip::White)
        } else if u == 'U' {
            Some(Pip::Blue)
        } else if u == 'B' {
            Some(Pip::Black)
        } else if u == 'R' {
            Some(Pip::Red)
        } else if u == 'G' {
            Some(Pip::Green)
        } else if u == 'C' {
            Some(Pip::Colorless)
        } else {
            None
        }
    }
}

pub proof fn lemma_pip_at_index(k: int)
    requires
        0 <= k < 6,
    ensures
        pip_at(k).index() == k,
{
}

pub proof fn lemma_pip_index(p: Pip)
    ensures
        0 <= p.index() < 6,
        pip_at(p.index()) == p,
{
}

/// The kinds of mana one source can make, one bit per pip kind.
#[derive(Debug, Clone, Copy, PartialEq, Eq, Hash, Structural)]
pub struct Palette(pub u8);

/// Whether some letter of some string in `ls` names pip kind `k`.
pub open spec fn letters_name(ls: Seq<Seq<char>>, k: int) -> bool {
    exists|a: int, b: int|
        0 <= a < ls.len() && 0 <= b < ls[a].len() && pip_of_letter(#[trigger] ls[a][b]) == Some(
            pip_at(k),
        )
}

proof fn lemma_or_bit(x: u8, y: u8, k: int)
    requires
        0 <= k < 6,
    ensures
        ((x | y) & bit_of(k) != 0) == ((x & bit_of(k) != 0) || (y & bit_of(k) != 0)),
        x < 64 && y < 64 ==> (x | y) < 64,
{
    let b = bit_of(k);
    assert(((x | y) & b != 0) == ((x & b != 0) || (y & b != 0))) by (bit_vector);
    assert(x < 64 && y < 64 ==> (x | y) < 64) by (bit_vector);
}

proof fn lemma_distinct_bits(j: int, k: int)
    requires
        0 <= j < 6,
        0 <= k < 6,
    ensures
        (bit_of(j) & bit_of(k) != 0) == (j == k),
        bit_of(j) < 64,
        bit_of(j) != 0,
{
    let a = bit_of(j);
    let b = bit_of(k);
    if j == k {
        assert(a != 0 ==> a & a != 0) by (bit_vector);
    } else {
        assert(a == 1 || a == 2 || a == 4 || a == 8 || a == 16 || a == 32);
        assert(b == 1 || b == 2 || b == 4 || b == 8 || b == 16 || b == 32);
        assert((a == 1 || a == 2 || a == 4 || a == 8 || a == 16 || a == 32) && (b == 1 || b == 2
            || b == 4 || b == 8 || b == 16 || b == 32) && a != b ==> a & b == 0) by (bit_vector);
    }
}

/// A palette is its six bits: two that agree on every pip kind are one.
pub proof fn lemma_palette_determined(p: Palette, q: Palette)
    requires
        p.0 < 64,
        q.0 < 64,
        forall|k: int| 0 <= k < 6 ==> (#[trigger] p.has(k) <==> q.has(k)),
    ensures
        p == q,
{
    assert(p.has(0) == q.has(0));
    assert(p.has(1) == q.has(1));
    assert(p.has(2) == q.has(2));
    assert(p.has(3) == q.has(3));
    assert(p.has(4) == q.has(4));
    assert(p.has(5) == q.has(5));
    let a = p.0;
    let b = q.0;
    assert(a == b) by (bit_vector)
        requires
            a < 64,
            b < 64,
            (a & 1 != 0) == (b & 1 != 0),
            (a & 2 != 0) == (b & 2 != 0),
            (a & 4 != 0) == (b & 4 != 0),
            (a & 8 != 0) == (b & 8 != 0),
            (a & 16 != 0) == (b & 16 != 0),
            (a & 32 != 0) == (b & 32 != 0),
    ;
}

impl Palette {
    pub open spec fn has(self, k: int) -> bool {
        in_mask(self.0, k)
    }

    pub fn empty() -> (p: Palette)
        ensures
            p.0 == 0,
    {
        Palette(0)
    }

    /// Every colour and colourless.
    pub fn all() -> (p: Palette)
        ensures
            p.0 == 63,
    {
        Palette(63)
    }

    /// Read a palette from Scryfall's `produced_mana` letters. Letters that are
    /// no WUBRG or C letter are dropped: snow and energy pay no mana cost.
    pub fn from_letters(letters: &[&str]) -> (p: Palette)
        ensures
            p.0 < 64,
            forall|k: int|
                0 <= k < 6 ==> (p.has(k) <==> letters_name(
                    letters@.map_values(|s: &str| s@),
                    k,
                )),
    {
        let ghost ls = letters@.map_values(|s: &str| s@);
        let mut bits: u8 = 0;
        assert(forall|b: u8| 0u8 & b == 0) by (bit_vector);
        let mut i: usize = 0;
        while i < letters.len()
            invariant
                i <= letters@.len(),
                ls == letters@.map_values(|s: &str| s@),
                bits < 64,
                forall|k: int|
                    0 <= k < 6 ==> (in_mask(bits, k) <==> letters_name(ls.subrange(0, i as int), k)),
            decreases letters@.len() - i,
        {
            let cs = chars_of(letters[i]);
            let ghost before = bits;
            let mut j: usize = 0;
            while j < cs.len()
                invariant
                    i < letters@.len(),
                    ls == letters@.map_values(|s: &str| s@),
                    cs@ == ls[i as int],
                    j <= cs@.len(),
                    bits < 64,
                    forall|k: int|
                        0 <= k < 6 ==> (#[trigger] in_mask(bits, k) <==> (in_mask(before, k)
                            || exists|b: int|
                            0 <= b < j && pip_of_letter(#[trigger] cs@[b]) == Some(pip_at(k)))),
                decreases cs@.len() - j,
            {
                let ghost old_bits = bits;
                if let Some(pip) = Pip::from_letter(cs[j]) {
                    bits = bits | pip.bit();
                    proof {
                        lemma_pip_index(pip);
                        assert forall|k: int| 0 <= k < 6 implies (in_mask(bits, k) <==> (in_mask(
                            before,
                            k,
                        ) || exists|b: int|
                            0 <= b < j + 1 && pip_of_letter(#[trigger] cs@[b]) == Some(
                                pip_at(k),
                            ))) by {
                            lemma_or_bit(old_bits, bit_of(pip.index()), k);
                            lemma_distinct_bits(pip.index(), k);
                            assert(in_mask(old_bits, k) == (in_mask(before, k) || exists|b: int|
                                0 <= b < j && pip_of_letter(#[trigger] cs@[b]) == Some(pip_at(k))));
                            if exists|b: int|
                                0 <= b < j && pip_of_letter(#[trigger] cs@[b]) == Some(pip_at(k)) {
                                let b = choose|b: int|
                                    0 <= b < j && pip_of_letter(#[trigger] cs@[b]) == Some(
                                        pip_at(k),
                                    );
                                assert(0 <= b < j + 1 && pip_of_letter(cs@[b]) == Some(pip_at(k)));
                            }
                            if pip.index() == k {
                                assert(pip_of_letter(cs@[j as int]) == Some(pip_at(k)));
                            }
                            if exists|b: int|
                                0 <= b < j + 1 && pip_of_letter(#[trigger] cs@[b]) == Some(
                                    pip_at(k),
                                ) {
                                let b = choose|b: int|
                                    0 <= b < j + 1 && pip_of_letter(#[trigger] cs@[b]) == Some(
                                        pip_at(k),
                                    );
                                if b == j {
                                    lemma_pip_at_index(k);
                                } else {
                                    assert(0 <= b < j && pip_of_letter(cs@[b]) == Some(pip_at(k)));
                                }
                            }
                        }
                        lemma_or_bit(old_bits, bit_of(pip.index()), 0);
                        lemma_distinct_bits(pip.index(), 0);
                    }
                } else {
                    assert forall|k: int| 0 <= k < 6 implies (in_mask(bits, k) <==> (in_mask(
                        before,
                        k,
                    ) || exists|b: int|
                        0 <= b < j + 1 && pip_of_letter(#[trigger] cs@[b]) == Some(pip_at(k)))) by {
                        if exists|b: int|
                            0 <= b < j + 1 && pip_of_letter(#[trigger] cs@[b]) == Some(pip_at(k)) {
                            let b = choose|b: int|
                                0 <= b < j + 1 && pip_of_letter(#[trigger] cs@[b]) == Some(
                                    pip_at(k),
                                );
                            if b == j {
                                assert(false);
                            }
                        }
                    }
                }
                j += 1;
            }
            proof {
                let pre = ls.subrange(0, i as int);
                let post = ls.subrange(0, i + 1);
                assert forall|k: int|
                    0 <= k < 6 implies (in_mask(bits, k) <==> letters_name(post, k)) by {
                    if letters_name(post, k) {
                        let (a, b) = choose|a: int, b: int|
                            0 <= a < post.len() && 0 <= b < post[a].len() && pip_of_letter(
                                #[trigger] post[a][b],
                            ) == Some(pip_at(k));
                        if a < i {
                            assert(pre[a][b] == post[a][b]);
                            assert(letters_name(pre, k));
                        } else {
                            assert(cs@[b] == post[a][b]);
                        }
                    }
                    if in_mask(bits, k) {
                        if in_mask(before, k) {
                            let (a, b) = choose|a: int, b: int|
                                0 <= a < pre.len() && 0 <= b < pre[a].len() && pip_of_letter(
                                    #[trigger] pre[a][b],
                                ) == Some(pip_at(k));
                            assert(post[a][b] == pre[a][b]);
                        } else {
                            let b = choose|b: int|
                                0 <= b < cs@.len() && pip_of_letter(#[trigger] cs@[b]) == Some(
                                    pip_at(k),
                                );
                            assert(post[i as int][b] == cs@[b]);
                        }
                    }
                }
            }
            i += 1;
        }
        assert(ls.subrange(0, letters@.len() as int) =~= ls);
        Palette(bits)
    }

    pub fn makes(self, pip: Pip) -> (r: bool)
        ensures
            r == self.has(pip.index()),
    {
        self.0 & pip.bit() != 0
    }

    pub fn is_empty(self) -> (r: bool)
        ensures
            r == (self.0 == 0),
    {
        self.0 == 0
    }

    /// The kinds either palette makes.
    pub fn union(self, other: Palette) -> (p: Palette)
        ensures
            p.0 == self.0 | other.0,
    {
        Palette(self.0 | other.0)
    }

    /// Whether this source can pay any pip in `demand`.
    pub fn serves(self, demand: u8) -> (r: bool)
        ensures
            r == (self.0 & demand != 0),
    {
        self.0 & demand != 0
    }
}

/// What one card in the library does for mana before anything is cast.
#[derive(Debug, Clone, Copy, PartialEq, Eq, Hash, Structural)]
pub enum ManaSource {
    /// Anything you would have to cast: it makes no mana.
    Spell,
    /// A land: one drop a turn, free.
    Land { enters_tapped: bool, produces: Palette },
}

impl ManaSource {
    pub open spec fn palette_of(self) -> Palette {
        match self {
            ManaSource::Spell => Palette(0),
            ManaSource::Land { produces, .. } => produces,
        }
    }

    pub open spec fn tapped_on_arrival(self) -> bool {
        match self {
            ManaSource::Spell => false,
            ManaSource::Land { enters_tapped, .. } => enters_tapped,
        }
    }

    pub fn is_land(self) -> (r: bool)
        ensures
            r == (self is Land),
    {
        match self {
            ManaSource::Land { .. } => true,
            ManaSource::Spell => false,
        }
    }

    pub fn enters_tapped(self) -> (r: bool)
        ensures
            r == self.tapped_on_arrival(),
    {
        match self {
            ManaSource::Land { enters_tapped, .. } => enters_tapped,
            ManaSource::Spell => false,
        }
    }

    pub fn palette(self) -> (p: Palette)
        ensures
            p == self.palette_of(),
    {
        match self {
            ManaSource::Spell => Palette(0),
            ManaSource::Land { produces, .. } => produces,
        }
    }
}

/// One group of interchangeable mana sources, as the matching sees them.
#[derive(Debug, Clone, Copy, PartialEq, Eq, Structural)]
pub struct Source {
    pub produces: Palette,
    /// Whether a land of this group makes no mana on the turn it arrives.
    pub tapped: bool,
}

impl Source {
    pub fn of(mana: ManaSource) -> (s: Source)
        ensures
            s.produces == mana.palette_of(),
            s.tapped == mana.tapped_on_arrival(),
    {
        Source { produces: mana.palette(), tapped: mana.enters_tapped() }
    }
}

/// Which sources a payment is obliged to use.
#[derive(Debug, Clone, Copy, PartialEq, Eq, Structural)]
pub enum Constraint {
    /// No obligation: the payment can come from anywhere in the pool.
    Anything,
    /// The payment must use a land of this group.
    Includes(usize),
    /// The payment must use some land that does not enter tapped.
    IncludesUntapped,
}

} // verus!

verus! {

/// Whether `source` can pay any pip kind in the bits `m`.
pub open spec fn serves_mask(source: Source, m: u8) -> bool {
    source.produces.0 & m != 0
}

/// Demand of the pip kinds in `m`, over the first `n` kinds.
pub open spec fn demand_in(pips: Seq<int>, m: u8, n: int) -> int
    decreases n,
{
    if n <= 0 {
        0
    } else {
        demand_in(pips, m, n - 1) + if in_mask(m, n - 1) {
            pips[n - 1]
        } else {
            0
        }
    }
}

/// Sources among the first `n` groups that can pay some pip kind in `m`.
pub open spec fn supply_in(srcs: Seq<Source>, counts: Seq<int>, m: u8, n: int) -> int
    decreases n,
{
    if n <= 0 {
        0
    } else {
        supply_in(srcs, counts, m, n - 1) + if serves_mask(srcs[n - 1], m) {
            counts[n - 1]
        } else {
            0
        }
    }
}

/// How many sources the first `n` groups hold altogether.
pub open spec fn total_in(counts: Seq<int>, n: int) -> int
    decreases n,
{
    if n <= 0 {
        0
    } else {
        total_in(counts, n - 1) + counts[n - 1]
    }
}

/// Counts as integers.
pub open spec fn ints(s: Seq<u32>) -> Seq<int> {
    s.map_values(|c: u32| c as int)
}

/// Hall's condition for a cost needing `total` sources, `pips[k]` of which
/// must make pip kind `k`: enough sources overall, and for every set of pip
/// kinds at least as many sources serving the set as the set demands.
pub open spec fn hall(srcs: Seq<Source>, counts: Seq<int>, pips: Seq<int>, total: int) -> bool {
    &&& total_in(counts, counts.len() as int) >= total
    &&& forall|m: u8|
        1 <= m < 64 ==> #[trigger] supply_in(srcs, counts, m, srcs.len() as int) >= demand_in(
            pips,
            m,
            6,
        )
}

/// Whether a source is one a payment under `cons` is obliged to be able to
/// use.
pub open spec fn eligible(cons: Constraint, srcs: Seq<Source>, counts: Seq<int>, i: int) -> bool {
    match cons {
        Constraint::Anything => true,
        Constraint::Includes(group) => i == group && counts[i] > 0,
        Constraint::IncludesUntapped => counts[i] > 0 && !srcs[i].tapped,
    }
}

/// The matching with one source spent on one pip: that source is one fewer
/// and the pip is one fewer, and one of the sources the cost needs is paid.
pub open spec fn hall_spent(
    srcs: Seq<Source>,
    counts: Seq<int>,
    pips: Seq<int>,
    total: int,
    i: int,
    k: int,
) -> bool {
    hall(srcs, counts.update(i, counts[i] - 1), pips.update(k, pips[k] - 1), total - 1)
}

/// Whether a payment exists that uses a source `cons` accepts.
pub open spec fn forced_spec(
    srcs: Seq<Source>,
    counts: Seq<int>,
    pips: Seq<int>,
    generic: int,
    total: int,
    cons: Constraint,
) -> bool {
    if generic > 0 {
        (exists|i: int| 0 <= i < srcs.len() && #[trigger] eligible(cons, srcs, counts, i)) && hall(
            srcs,
            counts,
            pips,
            total,
        )
    } else {
        exists|i: int, k: int|
            0 <= i < srcs.len() && 0 <= k < 6 && #[trigger] eligible(cons, srcs, counts, i)
                && pips[k] > 0 && srcs[i].produces.has(k) && #[trigger] hall_spent(
                srcs,
                counts,
                pips,
                total,
                i,
                k,
            )
    }
}

/// The pip kinds with positive demand, in White..Colorless order, among the
/// first `n` kinds.
pub open spec fn demanded_upto(pips: Seq<int>, n: int) -> Seq<Pip>
    decreases n,
{
    if n <= 0 {
        Seq::empty()
    } else if pips[n - 1] > 0 {
        demanded_upto(pips, n - 1).push(pip_at(n - 1))
    } else {
        demanded_upto(pips, n - 1)
    }
}

/// The most sources a payable cost may need.
pub const MAX_COST: u32 = 100;

/// A mana cost, as a demand waiting to be paid.
#[derive(Debug)]
pub struct Cost {
    /// How many sources of no particular kind this needs.
    generic: u32,
    /// Demand per pip kind, by index.
    pips: [u32; 6],
    /// Sources needed in total: generic plus every pip.
    total: u32,
    /// The pip kinds actually demanded, in White..Colorless order.
    demanded: Vec<Pip>,
    /// How it was written.
    text: String,
}

/// A mana cost this engine will not try to pay.
#[derive(Debug, Clone, PartialEq, Eq)]
pub enum CostError {
    /// No symbols at all.
    Empty { text: String },
    /// A symbol that is no number and no single W, U, B, R, G or C: hybrid,
    /// Phyrexian and X are each a decision rather than an amount.
    Unpayable { text: String, symbol: String },
    /// More than [`MAX_COST`] sources.
    TooLarge { text: String, total: u32 },
}

impl Cost {
    #[verifier::type_invariant]
    spec fn well_formed(self) -> bool {
        &&& self.total == self.generic + demand_in(ints(self.pips@), 63, 6)
        &&& self.total <= MAX_COST
        &&& self.demanded@ == demanded_upto(ints(self.pips@), 6)
    }

    pub closed spec fn generic_of(self) -> int {
        self.generic as int
    }

    pub closed spec fn pips_of(self) -> Seq<int> {
        ints(self.pips@)
    }

    pub closed spec fn total_of(self) -> int {
        self.total as int
    }

    pub closed spec fn text_of(self) -> Seq<char> {
        self.text@
    }

    /// How many sources paying this needs. A payment uses exactly this many.
    pub fn total(&self) -> (r: u32)
        ensures
            r == self.total_of(),
            r == self.generic_of() + demand_in(self.pips_of(), 63, 6),
            r <= MAX_COST,
    {
        proof {
            use_type_invariant(self);
        }
        self.total
    }

    pub fn is_free(&self) -> (r: bool)
        ensures
            r == (self.total_of() == 0),
    {
        self.total == 0
    }

    /// The cost as it was written.
    pub fn as_str(&self) -> (r: &str)
        ensures
            r@ == self.text_of(),
    {
        self.text.as_str()
    }

    /// Demand per pip kind, White..Colorless.
    pub fn pips(&self) -> (r: [u32; 6])
        ensures
            ints(r@) == self.pips_of(),
    {
        self.pips
    }

    /// How many sources of no particular kind this needs.
    pub fn generic(&self) -> (r: u32)
        ensures
            r == self.generic_of(),
    {
        self.generic
    }
}

} // verus!

verus! {

/// Every count is a count: none below zero.
pub open spec fn nonneg(s: Seq<int>) -> bool {
    forall|i: int| 0 <= i < s.len() ==> #[trigger] s[i] >= 0
}

proof fn lemma_total_prefix(c: Seq<int>, i: int, n: int)
    requires
        nonneg(c),
        0 <= i <= n <= c.len(),
    ensures
        0 <= total_in(c, i) <= total_in(c, n),
    decreases n - i,
{
    if i < n {
        lemma_total_prefix(c, i, n - 1);
        assert(c[n - 1] >= 0);
    } else {
        lemma_total_nonneg(c, i);
    }
}

proof fn lemma_total_nonneg(c: Seq<int>, n: int)
    requires
        nonneg(c),
        n <= c.len(),
    ensures
        total_in(c, n) >= 0,
    decreases n,
{
    if n > 0 {
        lemma_total_nonneg(c, n - 1);
        assert(c[n - 1] >= 0);
    }
}

proof fn lemma_supply_le_total(srcs: Seq<Source>, c: Seq<int>, m: u8, n: int)
    requires
        nonneg(c),
        n <= c.len(),
        n <= srcs.len(),
    ensures
        0 <= supply_in(srcs, c, m, n) <= total_in(c, n),
    decreases n,
{
    if n > 0 {
        lemma_supply_le_total(srcs, c, m, n - 1);
        assert(c[n - 1] >= 0);
    }
}

proof fn lemma_total_update(c: Seq<int>, g: int, n: int)
    requires
        0 <= g < c.len(),
        n <= c.len(),
    ensures
        total_in(c.update(g, c[g] - 1), n) == total_in(c, n) - (if g < n {
            1int
        } else {
            0int
        }),
    decreases n,
{
    if n > 0 {
        lemma_total_update(c, g, n - 1);
    }
}

proof fn lemma_supply_update_le(srcs: Seq<Source>, c: Seq<int>, g: int, m: u8, n: int)
    requires
        0 <= g < c.len(),
        n <= c.len(),
    ensures
        supply_in(srcs, c.update(g, c[g] - 1), m, n) <= supply_in(srcs, c, m, n),
    decreases n,
{
    if n > 0 {
        lemma_supply_update_le(srcs, c, g, m, n - 1);
    }
}

proof fn lemma_mask_bits(m: u8, d: u8, k: int)
    requires
        0 <= k < 6,
    ensures
        in_mask(m & d, k) == (in_mask(m, k) && in_mask(d, k)),
        in_mask(0, k) == false,
{
    let b = bit_of(k);
    assert(b == 1 || b == 2 || b == 4 || b == 8 || b == 16 || b == 32);
    assert((b == 1 || b == 2 || b == 4 || b == 8 || b == 16 || b == 32) ==> (((m & d) & b != 0)
        == ((m & b != 0) && (d & b != 0)))) by (bit_vector);
    assert(0u8 & b == 0) by (bit_vector);
}

proof fn lemma_demand_restrict(pips: Seq<int>, m: u8, d: u8, n: int)
    requires
        0 <= n <= 6,
        pips.len() == 6,
        forall|k: int| 0 <= k < 6 && !in_mask(d, k) ==> pips[k] == 0,
    ensures
        demand_in(pips, m, n) == demand_in(pips, m & d, n),
        demand_in(pips, 0, n) == 0,
    decreases n,
{
    if n > 0 {
        lemma_demand_restrict(pips, m, d, n - 1);
        lemma_mask_bits(m, d, n - 1);
    }
}

proof fn lemma_supply_restrict(srcs: Seq<Source>, c: Seq<int>, m: u8, d: u8, n: int)
    requires
        nonneg(c),
        n <= c.len(),
        n <= srcs.len(),
    ensures
        supply_in(srcs, c, m, n) >= supply_in(srcs, c, m & d, n),
    decreases n,
{
    if n > 0 {
        lemma_supply_restrict(srcs, c, m, d, n - 1);
        let p = srcs[n - 1].produces.0;
        assert((p & (m & d) != 0) ==> (p & m != 0)) by (bit_vector);
        assert(c[n - 1] >= 0);
    }
}

proof fn lemma_nonneg_update(c: Seq<int>, g: int)
    requires
        nonneg(c),
        0 <= g < c.len(),
        c[g] >= 1,
    ensures
        nonneg(c.update(g, c[g] - 1)),
{
    assert forall|i: int| 0 <= i < c.len() implies #[trigger] c.update(g, c[g] - 1)[i] >= 0 by {
        if i != g {
            assert(c[i] >= 0);
        }
    }
}

proof fn lemma_ints_nonneg(s: Seq<u32>)
    ensures
        nonneg(ints(s)),
        ints(s).len() == s.len(),
{
    assert forall|i: int| 0 <= i < ints(s).len() implies #[trigger] ints(s)[i] >= 0 by {
        assert(ints(s)[i] == s[i] as int);
    }
}

proof fn lemma_demanded_has(pips: Seq<int>, n: int, k: int)
    requires
        0 <= n <= 6,
        pips.len() == 6,
        0 <= k < 6,
    ensures
        (k < n && pips[k] > 0) <==> demanded_upto(pips, n).contains(pip_at(k)),
        forall|j: int|
            0 <= j < demanded_upto(pips, n).len() ==> 0 <= (#[trigger] demanded_upto(
                pips,
                n,
            )[j]).index() < n,
    decreases n,
{
    if n > 0 {
        lemma_demanded_has(pips, n - 1, k);
        let prev = demanded_upto(pips, n - 1);
        if pips[n - 1] > 0 {
            let now = prev.push(pip_at(n - 1));
            lemma_pip_at_index(n - 1);
            lemma_pip_at_index(k);
            if k == n - 1 {
                assert(now[now.len() - 1] == pip_at(k));
            } else {
                if now.contains(pip_at(k)) {
                    let j = choose|j: int| 0 <= j < now.len() && now[j] == pip_at(k);
                    if j < prev.len() {
                        assert(prev[j] == pip_at(k));
                    }
                }
                if prev.contains(pip_at(k)) {
                    let j = choose|j: int| 0 <= j < prev.len() && prev[j] == pip_at(k);
                    assert(now[j] == pip_at(k));
                }
            }
            assert forall|j: int| 0 <= j < now.len() implies 0 <= (#[trigger] now[j]).index()
                < n by {
                if j < prev.len() {
                    assert(now[j] == prev[j]);
                }
            }
        }
    }
}

impl Cost {
    /// The bits of every pip kind this cost demands.
    fn demanded_bits(&self) -> (d: u8)
        ensures
            d < 64,
            forall|k: int| 0 <= k < 6 ==> (in_mask(d, k) <==> self.pips_of()[k] > 0),
    {
        proof {
            use_type_invariant(self);
            lemma_ints_nonneg(self.pips@);
        }
        let mut d: u8 = 0;
        let mut j: usize = 0;
        assert(forall|b: u8| 0u8 & b == 0) by (bit_vector);
        while j < self.demanded.len()
            invariant
                self.demanded@ == demanded_upto(ints(self.pips@), 6),
                ints(self.pips@).len() == 6,
                j <= self.demanded@.len(),
                d < 64,
                forall|k: int|
                    0 <= k < 6 ==> (#[trigger] in_mask(d, k) <==> exists|i: int|
                        0 <= i < j && self.demanded@[i] == pip_at(k)),
            decreases self.demanded@.len() - j,
        {
            let pip = self.demanded[j];
            let ghost old_d = d;
            proof {
                lemma_demanded_has(ints(self.pips@), 6, 0);
                assert(0 <= self.demanded@[j as int].index() < 6);
            }
            d = d | pip.bit();
            proof {
                assert forall|k: int| 0 <= k < 6 implies (#[trigger] in_mask(d, k) <==> exists|i: int|
                    0 <= i < j + 1 && self.demanded@[i] == pip_at(k)) by {
                    lemma_or_bit(old_d, bit_of(pip.index()), k);
                    lemma_distinct_bits(pip.index(), k);
                    lemma_pip_index(pip);
                    lemma_pip_at_index(k);
                    assert(in_mask(old_d, k) <==> exists|i: int|
                        0 <= i < j && self.demanded@[i] == pip_at(k));
                    if exists|i: int| 0 <= i < j && self.demanded@[i] == pip_at(k) {
                        let i = choose|i: int| 0 <= i < j && self.demanded@[i] == pip_at(k);
                        assert(0 <= i < j + 1 && self.demanded@[i] == pip_at(k));
                    }
                    if exists|i: int| 0 <= i < j + 1 && self.demanded@[i] == pip_at(k) {
                        let i = choose|i: int| 0 <= i < j + 1 && self.demanded@[i] == pip_at(k);
                        if i < j {
                            assert(0 <= i < j && self.demanded@[i] == pip_at(k));
                        }
                    }
                    if pip.index() == k {
                        assert(self.demanded@[j as int] == pip_at(k));
                    }
                }
                lemma_or_bit(old_d, bit_of(pip.index()), 0);
                lemma_distinct_bits(pip.index(), 0);
            }
            j += 1;
        }
        proof {
            assert forall|k: int| 0 <= k < 6 implies (in_mask(d, k) <==> self.pips_of()[k] > 0) by {
                lemma_demanded_has(ints(self.pips@), 6, k);
                assert(in_mask(d, k) <==> exists|i: int|
                    0 <= i < self.demanded@.len() && self.demanded@[i] == pip_at(k));
                if self.demanded@.contains(pip_at(k)) {
                    let i = choose|i: int|
                        0 <= i < self.demanded@.len() && self.demanded@[i] == pip_at(k);
                }
            }
        }
        d
    }

    /// The matching, with one source optionally already spoken for.
    ///
    /// `spent` is a source that has been assigned away: its group has one
    /// fewer and that pip's demand is one lower.
    fn covers(&self, sources: &[Source], counts: &[u32], spent: Option<(usize, Pip)>) -> (r: bool)
        requires
            sources@.len() == counts@.len(),
            total_in(ints(counts@), counts@.len() as int) <= u32::MAX,
            spent matches Some((g, p)) ==> g < counts@.len() && counts@[g as int] >= 1
                && self.pips_of()[p.index()] >= 1,
        ensures
            r == match spent {
                None => hall(sources@, ints(counts@), self.pips_of(), self.total_of()),
                Some((g, p)) => hall_spent(
                    sources@,
                    ints(counts@),
                    self.pips_of(),
                    self.total_of(),
                    g as int,
                    p.index(),
                ),
            },
    {
        proof {
            use_type_invariant(self);
            lemma_ints_nonneg(counts@);
            lemma_ints_nonneg(self.pips@);
        }
        let ghost c0 = ints(counts@);
        let ghost p0 = ints(self.pips@);
        let ghost c = match spent {
            None => c0,
            Some((g, p)) => c0.update(g as int, c0[g as int] - 1),
        };
        let ghost ps = match spent {
            None => p0,
            Some((g, p)) => p0.update(p.index(), p0[p.index()] - 1),
        };
        let ghost need = match spent {
            None => self.total as int,
            Some(_) => self.total - 1,
        };
        proof {
            if let Some((g, p)) = spent {
                lemma_nonneg_update(c0, g as int);
                lemma_pip_index(p);
                lemma_total_update(c0, g as int, c0.len() as int);
            }
            lemma_total_nonneg(c, c.len() as int);
        }
        let n = sources.len();
        let mut available: u64 = 0;
        let mut i: usize = 0;
        while i < n
            invariant
                n == sources@.len(),
                n == counts@.len(),
                c.len() == n,
                nonneg(c),
                nonneg(c0),
                c0 == ints(counts@),
                c == match spent {
                    None => c0,
                    Some((g, p)) => c0.update(g as int, c0[g as int] - 1),
                },
                spent matches Some((g, p)) ==> g < n && counts@[g as int] >= 1,
                total_in(c0, n as int) <= u32::MAX,
                total_in(c, n as int) <= total_in(c0, n as int),
                i <= n,
                available == total_in(c, i as int),
            decreases n - i,
        {
            let here: u32 = match spent {
                Some((g, _)) if g == i => counts[i] - 1,
                _ => counts[i],
            };
            proof {
                lemma_total_prefix(c, (i + 1) as int, n as int);
            }
            available = available + here as u64;
            i += 1;
        }
        let paid: u64 = if spent.is_some() {
            1
        } else {
            0
        };
        if available + paid < self.total as u64 {
            return false;
        }
        let dem = self.demanded_bits();
        let mut mask: u8 = 1;
        while mask < 64
            invariant
                1 <= mask <= 64,
                n == sources@.len(),
                n == counts@.len(),
                c.len() == n,
                ps.len() == 6,
                nonneg(c),
                nonneg(c0),
                c0 == ints(counts@),
                p0 == ints(self.pips@),
                c == match spent {
                    None => c0,
                    Some((g, p)) => c0.update(g as int, c0[g as int] - 1),
                },
                ps == match spent {
                    None => p0,
                    Some((g, p)) => p0.update(p.index(), p0[p.index()] - 1),
                },
                spent matches Some((g, p)) ==> g < n && counts@[g as int] >= 1 && 0 <= p.index() < 6
                    && p0[p.index()] >= 1,
                total_in(c0, n as int) <= u32::MAX,
                total_in(c, n as int) <= total_in(c0, n as int),
                forall|k: int| 0 <= k < 6 ==> (in_mask(dem, k) <==> p0[k] > 0),
                forall|k: int| 0 <= k < 6 ==> 0 <= #[trigger] ps[k] <= p0[k],
                p0.len() == 6,
                self.total <= MAX_COST,
                demand_in(p0, 63, 6) <= MAX_COST,
                forall|m: u8|
                    1 <= m < mask && m & !dem == 0 ==> #[trigger] supply_in(sources@, c, m, n as int)
                        >= demand_in(ps, m, 6),
            decreases 64 - mask,
        {
            if mask & !dem == 0 {
                let mut demand: u32 = 0;
                let mut k: usize = 0;
                while k < 6
                    invariant
                        k <= 6,
                        ps.len() == 6,
                        p0 == ints(self.pips@),
                        ps == match spent {
                            None => p0,
                            Some((g, p)) => p0.update(p.index(), p0[p.index()] - 1),
                        },
                        spent matches Some((g, p)) ==> 0 <= p.index() < 6 && p0[p.index()] >= 1,
                        forall|j: int| 0 <= j < 6 ==> 0 <= #[trigger] ps[j] <= p0[j],
                        p0.len() == 6,
                        demand_in(p0, 63, 6) <= MAX_COST,
                        demand == demand_in(ps, mask, k as int),
                        demand <= demand_in(p0, 63, k as int),
                    decreases 6 - k,
                {
                    let pip = Pip::at(k);
                    proof {
                        lemma_demand_le_all(p0, (k + 1) as int);
                        lemma_demand_prefix(p0, (k + 1) as int, 6);
                        lemma_all_bits(k as int);
                    }
                    if mask & pip.bit() != 0 {
                        let here: u32 = match spent {
                            Some((_, p)) if p.index_of() == k => self.pips[k] - 1,
                            _ => self.pips[k],
                        };
                        demand = demand + here;
                    }
                    k += 1;
                }
                let mut supply: u64 = 0;
                let mut i: usize = 0;
                while i < n
                    invariant
                        n == sources@.len(),
                        n == counts@.len(),
                        c.len() == n,
                        nonneg(c),
                        c0 == ints(counts@),
                        c == match spent {
                            None => c0,
                            Some((g, p)) => c0.update(g as int, c0[g as int] - 1),
                        },
                        spent matches Some((g, p)) ==> g < n && counts@[g as int] >= 1,
                        total_in(c, n as int) <= u32::MAX,
                        i <= n,
                        supply == supply_in(sources@, c, mask, i as int),
                    decreases n - i,
                {
                    proof {
                        lemma_supply_le_total(sources@, c, mask, (i + 1) as int);
                        lemma_total_prefix(c, (i + 1) as int, n as int);
                    }
                    if sources[i].produces.serves(mask) {
                        let here: u32 = match spent {
                            Some((g, _)) if g == i => counts[i] - 1,
                            _ => counts[i],
                        };
                        supply = supply + here as u64;
                    }
                    i += 1;
                }
                if supply < demand as u64 {
                    return false;
                }
            }
            mask += 1;
        }
        proof {
            assert forall|m: u8| 1 <= m < 64 implies #[trigger] supply_in(
                sources@,
                c,
                m,
                n as int,
            ) >= demand_in(ps, m, 6) by {
                let r = m & dem;
                assert(m < 64 ==> (m & dem) < 64) by (bit_vector);
                assert((m & dem) & !dem == 0) by (bit_vector);
                assert forall|k: int| 0 <= k < 6 && !in_mask(dem, k) implies ps[k] == 0 by {
                    assert(ps[k] <= p0[k]);
                }
                lemma_demand_restrict(ps, m, dem, 6);
                lemma_supply_restrict(sources@, c, m, dem, n as int);
                lemma_supply_le_total(sources@, c, m, n as int);
                if r >= 1 {
                    assert(supply_in(sources@, c, r, n as int) >= demand_in(ps, r, 6));
                }
            }
        }
        true
    }
}

proof fn lemma_all_bits(k: int)
    requires
        0 <= k < 6,
    ensures
        in_mask(63, k),
{
    let b = bit_of(k);
    assert(b == 1 || b == 2 || b == 4 || b == 8 || b == 16 || b == 32);
    assert((b == 1 || b == 2 || b == 4 || b == 8 || b == 16 || b == 32) ==> 63u8 & b != 0)
        by (bit_vector);
}

proof fn lemma_demand_le_all(p: Seq<int>, n: int)
    requires
        0 <= n <= 6,
        p.len() == 6,
        forall|k: int| 0 <= k < 6 ==> #[trigger] p[k] >= 0,
    ensures
        forall|m: u8| #[trigger] demand_in(p, m, n) <= demand_in(p, 63, n),
        demand_in(p, 63, n) >= 0,
    decreases n,
{
    if n > 0 {
        lemma_demand_le_all(p, n - 1);
        lemma_all_bits(n - 1);
        assert(p[n - 1] >= 0);
        assert forall|m: u8| #[trigger] demand_in(p, m, n) <= demand_in(p, 63, n) by {
            assert(demand_in(p, m, n - 1) <= demand_in(p, 63, n - 1));
        }
    }
}

proof fn lemma_demand_prefix(p: Seq<int>, i: int, n: int)
    requires
        0 <= i <= n <= 6,
        p.len() == 6,
        forall|k: int| 0 <= k < 6 ==> #[trigger] p[k] >= 0,
    ensures
        demand_in(p, 63, i) <= demand_in(p, 63, n),
    decreases n - i,
{
    if i < n {
        lemma_demand_prefix(p, i, n - 1);
        lemma_all_bits(n - 1);
        assert(p[n - 1] >= 0);
    }
}

} // verus!

verus! {

impl Cost {
    /// Whether `cons` accepts source group `i`.
    fn eligible_at(sources: &[Source], counts: &[u32], cons: Constraint, i: usize) -> (r: bool)
        requires
            sources@.len() == counts@.len(),
            i < sources@.len(),
        ensures
            r == eligible(cons, sources@, ints(counts@), i as int),
    {
        match cons {
            Constraint::Anything => true,
            Constraint::Includes(group) => i == group && counts[i] > 0,
            Constraint::IncludesUntapped => counts[i] > 0 && !sources[i].tapped,
        }
    }

    /// Whether a payment exists that uses at least one source `cons` accepts.
    ///
    /// Where the cost has generic to pay, this is the matching plus the
    /// existence of such a source: generic takes any land, so a payment that
    /// did not use it can swap one of its generic payers for it. Where the cost
    /// is all pips, the obliged source has to pay one of them, so each way it
    /// could is tried.
    fn forced(&self, sources: &[Source], counts: &[u32], cons: Constraint) -> (r: bool)
        requires
            !(cons is Anything),
            sources@.len() == counts@.len(),
            total_in(ints(counts@), counts@.len() as int) <= u32::MAX,
        ensures
            r == forced_spec(
                sources@,
                ints(counts@),
                self.pips_of(),
                self.generic_of(),
                self.total_of(),
                cons,
            ),
    {
        proof {
            use_type_invariant(self);
            lemma_ints_nonneg(counts@);
        }
        let n = sources.len();
        let ghost c = ints(counts@);
        let ghost p = self.pips_of();
        if self.generic > 0 {
            let mut i: usize = 0;
            while i < n
                invariant
                    n == sources@.len(),
                    n == counts@.len(),
                    c == ints(counts@),
                    self.generic_of() > 0,
                    total_in(c, n as int) <= u32::MAX,
                    i <= n,
                    forall|j: int| 0 <= j < i ==> !#[trigger] eligible(cons, sources@, c, j),
                decreases n - i,
            {
                if Self::eligible_at(sources, counts, cons, i) {
                    assert(eligible(cons, sources@, c, i as int));
                    return self.covers(sources, counts, None);
                }
                i += 1;
            }
            return false;
        }
        let mut i: usize = 0;
        while i < n
            invariant
                n == sources@.len(),
                n == counts@.len(),
                c == ints(counts@),
                p == self.pips_of(),
                p == ints(self.pips@),
                self.generic_of() == 0,
                !(cons is Anything),
                self.demanded@ == demanded_upto(p, 6),
                total_in(c, n as int) <= u32::MAX,
                i <= n,
                forall|a: int, k: int|
                    0 <= a < i && 0 <= k < 6 && #[trigger] eligible(cons, sources@, c, a) && p[k]
                        > 0 && sources@[a].produces.has(k) ==> !#[trigger] hall_spent(
                        sources@,
                        c,
                        p,
                        self.total_of(),
                        a,
                        k,
                    ),
            decreases n - i,
        {
            if Self::eligible_at(sources, counts, cons, i) {
                let mut j: usize = 0;
                while j < self.demanded.len()
                    invariant
                        n == sources@.len(),
                        n == counts@.len(),
                        c == ints(counts@),
                        p == ints(self.pips@),
                        p == self.pips_of(),
                        i < n,
                        self.generic_of() == 0,
                        !(cons is Anything),
                        eligible(cons, sources@, c, i as int),
                        self.demanded@ == demanded_upto(p, 6),
                        total_in(c, n as int) <= u32::MAX,
                        j <= self.demanded@.len(),
                        forall|jj: int|
                            0 <= jj < j ==> !(sources@[i as int].produces.has(
                                (#[trigger] self.demanded@[jj]).index(),
                            ) && hall_spent(
                                sources@,
                                c,
                                p,
                                self.total_of(),
                                i as int,
                                self.demanded@[jj].index(),
                            )),
                    decreases self.demanded@.len() - j,
                {
                    let pip = self.demanded[j];
                    proof {
                        lemma_ints_nonneg(self.pips@);
                        lemma_demanded_has(p, 6, pip.index());
                        lemma_pip_index(pip);
                        assert forall|jj: int| 0 <= jj < self.demanded@.len() implies 0 <= (
                        #[trigger] self.demanded@[jj]).index() < 6 by {
                            lemma_demanded_has(p, 6, 0);
                        }
                        assert(self.demanded@.contains(pip_at(pip.index())));
                        assert(p[pip.index()] > 0);
                        assert(counts@[i as int] >= 1);
                    }
                    if sources[i].produces.makes(pip) && self.covers(
                        sources,
                        counts,
                        Some((i, pip)),
                    ) {
                        assert(eligible(cons, sources@, c, i as int) && hall_spent(
                            sources@,
                            c,
                            p,
                            self.total_of(),
                            i as int,
                            pip.index(),
                        ));
                        assert(p[pip.index()] > 0);
                        assert(0 <= pip.index() < 6);
                        assert(self.generic_of() == 0);
                        assert(sources@[i as int].produces.has(pip.index()));
                        assert(forced_spec(sources@, c, p, self.generic_of(), self.total_of(), cons));
                        return true;
                    }
                    j += 1;
                }
                proof {
                    assert forall|k: int|
                        0 <= k < 6 && p[k] > 0 && sources@[i as int].produces.has(
                            k,
                        ) implies !#[trigger] hall_spent(
                        sources@,
                        c,
                        p,
                        self.total_of(),
                        i as int,
                        k,
                    ) by {
                        lemma_demanded_has(p, 6, k);
                        let jj = choose|jj: int|
                            0 <= jj < self.demanded@.len() && self.demanded@[jj] == pip_at(k);
                        lemma_pip_at_index(k);
                        assert(self.demanded@[jj].index() == k);
                    }
                }
            }
            i += 1;
        }
        false
    }

    /// Whether `sources`, with `counts[i]` of group `i` available, can cover
    /// this cost, with `constraint` on which of them the payment has to use.
    ///
    /// Hall's condition, over the pip kinds this cost demands: a payment
    /// exists exactly when every set of demanded kinds has at least as many
    /// sources serving it as it has pips, and there are enough sources for
    /// the generic too.
    pub fn payable(&self, sources: &[Source], counts: &[u32], constraint: Constraint) -> (r: bool)
        requires
            sources@.len() == counts@.len(),
            total_in(ints(counts@), counts@.len() as int) <= u32::MAX,
        ensures
            r == match constraint {
                Constraint::Anything => hall(
                    sources@,
                    ints(counts@),
                    self.pips_of(),
                    self.total_of(),
                ),
                _ => forced_spec(
                    sources@,
                    ints(counts@),
                    self.pips_of(),
                    self.generic_of(),
                    self.total_of(),
                    constraint,
                ),
            },
    {
        match constraint {
            Constraint::Anything => self.covers(sources, counts, None),
            _ => self.forced(sources, counts, constraint),
        }
    }
}

} // verus!

verus! {

/// The position of the first `}` at or after `i`, or the end of the text.
pub open spec fn close_brace(cs: Seq<char>, i: int) -> int
    decreases cs.len() - i,
{
    if i >= cs.len() {
        cs.len() as int
    } else if i < 0 {
        close_brace(cs, 0)
    } else if cs[i] == '}' {
        i
    } else {
        close_brace(cs, i + 1)
    }
}

/// The end of the run of ASCII digits starting at `i`.
pub open spec fn digits_end(cs: Seq<char>, i: int) -> int
    decreases cs.len() - i,
{
    if i < 0 || i >= cs.len() || !is_digit(cs[i]) {
        i
    } else {
        digits_end(cs, i + 1)
    }
}

pub proof fn lemma_close_brace(cs: Seq<char>, i: int)
    requires
        0 <= i <= cs.len(),
    ensures
        i <= close_brace(cs, i) <= cs.len(),
        close_brace(cs, i) < cs.len() ==> cs[close_brace(cs, i)] == '}',
        forall|j: int| i <= j < close_brace(cs, i) ==> cs[j] != '}',
    decreases cs.len() - i,
{
    if i < cs.len() && cs[i] != '}' {
        lemma_close_brace(cs, i + 1);
    }
}

pub proof fn lemma_digits_end(cs: Seq<char>, i: int)
    requires
        0 <= i <= cs.len(),
    ensures
        i <= digits_end(cs, i) <= cs.len(),
        digits_end(cs, i) < cs.len() ==> !is_digit(cs[digits_end(cs, i)]),
        forall|j: int| i <= j < digits_end(cs, i) ==> is_digit(#[trigger] cs[j]),
    decreases cs.len() - i,
{
    if i < cs.len() && is_digit(cs[i]) {
        lemma_digits_end(cs, i + 1);
    }
}

/// The symbols of a mana cost as written from position `i`: a braced symbol
/// is what sits between the braces, a run of digits outside braces is one
/// generic symbol, whitespace separates, and any other character is a symbol
/// of its own.
pub open spec fn cost_symbols(cs: Seq<char>, i: int) -> Seq<Seq<char>>
    decreases cs.len() - i,
    via cost_symbols_decreases
{
    if i < 0 || i >= cs.len() {
        Seq::empty()
    } else if is_ws(cs[i]) {
        cost_symbols(cs, i + 1)
    } else if cs[i] == '{' {
        let e = close_brace(cs, i + 1);
        seq![cs.subrange(i + 1, e)] + if e < cs.len() {
            cost_symbols(cs, e + 1)
        } else {
            Seq::empty()
        }
    } else if is_digit(cs[i]) {
        let e = digits_end(cs, i);
        seq![cs.subrange(i, e)] + cost_symbols(cs, e)
    } else {
        seq![seq![cs[i]]] + cost_symbols(cs, i + 1)
    }
}

#[via_fn]
proof fn cost_symbols_decreases(cs: Seq<char>, i: int) {
    if 0 <= i < cs.len() {
        lemma_close_brace(cs, i + 1);
        lemma_digits_end(cs, i);
    }
}

/// What one symbol of a cost asks for.
pub enum Symbol {
    Generic(u32),
    Pip(Pip),
    Unpayable,
}

pub open spec fn symbol_of(s: Seq<char>) -> Symbol {
    match parse_u32_spec(s) {
        Some(n) => Symbol::Generic(n),
        None => if s.len() == 1 && pip_of_letter(s[0]) is Some {
            Symbol::Pip(pip_of_letter(s[0])->0)
        } else {
            Symbol::Unpayable
        },
    }
}

/// Generic (saturating, as a `u32`) and per-pip demand of a list of symbols,
/// or the first symbol that cannot be paid.
pub open spec fn tally(syms: Seq<Seq<char>>) -> Result<(int, Seq<int>), Seq<char>>
    decreases syms.len(),
{
    if syms.len() == 0 {
        Ok((0, seq![0int, 0, 0, 0, 0, 0]))
    } else {
        match tally(syms.drop_last()) {
            Err(bad) => Err(bad),
            Ok((g, ps)) => match symbol_of(syms.last()) {
                Symbol::Generic(n) => Ok(
                    (if g + n > u32::MAX {
                        u32::MAX as int
                    } else {
                        g + n
                    }, ps),
                ),
                Symbol::Pip(p) => Ok((g, ps.update(p.index(), ps[p.index()] + 1))),
                Symbol::Unpayable => Err(syms.last()),
            },
        }
    }
}

/// What reading `text` as a cost yields: the generic and per-pip demand, or
/// why it is refused. The `u32` in `TooLarge` is the total, saturated.
pub open spec fn parse_cost_spec(text: Seq<char>) -> Result<(int, Seq<int>), (Seq<char>, int)> {
    let syms = cost_symbols(text, 0);
    match tally(syms) {
        Err(bad) => Err((bad, -1)),
        Ok((g, ps)) => if syms.len() == 0 {
            Err((Seq::empty(), -2))
        } else if g + demand_in(ps, 63, 6) > MAX_COST {
            Err((
                Seq::empty(),
                if g + demand_in(ps, 63, 6) > u32::MAX {
                    u32::MAX as int
                } else {
                    g + demand_in(ps, 63, 6)
                },
            ))
        } else {
            Ok((g, ps))
        },
    }
}

proof fn lemma_tally_push(a: Seq<Seq<char>>, x: Seq<char>)
    ensures
        tally(a.push(x)) == match tally(a) {
            Err(bad) => Err(bad),
            Ok((g, ps)) => match symbol_of(x) {
                Symbol::Generic(n) => Ok(
                    (if g + n > u32::MAX {
                        u32::MAX as int
                    } else {
                        g + n
                    }, ps),
                ),
                Symbol::Pip(p) => Ok((g, ps.update(p.index(), ps[p.index()] + 1))),
                Symbol::Unpayable => Err(x),
            },
        },
{
    assert(a.push(x).drop_last() =~= a);
}

proof fn lemma_tally_err_sticks(a: Seq<Seq<char>>, b: Seq<Seq<char>>)
    requires
        tally(a) is Err,
    ensures
        tally(a + b) == tally(a),
    decreases b.len(),
{
    if b.len() > 0 {
        lemma_tally_err_sticks(a, b.drop_last());
        assert((a + b).drop_last() =~= a + b.drop_last());
    } else {
        assert(a + b =~= a);
    }
}

proof fn lemma_tally_shape(a: Seq<Seq<char>>)
    ensures
        tally(a) matches Ok((g, ps)) ==> ps.len() == 6 && 0 <= g <= u32::MAX && (forall|k: int|
            0 <= k < 6 ==> 0 <= #[trigger] ps[k] <= a.len()),
    decreases a.len(),
{
    if a.len() > 0 {
        lemma_tally_shape(a.drop_last());
        if let Ok((g, ps)) = tally(a.drop_last()) {
            if let Symbol::Pip(p) = symbol_of(a.last()) {
                lemma_pip_index(p);
            }
        }
    }
}

/// A symbol, classified.
fn classify(symbol: &[char]) -> (r: Symbol)
    ensures
        r == symbol_of(symbol@),
{
    match parse_u32(symbol) {
        Some(n) => Symbol::Generic(n),
        None => {
            if symbol.len() == 1 {
                match Pip::from_letter(symbol[0]) {
                    Some(p) => Symbol::Pip(p),
                    None => Symbol::Unpayable,
                }
            } else {
                Symbol::Unpayable
            }
        },
    }
}

/// The characters `v[from..to]`.
pub fn slice_chars(v: &[char], from: usize, to: usize) -> (r: Vec<char>)
    requires
        from <= to <= v@.len(),
    ensures
        r@ == v@.subrange(from as int, to as int),
{
    let mut out: Vec<char> = Vec::new();
    let mut i = from;
    while i < to
        invariant
            from <= i <= to <= v@.len(),
            out@ =~= v@.subrange(from as int, i as int),
        decreases to - i,
    {
        out.push(v[i]);
        i += 1;
    }
    out
}

/// The first position at or after `from` holding `c`, or the length.
pub fn find_char(v: &[char], c: char, from: usize) -> (r: usize)
    requires
        from <= v@.len(),
    ensures
        from <= r <= v@.len(),
        r < v@.len() ==> v@[r as int] == c,
        forall|j: int| from <= j < r ==> v@[j] != c,
{
    let mut i = from;
    while i < v.len()
        invariant
            from <= i <= v@.len(),
            forall|j: int| from <= j < i ==> v@[j] != c,
        decreases v@.len() - i,
    {
        if v[i] == c {
            return i;
        }
        i += 1;
    }
    i
}

proof fn lemma_close_brace_is(cs: Seq<char>, i: int, e: int)
    requires
        0 <= i <= e <= cs.len(),
        e < cs.len() ==> cs[e] == '}',
        forall|j: int| i <= j < e ==> cs[j] != '}',
    ensures
        close_brace(cs, i) == e,
    decreases e - i,
{
    if i < e {
        lemma_close_brace_is(cs, i + 1, e);
    }
}

proof fn lemma_digits_end_is(cs: Seq<char>, i: int, e: int)
    requires
        0 <= i <= e <= cs.len(),
        e < cs.len() ==> !is_digit(cs[e]),
        forall|j: int| i <= j < e ==> is_digit(cs[j]),
    ensures
        digits_end(cs, i) == e,
    decreases e - i,
{
    if i < e {
        lemma_digits_end_is(cs, i + 1, e);
    }
}

impl Cost {
    /// Read a cost as a card prints it, `{1}{W}{U}`, or as the unbraced
    /// shorthand a Scryfall query writes, `1WU`.
    pub fn parse(text: &str) -> (r: Result<Cost, CostError>)
        requires
            text@.len() < u32::MAX,
        ensures
            match (r, parse_cost_spec(text@)) {
                (Ok(cost), Ok((g, ps))) => cost.generic_of() == g && cost.pips_of() == ps
                    && cost.text_of() == text@ && cost.total_of() == g + demand_in(ps, 63, 6),
                (Err(CostError::Unpayable { text: t, symbol }), Err((bad, kind))) => kind == -1
                    && symbol@ == bad && t@ == text@,
                (Err(CostError::Empty { text: t }), Err((_, kind))) => kind == -2 && t@ == text@,
                (Err(CostError::TooLarge { text: t, total }), Err((_, kind))) => kind == total
                    && t@ == text@,
                _ => false,
            },
    {
        let cs = chars_of(text);
        let n = cs.len();
        let mut generic: u32 = 0;
        let mut pips: [u32; 6] = [0, 0, 0, 0, 0, 0];
        let mut saw_symbol = false;
        let mut i: usize = 0;
        let ghost mut done: Seq<Seq<char>> = Seq::empty();
        assert(ints(pips@) =~= seq![0int, 0, 0, 0, 0, 0]);
        while i < n
            invariant
                n == cs@.len(),
                cs@ == text@,
                n < u32::MAX,
                i <= n + 1,
                cost_symbols(cs@, 0) =~= done + cost_symbols(cs@, i as int),
                tally(done) == Ok::<(int, Seq<int>), Seq<char>>((generic as int, ints(pips@))),
                saw_symbol == (done.len() > 0),
                forall|k: int| 0 <= k < 6 ==> #[trigger] pips@[k] <= i,
            decreases n + 1 - i,
        {
            let c = cs[i];
            let ghost before = done;
            if is_whitespace(c) {
                i += 1;
            } else {
                let mut next: usize = i + 1;
                let symbol: Vec<char>;
                if c == '{' {
                    let end = find_char(cs.as_slice(), '}', i + 1);
                    proof {
                        lemma_close_brace_is(cs@, i + 1, end as int);
                    }
                    symbol = slice_chars(cs.as_slice(), i + 1, end);
                    next = end + 1;
                } else if is_ascii_digit(c) {
                    let mut end = i;
                    while end < n && is_ascii_digit(cs[end])
                        invariant
                            i <= end <= n,
                            n == cs@.len(),
                            forall|j: int| i <= j < end ==> is_digit(cs@[j]),
                        decreases n - end,
                    {
                        end += 1;
                    }
                    proof {
                        lemma_digits_end_is(cs@, i as int, end as int);
                    }
                    symbol = slice_chars(cs.as_slice(), i, end);
                    next = end;
                } else {
                    symbol = slice_chars(cs.as_slice(), i, i + 1);
                    assert(symbol@ =~= seq![c]);
                }
                proof {
                    done = done.push(symbol@);
                    lemma_tally_push(before, symbol@);
                    assert(cost_symbols(cs@, i as int) =~= seq![symbol@] + cost_symbols(
                        cs@,
                        next as int,
                    ));
                }
                match classify(symbol.as_slice()) {
                    Symbol::Generic(amount) => {
                        generic = generic.saturating_add(amount);
                    },
                    Symbol::Pip(p) => {
                        let k = p.index_of();
                        let ghost old = pips@;
                        pips[k] = pips[k] + 1;
                        assert(ints(pips@) =~= ints(old).update(k as int, ints(old)[k as int] + 1));
                    },
                    Symbol::Unpayable => {
                        proof {
                            assert(cost_symbols(cs@, 0) =~= done + cost_symbols(cs@, next as int));
                            lemma_tally_err_sticks(done, cost_symbols(cs@, next as int));
                            assert(tally(cost_symbols(cs@, 0)) == Err::<(int, Seq<int>), Seq<char>>(
                                symbol@,
                            ));
                        }
                        return Err(
                            CostError::Unpayable {
                                text: text.to_owned(),
                                symbol: string_of(symbol.as_slice()),
                            },
                        );
                    },
                }
                saw_symbol = true;
                i = next;
            }
        }
        proof {
            assert(cost_symbols(cs@, i as int) =~= Seq::<Seq<char>>::empty());
            assert(cost_symbols(cs@, 0) =~= done);
        }
        if !saw_symbol {
            return Err(CostError::Empty { text: text.to_owned() });
        }
        let mut sum: u64 = 0;
        let mut k: usize = 0;
        while k < 6
            invariant
                k <= 6,
                sum == demand_in(ints(pips@), 63, k as int),
                forall|j: int| 0 <= j < 6 ==> #[trigger] pips@[j] <= u32::MAX,
                sum <= k * (u32::MAX as int),
            decreases 6 - k,
        {
            proof {
                lemma_all_bits(k as int);
            }
            sum = sum + pips[k] as u64;
            k += 1;
        }
        let total: u64 = generic as u64 + sum;
        if total > MAX_COST as u64 {
            let shown: u32 = if total > u32::MAX as u64 {
                u32::MAX
            } else {
                total as u32
            };
            return Err(CostError::TooLarge { text: text.to_owned(), total: shown });
        }
        let mut demanded: Vec<Pip> = Vec::new();
        let mut k: usize = 0;
        while k < 6
            invariant
                k <= 6,
                demanded@ == demanded_upto(ints(pips@), k as int),
            decreases 6 - k,
        {
            if pips[k] > 0 {
                demanded.push(Pip::at(k));
            }
            k += 1;
        }
        Ok(Cost { generic, pips, total: total as u32, demanded, text: text.to_owned() })
    }
}


/// A payment that must use a particular kind of source needs such a source
/// to be there: under `IncludesUntapped` some source with a land available
/// enters untapped, and under `Includes(g)` group `g` has a land available.
/// Where no source qualifies, the cost is not payable under that
/// constraint, whatever else the pool could pay.
pub proof fn a_required_source_must_exist(
    cost: Cost,
    srcs: Seq<Source>,
    counts: Seq<int>,
    cons: Constraint,
)
    ensures
        cons is IncludesUntapped && forced_spec(
            srcs,
            counts,
            cost.pips_of(),
            cost.generic_of(),
            cost.total_of(),
            cons,
        ) ==> exists|i: int| 0 <= i < srcs.len() && counts[i] > 0 && !(#[trigger] srcs[i]).tapped,
        forced_spec(srcs, counts, cost.pips_of(), cost.generic_of(), cost.total_of(), cons)
            ==> match cons {
            Constraint::Includes(g) => g < srcs.len() && counts[g as int] > 0,
            _ => true,
        },
        (forall|i: int| 0 <= i < srcs.len() ==> counts[i] <= 0 || (#[trigger] srcs[i]).tapped)
            ==> !forced_spec(
            srcs,
            counts,
            cost.pips_of(),
            cost.generic_of(),
            cost.total_of(),
            Constraint::IncludesUntapped,
        ),
{
    let pips = cost.pips_of();
    let generic = cost.generic_of();
    let total = cost.total_of();
    if forced_spec(srcs, counts, pips, generic, total, cons) {
        let i = if generic > 0 {
            choose|i: int| 0 <= i < srcs.len() && #[trigger] eligible(cons, srcs, counts, i)
        } else {
            let (i, k) = choose|i: int, k: int|
                0 <= i < srcs.len() && 0 <= k < 6 && #[trigger] eligible(cons, srcs, counts, i)
                    && pips[k] > 0 && srcs[i].produces.has(k) && #[trigger] hall_spent(
                    srcs,
                    counts,
                    pips,
                    total,
                    i,
                    k,
                );
            i
        };
        assert(0 <= i < srcs.len() && eligible(cons, srcs, counts, i));
        if cons is IncludesUntapped {
            assert(counts[i] > 0 && !srcs[i].tapped);
        }
    }
    if forced_spec(srcs, counts, pips, generic, total, Constraint::IncludesUntapped) {
        let i = if generic > 0 {
            choose|i: int|
                0 <= i < srcs.len() && #[trigger] eligible(
                    Constraint::IncludesUntapped,
                    srcs,
                    counts,
                    i,
                )
        } else {
            let (i, k) = choose|i: int, k: int|
                0 <= i < srcs.len() && 0 <= k < 6 && #[trigger] eligible(
                    Constraint::IncludesUntapped,
                    srcs,
                    counts,
                    i,
                ) && pips[k] > 0 && srcs[i].produces.has(k) && #[trigger] hall_spent(
                    srcs,
                    counts,
                    pips,
                    total,
                    i,
                    k,
                );
            i
        };
        assert(counts[i] > 0 && !srcs[i].tapped);
    }
}


proof fn lemma_supply_one_fewer(srcs: Seq<Source>, counts: Seq<int>, m: u8, n: int, i: int)
    requires
        0 <= i < n <= counts.len(),
    ensures
        supply_in(srcs, counts.update(i, counts[i] - 1), m, n) == supply_in(srcs, counts, m, n)
            - if serves_mask(srcs[i], m) {
            1int
        } else {
            0int
        },
        total_in(counts.update(i, counts[i] - 1), n) == total_in(counts, n) - 1,
    decreases n,
{
    let c2 = counts.update(i, counts[i] - 1);
    if i < n - 1 {
        lemma_supply_one_fewer(srcs, counts, m, n - 1, i);
    } else {
        lemma_supply_same(srcs, counts, c2, m, n - 1);
    }
}

proof fn lemma_supply_same(srcs: Seq<Source>, a: Seq<int>, b: Seq<int>, m: u8, n: int)
    requires
        0 <= n <= a.len(),
        n <= b.len(),
        forall|x: int| 0 <= x < n ==> a[x] == b[x],
    ensures
        supply_in(srcs, a, m, n) == supply_in(srcs, b, m, n),
        total_in(a, n) == total_in(b, n),
    decreases n,
{
    if n > 0 {
        lemma_supply_same(srcs, a, b, m, n - 1);
    }
}

proof fn lemma_demand_one_fewer(pips: Seq<int>, m: u8, n: int, k: int)
    requires
        0 <= k < n <= pips.len(),
    ensures
        demand_in(pips.update(k, pips[k] - 1), m, n) == demand_in(pips, m, n) - if in_mask(m, k) {
            1int
        } else {
            0int
        },
    decreases n,
{
    let p2 = pips.update(k, pips[k] - 1);
    if k < n - 1 {
        lemma_demand_one_fewer(pips, m, n - 1, k);
    } else {
        lemma_demand_same(pips, p2, m, n - 1);
    }
}

proof fn lemma_demand_same(a: Seq<int>, b: Seq<int>, m: u8, n: int)
    requires
        0 <= n <= a.len(),
        n <= b.len(),
        forall|x: int| 0 <= x < n ==> a[x] == b[x],
    ensures
        demand_in(a, m, n) == demand_in(b, m, n),
    decreases n,
{
    if n > 0 {
        lemma_demand_same(a, b, m, n - 1);
    }
}

/// Generic mana takes any source at all: a cost with some generic part
/// that can be paid at all, from a pool holding a source the constraint
/// accepts, can be paid with that source among those used.
pub proof fn generic_absorbs_the_required_source(
    cost: Cost,
    srcs: Seq<Source>,
    counts: Seq<int>,
    cons: Constraint,
    i: int,
)
    requires
        0 <= i < srcs.len(),
        cost.generic_of() > 0,
        hall(srcs, counts, cost.pips_of(), cost.total_of()),
        match cons {
            Constraint::Anything => true,
            Constraint::Includes(g) => i == g && counts[i] > 0,
            Constraint::IncludesUntapped => counts[i] > 0 && !srcs[i].tapped,
        },
    ensures
        forced_spec(srcs, counts, cost.pips_of(), cost.generic_of(), cost.total_of(), cons),
{
    assert(eligible(cons, srcs, counts, i));
}

/// A payment that has to use a particular source is still a payment: a
/// cost payable under any constraint is payable with no constraint at all,
/// so a constraint only ever takes payments away.
pub proof fn a_constraint_only_narrows(cost: Cost, srcs: Seq<Source>, counts: Seq<int>, cons: Constraint)
    requires
        srcs.len() == counts.len(),
    ensures
        forced_spec(srcs, counts, cost.pips_of(), cost.generic_of(), cost.total_of(), cons) ==> hall(
            srcs,
            counts,
            cost.pips_of(),
            cost.total_of(),
        ),
{
    let pips = cost.pips_of();
    let total = cost.total_of();
    assert(pips.len() == 6);
    if forced_spec(srcs, counts, pips, cost.generic_of(), total, cons) && cost.generic_of() <= 0 {
        let (i, k) = choose|i: int, k: int|
            0 <= i < srcs.len() && 0 <= k < 6 && #[trigger] eligible(cons, srcs, counts, i)
                && pips[k] > 0 && srcs[i].produces.has(k) && #[trigger] hall_spent(
                srcs,
                counts,
                pips,
                total,
                i,
                k,
            );
        let c2 = counts.update(i, counts[i] - 1);
        let p2 = pips.update(k, pips[k] - 1);
        lemma_supply_one_fewer(srcs, counts, 0u8, srcs.len() as int, i);
        assert forall|m: u8| 1 <= m < 64 implies #[trigger] supply_in(srcs, counts, m, srcs.len() as int)
            >= demand_in(pips, m, 6) by {
            assert(supply_in(srcs, c2, m, srcs.len() as int) >= demand_in(p2, m, 6));
            lemma_supply_one_fewer(srcs, counts, m, srcs.len() as int, i);
            lemma_demand_one_fewer(pips, m, 6, k);
            let pr = srcs[i].produces.0;
            let bk = bit_of(k);
            assert(bk == 1 || bk == 2 || bk == 4 || bk == 8 || bk == 16 || bk == 32);
            assert(pr & bk != 0 && m & bk != 0 && (bk == 1 || bk == 2 || bk == 4 || bk == 8 || bk == 16
                || bk == 32) ==> pr & m != 0) by (bit_vector);
        }
    }
}

} // verus!

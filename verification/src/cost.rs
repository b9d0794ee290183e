//! Printed mana costs, as the multisets of symbols they are.
//!
//! `{2}{W}{W}` is two generic and two white, and every question worth asking
//! about it (does this cost contain a green symbol, how much devotion does it
//! give) is a question about that multiset. Hybrid symbols are put in WUBRG
//! order so that `{U/W}` and `{W/U}` are one symbol.

use vstd::prelude::*;
use crate::colors::Colors;
use vstd::std_specs::cmp::PartialEqSpecImpl;
use vstd::std_specs::cmp::PartialEqSpec;
use crate::text::{ascii_upper, is_alpha, is_digit, parse_u32, parse_u32_spec, upper_char};

verus! {

/// Where the reader of a cost stands: between symbols, inside braces, or in
/// a run of digits written without braces.
#[derive(Clone, Copy, PartialEq, Eq, Structural)]
pub enum CostMode {
    Between,
    Brace,
    Digits,
}

/// Whether `c` is one of the five colour letters, in upper case.
pub open spec fn is_wubrg(c: char) -> bool {
    c == 'W' || c == 'U' || c == 'B' || c == 'R' || c == 'G'
}

/// The place of a colour letter in WUBRG order.
pub open spec fn rank(c: char) -> int {
    if c == 'W' {
        0
    } else if c == 'U' {
        1
    } else if c == 'B' {
        2
    } else if c == 'R' {
        3
    } else {
        4
    }
}

/// A symbol's canonical spelling: upper case, and a two-colour hybrid with
/// its halves in WUBRG order. Other split symbols (`{W/P}`, `{2/G}`) keep
/// their order.
pub open spec fn normalized(sym: Seq<char>) -> Seq<char> {
    let up = sym.map_values(|c: char| ascii_upper(c));
    if up.len() == 3 && up[1] == '/' && is_wubrg(up[0]) && is_wubrg(up[2]) && rank(up[0]) > rank(
        up[2],
    ) {
        seq![up[2], '/', up[0]]
    } else {
        up
    }
}

/// What reading one symbol's text does to the running generic total and
/// list of symbols: nothing if empty, a number adds to the generic, anything
/// else is a symbol.
pub open spec fn add_symbol(body: Seq<char>, g: int, syms: Seq<Seq<char>>) -> (int, Seq<Seq<char>>) {
    if body.len() == 0 {
        (g, syms)
    } else {
        match parse_u32_spec(body) {
            Some(n) => (g + n, syms),
            None => (g, syms.push(normalized(body))),
        }
    }
}

/// The value of a run of unbraced digits, or 0 where it does not fit.
pub open spec fn digits_worth(buf: Seq<char>) -> int {
    match parse_u32_spec(buf) {
        Some(n) => n as int,
        None => 0,
    }
}

/// The generic total and the symbols, in order, of `s` from `i` on.
///
/// Inside braces is one symbol, up to the next `}` or the end. Outside
/// braces a run of digits is generic and a letter is a symbol of its own;
/// anything else (whitespace, the `//` between the halves of a split card)
/// is skipped.
pub open spec fn cost_from(
    s: Seq<char>,
    i: int,
    mode: CostMode,
    buf: Seq<char>,
    g: int,
    syms: Seq<Seq<char>>,
) -> (int, Seq<Seq<char>>)
    decreases s.len() - i, 1int,
{
    if i >= s.len() {
        match mode {
            CostMode::Between => (g, syms),
            CostMode::Brace => add_symbol(buf, g, syms),
            CostMode::Digits => (g + digits_worth(buf), syms),
        }
    } else {
        let c = s[i];
        match mode {
            CostMode::Brace => if c == '}' {
                let (g2, s2) = add_symbol(buf, g, syms);
                cost_from(s, i + 1, CostMode::Between, Seq::empty(), g2, s2)
            } else {
                cost_from(s, i + 1, CostMode::Brace, buf.push(c), g, syms)
            },
            CostMode::Digits => if is_digit(c) {
                cost_from(s, i + 1, CostMode::Digits, buf.push(c), g, syms)
            } else {
                between_step(s, i, g + digits_worth(buf), syms)
            },
            CostMode::Between => between_step(s, i, g, syms),
        }
    }
}

/// One character read between symbols.
pub open spec fn between_step(s: Seq<char>, i: int, g: int, syms: Seq<Seq<char>>) -> (
    int,
    Seq<Seq<char>>,
)
    recommends
        0 <= i < s.len(),
    decreases s.len() - i, 0int,
{
    if i < 0 || i >= s.len() {
        (g, syms)
    } else {
        let c = s[i];
        if c == '{' {
            cost_from(s, i + 1, CostMode::Brace, Seq::empty(), g, syms)
        } else if is_digit(c) {
            cost_from(s, i + 1, CostMode::Digits, seq![c], g, syms)
        } else if is_alpha(c) {
            let (g2, s2) = add_symbol(seq![c], g, syms);
            cost_from(s, i + 1, CostMode::Between, Seq::empty(), g2, s2)
        } else {
            cost_from(s, i + 1, CostMode::Between, Seq::empty(), g, syms)
        }
    }
}

/// The generic total and the symbols, in order, of a whole cost.
pub open spec fn cost_of(s: Seq<char>) -> (int, Seq<Seq<char>>) {
    cost_from(s, 0, CostMode::Between, Seq::empty(), 0, Seq::empty())
}


/// How many times `x` occurs in `syms`.
pub open spec fn occurrences_of(syms: Seq<Seq<char>>, x: Seq<char>) -> int
    decreases syms.len(),
{
    if syms.len() == 0 {
        0
    } else {
        occurrences_of(syms.drop_last(), x) + if syms.last() == x {
            1int
        } else {
            0int
        }
    }
}

/// The count `entries` holds for symbol `x` among its first `n` entries.
pub open spec fn count_in(entries: Seq<(Seq<char>, u32)>, x: Seq<char>, n: int) -> int
    decreases n,
{
    if n <= 0 {
        0
    } else {
        count_in(entries, x, n - 1) + if entries[n - 1].0 == x {
            entries[n - 1].1 as int
        } else {
            0int
        }
    }
}

/// The sum of the first `n` counts.
pub open spec fn total_of(entries: Seq<(Seq<char>, u32)>, n: int) -> int
    decreases n,
{
    if n <= 0 {
        0
    } else {
        total_of(entries, n - 1) + entries[n - 1].1
    }
}

/// No symbol has two entries, and every entry counts at least once.
pub open spec fn entries_ok(entries: Seq<(Seq<char>, u32)>) -> bool {
    &&& forall|a: int, b: int| 0 <= a < b < entries.len() ==> entries[a].0 != entries[b].0
    &&& forall|a: int| 0 <= a < entries.len() ==> #[trigger] entries[a].1 >= 1
}

/// A mana cost as a multiset of symbols: the generic amount, and each other
/// symbol, in canonical spelling, with how often it appears.
#[derive(Debug)]
pub struct ManaCost {
    generic: u32,
    symbols: Vec<(Vec<char>, u32)>,
}

pub open spec fn entry_views(v: Seq<(Vec<char>, u32)>) -> Seq<(Seq<char>, u32)> {
    v.map_values(|e: (Vec<char>, u32)| (e.0@, e.1))
}

impl ManaCost {
    pub closed spec fn generic_of(self) -> int {
        self.generic as int
    }

    /// Each symbol but the generic, with its count, each once.
    pub closed spec fn entries(self) -> Seq<(Seq<char>, u32)> {
        entry_views(self.symbols@)
    }

    /// How often symbol `x` appears.
    pub open spec fn count(self, x: Seq<char>) -> int {
        count_in(self.entries(), x, self.entries().len() as int)
    }

    #[verifier::type_invariant]
    spec fn inv(self) -> bool {
        &&& entries_ok(self.entries())
        &&& total_of(self.entries(), self.entries().len() as int) <= u32::MAX
    }
}

impl Default for ManaCost {
    /// The empty cost: no generic mana and no symbol.
    fn default() -> (r: ManaCost)
        ensures
            r.generic_of() == 0,
            r.entries() == Seq::<(Seq<char>, u32)>::empty(),
    {
        let r = ManaCost { generic: 0, symbols: Vec::new() };
        proof {
            assert(r.entries() =~= Seq::<(Seq<char>, u32)>::empty());
        }
        r
    }
}

impl PartialEq for ManaCost {
    /// Two costs are equal when they hold the same generic amount and every
    /// symbol equally often, whatever order their symbols were read in.
    fn eq(&self, other: &ManaCost) -> (r: bool) {
        self.is_subset_of(other) && other.is_subset_of(self)
    }
}

impl PartialEqSpecImpl for ManaCost {
    open spec fn obeys_eq_spec() -> bool {
        true
    }

    open spec fn eq_spec(&self, other: &ManaCost) -> bool {
        includes(*other, *self) && includes(*self, *other)
    }
}

proof fn lemma_occurrences_push(syms: Seq<Seq<char>>, x: Seq<char>, y: Seq<char>)
    ensures
        occurrences_of(syms.push(x), y) == occurrences_of(syms, y) + if x == y {
            1int
        } else {
            0int
        },
{
    assert(syms.push(x).drop_last() =~= syms);
}

proof fn lemma_count_absent(entries: Seq<(Seq<char>, u32)>, x: Seq<char>, n: int)
    requires
        0 <= n <= entries.len(),
        forall|k: int| 0 <= k < n ==> entries[k].0 != x,
    ensures
        count_in(entries, x, n) == 0,
    decreases n,
{
    if n > 0 {
        lemma_count_absent(entries, x, n - 1);
    }
}

proof fn lemma_count_same(a: Seq<(Seq<char>, u32)>, b: Seq<(Seq<char>, u32)>, x: Seq<char>, n: int)
    requires
        0 <= n <= a.len(),
        n <= b.len(),
        forall|k: int| 0 <= k < n ==> a[k] == b[k],
    ensures
        count_in(a, x, n) == count_in(b, x, n),
        total_of(a, n) == total_of(b, n),
    decreases n,
{
    if n > 0 {
        lemma_count_same(a, b, x, n - 1);
    }
}

/// Raising entry `at` by one raises its symbol's count and the total by one
/// and leaves every other symbol's count alone.
proof fn lemma_count_bump(e: Seq<(Seq<char>, u32)>, at: int, x: Seq<char>, n: int)
    requires
        0 <= at < n <= e.len(),
        e[at].1 < u32::MAX,
    ensures
        count_in(e.update(at, (e[at].0, (e[at].1 + 1) as u32)), x, n) == count_in(e, x, n) + if e[at].0
            == x {
            1int
        } else {
            0int
        },
        total_of(e.update(at, (e[at].0, (e[at].1 + 1) as u32)), n) == total_of(e, n) + 1,
    decreases n,
{
    let u = e.update(at, (e[at].0, (e[at].1 + 1) as u32));
    if at < n - 1 {
        lemma_count_bump(e, at, x, n - 1);
    } else {
        lemma_count_same(e, u, x, n - 1);
    }
}

proof fn lemma_count_push(e: Seq<(Seq<char>, u32)>, y: Seq<char>, x: Seq<char>)
    ensures
        count_in(e.push((y, 1u32)), x, e.len() + 1int) == count_in(e, x, e.len() as int) + if y == x {
            1int
        } else {
            0int
        },
        total_of(e.push((y, 1u32)), e.len() + 1int) == total_of(e, e.len() as int) + 1,
{
    lemma_count_same(e, e.push((y, 1u32)), x, e.len() as int);
}

proof fn lemma_count_only(e: Seq<(Seq<char>, u32)>, at: int, n: int)
    requires
        0 <= at < n <= e.len(),
        forall|a: int, b: int| 0 <= a < b < e.len() ==> e[a].0 != e[b].0,
    ensures
        count_in(e, e[at].0, n) == e[at].1,
    decreases n,
{
    if at < n - 1 {
        lemma_count_only(e, at, n - 1);
    } else {
        lemma_count_absent(e, e[at].0, n - 1);
    }
}

fn chars_equal(a: &Vec<char>, b: &Vec<char>) -> (r: bool)
    ensures
        r == (a@ == b@),
{
    crate::text::seq_eq(a.as_slice(), b.as_slice())
}

/// Counts one more `sym`.
fn insert(symbols: &mut Vec<(Vec<char>, u32)>, sym: Vec<char>)
    requires
        entries_ok(entry_views(old(symbols)@)),
        total_of(entry_views(old(symbols)@), old(symbols)@.len() as int) < u32::MAX,
    ensures
        entries_ok(entry_views(final(symbols)@)),
        total_of(entry_views(final(symbols)@), final(symbols)@.len() as int) == total_of(
            entry_views(old(symbols)@),
            old(symbols)@.len() as int,
        ) + 1,
        forall|x: Seq<char>|
            #[trigger] count_in(entry_views(final(symbols)@), x, final(symbols)@.len() as int)
                == count_in(entry_views(old(symbols)@), x, old(symbols)@.len() as int) + if sym@
                == x {
                1int
            } else {
                0int
            },
{
    let ghost e = entry_views(symbols@);
    let mut k: usize = 0;
    while k < symbols.len()
        invariant
            k <= symbols@.len(),
            e == entry_views(symbols@),
            e == entry_views(old(symbols)@),
            entries_ok(e),
            total_of(e, e.len() as int) < u32::MAX,
            forall|j: int| 0 <= j < k ==> e[j].0 != sym@,
        decreases symbols@.len() - k,
    {
        if chars_equal(&symbols[k].0, &sym) {
            proof {
                assert(e[k as int].0 == sym@);
                lemma_count_only(e, k as int, e.len() as int);
                lemma_elem_le_total(e, k as int, e.len() as int);
            }
            let n = symbols[k].1;
            symbols[k].1 = n + 1;
            proof {
                assert(entry_views(symbols@) =~= e.update(k as int, (e[k as int].0, (e[k as int].1 + 1) as u32)));
                assert forall|x: Seq<char>| #[trigger] count_in(entry_views(symbols@), x, symbols@.len() as int)
                    == count_in(e, x, e.len() as int) + if sym@ == x {
                    1int
                } else {
                    0int
                } by {
                    lemma_count_bump(e, k as int, x, e.len() as int);
                }
                lemma_count_bump(e, k as int, sym@, e.len() as int);
            }
            return;
        }
        k += 1;
    }
    let ghost y = sym@;
    symbols.push((sym, 1));
    proof {
        assert(entry_views(symbols@) =~= e.push((y, 1u32)));
        lemma_count_push(e, y, y);
        assert forall|x: Seq<char>| #[trigger] count_in(entry_views(symbols@), x, symbols@.len() as int)
            == count_in(e, x, e.len() as int) + if y == x {
            1int
        } else {
            0int
        } by {
            lemma_count_push(e, y, x);
        }
    }
}

proof fn lemma_elem_le_total(e: Seq<(Seq<char>, u32)>, at: int, n: int)
    requires
        0 <= at < n <= e.len(),
    ensures
        e[at].1 <= total_of(e, n),
        total_of(e, n) >= 0,
    decreases n,
{
    lemma_total_nonneg(e, n - 1);
    if at < n - 1 {
        lemma_elem_le_total(e, at, n - 1);
    }
}

proof fn lemma_total_nonneg(e: Seq<(Seq<char>, u32)>, n: int)
    ensures
        total_of(e, n) >= 0,
    decreases n,
{
    if n > 0 {
        lemma_total_nonneg(e, n - 1);
    }
}


/// The bit a colour letter stands for, in any case; 0 for anything else.
pub open spec fn wubrg_bit(c: char) -> u8 {
    let u = ascii_upper(c);
    if u == 'W' {
        1
    } else if u == 'U' {
        2
    } else if u == 'B' {
        4
    } else if u == 'R' {
        8
    } else if u == 'G' {
        16
    } else {
        0
    }
}

/// The colours a symbol's WUBRG letters name, as bits.
pub open spec fn symbol_mask(sym: Seq<char>) -> u8
    decreases sym.len(),
{
    if sym.len() == 0 {
        0
    } else {
        symbol_mask(sym.drop_last()) | wubrg_bit(sym.last())
    }
}

/// Whether a symbol names any colour: `{2/W}` and `{W/P}` are white, the
/// `2` and the `P` being how it is paid; `{C}`, `{X}` and `{S}` name none.
pub open spec fn names_colour(sym: Seq<char>) -> bool {
    exists|k: int| 0 <= k < sym.len() && is_wubrg(ascii_upper(#[trigger] sym[k]))
}

/// The colours a symbol names, or `None` when it names none.
pub open spec fn symbol_colors(sym: Seq<char>) -> Option<Colors> {
    if names_colour(sym) {
        Some(Colors(symbol_mask(sym)))
    } else {
        None
    }
}

/// Devotion among the first `n` entries: the count of every symbol naming
/// any of `colors`.
pub open spec fn devotion_in(e: Seq<(Seq<char>, u32)>, colors: Colors, n: int) -> int
    decreases n,
{
    if n <= 0 {
        0
    } else {
        devotion_in(e, colors, n - 1) + match symbol_colors(e[n - 1].0) {
            Some(c) => if c.0 & colors.0 != 0 {
                e[n - 1].1 as int
            } else {
                0int
            },
            None => 0int,
        }
    }
}

/// Every colour named among the first `n` entries, as bits.
pub open spec fn colours_in(e: Seq<(Seq<char>, u32)>, n: int) -> u8
    decreases n,
{
    if n <= 0 {
        0
    } else {
        colours_in(e, n - 1) | match symbol_colors(e[n - 1].0) {
            Some(c) => c.0,
            None => 0u8,
        }
    }
}

fn colour_of(sym: &Vec<char>) -> (r: Option<Colors>)
    ensures
        r == symbol_colors(sym@),
{
    let mut mask: u8 = 0;
    let mut named = false;
    let mut k: usize = 0;
    while k < sym.len()
        invariant
            k <= sym@.len(),
            mask == symbol_mask(sym@.subrange(0, k as int)),
            named == exists|j: int| 0 <= j < k && is_wubrg(ascii_upper(#[trigger] sym@[j])),
        decreases sym@.len() - k,
    {
        let u = upper_char(sym[k]);
        let bit: u8 = if u == 'W' {
            1
        } else if u == 'U' {
            2
        } else if u == 'B' {
            4
        } else if u == 'R' {
            8
        } else if u == 'G' {
            16
        } else {
            0
        };
        proof {
            assert(sym@.subrange(0, k + 1).drop_last() =~= sym@.subrange(0, k as int));
        }
        mask = mask | bit;
        if u == 'W' || u == 'U' || u == 'B' || u == 'R' || u == 'G' {
            named = true;
        }
        k += 1;
    }
    proof {
        assert(sym@.subrange(0, sym@.len() as int) =~= sym@);
    }
    if named {
        Some(Colors(mask))
    } else {
        None
    }
}

/// A symbol's canonical spelling, as [`normalized`] says.
fn normalize(body: &Vec<char>) -> (r: Vec<char>)
    ensures
        r@ == normalized(body@),
{
    let mut up: Vec<char> = Vec::new();
    let mut k: usize = 0;
    while k < body.len()
        invariant
            k <= body@.len(),
            up@ == body@.subrange(0, k as int).map_values(|c: char| ascii_upper(c)),
        decreases body@.len() - k,
    {
        up.push(upper_char(body[k]));
        k += 1;
        proof {
            assert(up@ =~= body@.subrange(0, k as int).map_values(|c: char| ascii_upper(c)));
        }
    }
    proof {
        assert(body@.subrange(0, body@.len() as int) =~= body@);
    }
    if up.len() == 3 && up[1] == '/' && is_letter(up[0]) && is_letter(up[2]) && rank_of(up[0])
        > rank_of(up[2]) {
        let mut r: Vec<char> = Vec::new();
        r.push(up[2]);
        r.push('/');
        r.push(up[0]);
        proof {
            assert(r@ =~= seq![up@[2], '/', up@[0]]);
        }
        r
    } else {
        up
    }
}

fn is_letter(c: char) -> (r: bool)
    ensures
        r == is_wubrg(c),
{
    c == 'W' || c == 'U' || c == 'B' || c == 'R' || c == 'G'
}

fn rank_of(c: char) -> (r: u8)
    ensures
        r == rank(c),
{
    if c == 'W' {
        0
    } else if c == 'U' {
        1
    } else if c == 'B' {
        2
    } else if c == 'R' {
        3
    } else {
        4
    }
}

proof fn lemma_cost_grows(
    s: Seq<char>,
    i: int,
    mode: CostMode,
    buf: Seq<char>,
    g: int,
    syms: Seq<Seq<char>>,
)
    ensures
        cost_from(s, i, mode, buf, g, syms).0 >= g,
    decreases s.len() - i, 1int,
{
    if i >= s.len() {
        lemma_add_grows(buf, g, syms);
    } else {
        let c = s[i];
        match mode {
            CostMode::Brace => if c == '}' {
                let (g2, s2) = add_symbol(buf, g, syms);
                lemma_add_grows(buf, g, syms);
                lemma_cost_grows(s, i + 1, CostMode::Between, Seq::empty(), g2, s2);
            } else {
                lemma_cost_grows(s, i + 1, CostMode::Brace, buf.push(c), g, syms);
            },
            CostMode::Digits => if is_digit(c) {
                lemma_cost_grows(s, i + 1, CostMode::Digits, buf.push(c), g, syms);
            } else {
                lemma_between_grows(s, i, g + digits_worth(buf), syms);
            },
            CostMode::Between => lemma_between_grows(s, i, g, syms),
        }
    }
}

proof fn lemma_between_grows(s: Seq<char>, i: int, g: int, syms: Seq<Seq<char>>)
    ensures
        between_step(s, i, g, syms).0 >= g,
    decreases s.len() - i, 0int,
{
    if 0 <= i < s.len() {
        let c = s[i];
        if c == '{' {
            lemma_cost_grows(s, i + 1, CostMode::Brace, Seq::empty(), g, syms);
        } else if is_digit(c) {
            lemma_cost_grows(s, i + 1, CostMode::Digits, seq![c], g, syms);
        } else if is_alpha(c) {
            let (g2, s2) = add_symbol(seq![c], g, syms);
            lemma_add_grows(seq![c], g, syms);
            lemma_cost_grows(s, i + 1, CostMode::Between, Seq::empty(), g2, s2);
        } else {
            lemma_cost_grows(s, i + 1, CostMode::Between, Seq::empty(), g, syms);
        }
    }
}

proof fn lemma_add_grows(body: Seq<char>, g: int, syms: Seq<Seq<char>>)
    ensures
        add_symbol(body, g, syms).0 >= g,
        add_symbol(body, g, syms).1.len() <= syms.len() + 1,
{
}

/// Reads one symbol's text into the running totals, as [`add_symbol`] says.
fn add_to(
    g: u32,
    symbols: &mut Vec<(Vec<char>, u32)>,
    body: &Vec<char>,
    Ghost(syms): Ghost<Seq<Seq<char>>>,
) -> (r: u32)
    requires
        add_symbol(body@, g as int, syms).0 <= u32::MAX,
        entries_ok(entry_views(old(symbols)@)),
        total_of(entry_views(old(symbols)@), old(symbols)@.len() as int) == syms.len(),
        syms.len() < u32::MAX,
        forall|x: Seq<char>|
            #[trigger] count_in(entry_views(old(symbols)@), x, old(symbols)@.len() as int)
                == occurrences_of(syms, x),
    ensures
        r == add_symbol(body@, g as int, syms).0,
        entries_ok(entry_views(final(symbols)@)),
        total_of(entry_views(final(symbols)@), final(symbols)@.len() as int)
            == add_symbol(body@, g as int, syms).1.len(),
        forall|x: Seq<char>|
            #[trigger] count_in(entry_views(final(symbols)@), x, final(symbols)@.len() as int)
                == occurrences_of(add_symbol(body@, g as int, syms).1, x),
{
    if body.len() == 0 {
        return g;
    }
    match parse_u32(body.as_slice()) {
        Some(n) => g + n,
        None => {
            let sym = normalize(body);
            let ghost y = sym@;
            insert(symbols, sym);
            proof {
                assert forall|x: Seq<char>| #[trigger] count_in(
                    entry_views(symbols@),
                    x,
                    symbols@.len() as int,
                ) == occurrences_of(syms.push(y), x) by {
                    lemma_occurrences_push(syms, y, x);
                }
            }
            g
        },
    }
}

impl ManaCost {
    /// Reads a cost, in the printed form or Scryfall's shorthand, as
    /// [`cost_of`] says: `{2}{W}{W}` and `2WW` are the same cost.
    ///
    /// The generic total must fit a `u32`, where adding it up would
    /// otherwise overflow.
    pub fn parse(text: &str) -> (r: ManaCost)
        requires
            cost_of(text@).0 <= u32::MAX,
            text@.len() < u32::MAX,
        ensures
            r.generic_of() == cost_of(text@).0,
            forall|x: Seq<char>| #[trigger] r.count(x) == occurrences_of(cost_of(text@).1, x),
    {
        let s = crate::text::chars_of(text);
        let mut mode = CostMode::Between;
        let mut buf: Vec<char> = Vec::new();
        let mut g: u32 = 0;
        let mut symbols: Vec<(Vec<char>, u32)> = Vec::new();
        let ghost mut syms: Seq<Seq<char>> = Seq::empty();
        let mut i: usize = 0;
        while i < s.len()
            invariant
                s@ == text@,
                i <= s@.len() < u32::MAX,
                cost_of(s@).0 <= u32::MAX,
                cost_from(s@, i as int, mode, buf@, g as int, syms) == cost_of(s@),
                entries_ok(entry_views(symbols@)),
                total_of(entry_views(symbols@), symbols@.len() as int) == syms.len(),
                syms.len() + (if mode == CostMode::Brace {
                    1int
                } else {
                    0int
                }) <= i,
                mode == CostMode::Digits ==> buf@.len() > 0,
                forall|x: Seq<char>|
                    #[trigger] count_in(entry_views(symbols@), x, symbols@.len() as int)
                        == occurrences_of(syms, x),
            decreases s@.len() - i,
        {
            let c = s[i];
            proof {
                lemma_cost_grows(s@, i as int, mode, buf@, g as int, syms);
            }
            if mode == CostMode::Brace {
                if c == '}' {
                    proof {
                        lemma_cost_grows(
                            s@,
                            i + 1,
                            CostMode::Between,
                            Seq::empty(),
                            add_symbol(buf@, g as int, syms).0,
                            add_symbol(buf@, g as int, syms).1,
                        );
                        lemma_add_grows(buf@, g as int, syms);
                    }
                    let ghost next = add_symbol(buf@, g as int, syms).1;
                    g = add_to(g, &mut symbols, &buf, Ghost(syms));
                    proof {
                        syms = next;
                    }
                    buf = Vec::new();
                    mode = CostMode::Between;
                } else {
                    buf.push(c);
                }
                i += 1;
                continue;
            }
            if mode == CostMode::Digits {
                if '0' <= c && c <= '9' {
                    buf.push(c);
                    i += 1;
                    continue;
                }
                proof {
                    lemma_between_grows(s@, i as int, g + digits_worth(buf@), syms);
                }
                let worth: u32 = match parse_u32(buf.as_slice()) {
                    Some(n) => n,
                    None => 0,
                };
                g = g + worth;
                buf = Vec::new();
                mode = CostMode::Between;
            }
            proof {
                lemma_between_grows(s@, i as int, g as int, syms);
            }
            if c == '{' {
                mode = CostMode::Brace;
                buf = Vec::new();
            } else if '0' <= c && c <= '9' {
                mode = CostMode::Digits;
                buf = Vec::new();
                buf.push(c);
                proof {
                    assert(buf@ =~= seq![c]);
                }
            } else if ('a' <= c && c <= 'z') || ('A' <= c && c <= 'Z') {
                let mut one: Vec<char> = Vec::new();
                one.push(c);
                proof {
                    assert(one@ =~= seq![c]);
                    lemma_cost_grows(
                        s@,
                        i + 1,
                        CostMode::Between,
                        Seq::empty(),
                        add_symbol(one@, g as int, syms).0,
                        add_symbol(one@, g as int, syms).1,
                    );
                    lemma_add_grows(one@, g as int, syms);
                }
                let ghost next = add_symbol(one@, g as int, syms).1;
                g = add_to(g, &mut symbols, &one, Ghost(syms));
                proof {
                    syms = next;
                }
                buf = Vec::new();
            } else {
                buf = Vec::new();
            }
            i += 1;
        }
        proof {
            lemma_cost_grows(s@, i as int, mode, buf@, g as int, syms);
        }
        if mode == CostMode::Brace {
            let ghost next = add_symbol(buf@, g as int, syms).1;
            proof {
                lemma_add_grows(buf@, g as int, syms);
            }
            g = add_to(g, &mut symbols, &buf, Ghost(syms));
            proof {
                syms = next;
            }
        } else if mode == CostMode::Digits {
            let worth: u32 = match parse_u32(buf.as_slice()) {
                Some(n) => n,
                None => 0,
            };
            g = g + worth;
        }
        ManaCost { generic: g, symbols }
    }
}


proof fn lemma_count_nonneg(e: Seq<(Seq<char>, u32)>, x: Seq<char>, n: int)
    ensures
        count_in(e, x, n) >= 0,
    decreases n,
{
    if n > 0 {
        lemma_count_nonneg(e, x, n - 1);
    }
}

proof fn lemma_devotion_bounded(e: Seq<(Seq<char>, u32)>, colors: Colors, n: int)
    ensures
        0 <= devotion_in(e, colors, n) <= total_of(e, n),
    decreases n,
{
    if n > 0 {
        lemma_devotion_bounded(e, colors, n - 1);
    }
}

/// Whether every symbol among the first `n` entries names colours, the
/// same ones as the first entry.
pub open spec fn agree_in(e: Seq<(Seq<char>, u32)>, n: int) -> bool {
    forall|k: int|
        0 <= k < n ==> symbol_colors(#[trigger] e[k].0) is Some && symbol_colors(e[k].0)
            == symbol_colors(e[0].0)
}

impl ManaCost {
    /// The generic amount, and each other symbol with its count.
    fn count_of_symbol(&self, key: &Vec<char>) -> (r: u32)
        ensures
            r == self.count(key@),
    {
        proof {
            use_type_invariant(self);
        }
        let ghost e = self.entries();
        let mut k: usize = 0;
        while k < self.symbols.len()
            invariant
                k <= self.symbols@.len(),
                e == self.entries(),
                entries_ok(e),
                forall|j: int| 0 <= j < k ==> e[j].0 != key@,
            decreases self.symbols@.len() - k,
        {
            if chars_equal(&self.symbols[k].0, key) {
                proof {
                    lemma_count_only(e, k as int, e.len() as int);
                }
                return self.symbols[k].1;
            }
            k += 1;
        }
        proof {
            lemma_count_absent(e, key@, e.len() as int);
        }
        0
    }

    /// Whether every symbol of this cost appears in `other` at least as
    /// often, generic included: Scryfall's rule that a cost is greater than
    /// another if it includes all the same symbols and more.
    pub fn is_subset_of(&self, other: &ManaCost) -> (r: bool)
        ensures
            r == (self.generic_of() <= other.generic_of() && forall|x: Seq<char>|
                #[trigger] self.count(x) <= other.count(x)),
    {
        proof {
            use_type_invariant(self);
        }
        let ghost e = self.entries();
        if self.generic > other.generic {
            return false;
        }
        let mut k: usize = 0;
        while k < self.symbols.len()
            invariant
                k <= self.symbols@.len(),
                e == self.entries(),
                entries_ok(e),
                forall|j: int| 0 <= j < k ==> e[j].1 <= other.count(#[trigger] e[j].0),
            decreases self.symbols@.len() - k,
        {
            let have = other.count_of_symbol(&self.symbols[k].0);
            if have < self.symbols[k].1 {
                proof {
                    lemma_count_only(e, k as int, e.len() as int);
                    assert(self.count(e[k as int].0) > other.count(e[k as int].0));
                }
                return false;
            }
            k += 1;
        }
        proof {
            assert forall|x: Seq<char>| #[trigger] self.count(x) <= other.count(x) by {
                lemma_count_nonneg(other.entries(), x, other.entries().len() as int);
                if exists|j: int| 0 <= j < e.len() && e[j].0 == x {
                    let j = choose|j: int| 0 <= j < e.len() && e[j].0 == x;
                    lemma_count_only(e, j, e.len() as int);
                    assert(e[j].1 <= other.count(e[j].0));
                } else {
                    lemma_count_absent(e, x, e.len() as int);
                }
            }
        }
        true
    }

    /// How much this cost gives towards devotion to `colors`: every symbol
    /// naming any of them counts once, so `{U/B}` is worth one to a
    /// blue-black devotion, and generic mana and `{X}` count nothing.
    pub fn devotion_to(&self, colors: Colors) -> (r: u32)
        ensures
            r == devotion_in(self.entries(), colors, self.entries().len() as int),
    {
        proof {
            use_type_invariant(self);
        }
        let ghost e = self.entries();
        let mut total: u32 = 0;
        let mut k: usize = 0;
        while k < self.symbols.len()
            invariant
                k <= self.symbols@.len(),
                e == self.entries(),
                total_of(e, e.len() as int) <= u32::MAX,
                total == devotion_in(e, colors, k as int),
            decreases self.symbols@.len() - k,
        {
            proof {
                lemma_devotion_bounded(e, colors, k + 1);
                lemma_total_prefix(e, k + 1, e.len() as int);
            }
            match colour_of(&self.symbols[k].0) {
                Some(c) => {
                    if c.0 & colors.0 != 0 {
                        total = total + self.symbols[k].1;
                    }
                },
                None => {},
            }
            k += 1;
        }
        total
    }

    /// The colours named anywhere in this cost.
    pub fn colors(&self) -> (r: Colors)
        ensures
            r == Colors(colours_in(self.entries(), self.entries().len() as int)),
    {
        let ghost e = self.entries();
        let mut mask: u8 = 0;
        let mut k: usize = 0;
        while k < self.symbols.len()
            invariant
                k <= self.symbols@.len(),
                e == self.entries(),
                mask == colours_in(e, k as int),
            decreases self.symbols@.len() - k,
        {
            proof {
                assert(e[k as int].0 == self.symbols@[k as int].0@);
            }
            match colour_of(&self.symbols[k].0) {
                Some(c) => {
                    mask = mask | c.0;
                },
                None => {
                    proof {
                        let m = mask;
                        assert(m | 0u8 == m) by (bit_vector);
                    }
                },
            }
            k += 1;
        }
        Colors(mask)
    }

    /// How many symbols there are, generic aside.
    pub fn symbol_count(&self) -> (r: u32)
        ensures
            r == total_of(self.entries(), self.entries().len() as int),
    {
        proof {
            use_type_invariant(self);
        }
        let ghost e = self.entries();
        let mut total: u32 = 0;
        let mut k: usize = 0;
        while k < self.symbols.len()
            invariant
                k <= self.symbols@.len(),
                e == self.entries(),
                total_of(e, e.len() as int) <= u32::MAX,
                total == total_of(e, k as int),
            decreases self.symbols@.len() - k,
        {
            proof {
                lemma_total_prefix(e, k + 1, e.len() as int);
            }
            total = total + self.symbols[k].1;
            k += 1;
        }
        total
    }

    /// Whether every symbol names colours, and all the same ones: a
    /// devotion term needs that, since `devotion:{u}{b}` is two questions.
    pub fn symbols_agree_on_colors(&self) -> (r: bool)
        ensures
            r == agree_in(self.entries(), self.entries().len() as int),
    {
        let ghost e = self.entries();
        let mut first: Option<Colors> = None;
        let mut k: usize = 0;
        while k < self.symbols.len()
            invariant
                k <= self.symbols@.len(),
                e == self.entries(),
                agree_in(e, k as int),
                k == 0 ==> first is None,
                k > 0 ==> first == symbol_colors(e[0].0),
            decreases self.symbols@.len() - k,
        {
            proof {
                assert(e[k as int].0 == self.symbols@[k as int].0@);
            }
            match colour_of(&self.symbols[k].0) {
                None => {
                    return false;
                },
                Some(c) => {
                    match first {
                        None => {
                            first = Some(c);
                        },
                        Some(f) => {
                            if c != f {
                                return false;
                            }
                        },
                    }
                },
            }
            k += 1;
        }
        true
    }

    /// Whether there is nothing to this cost at all.
    pub fn is_empty(&self) -> (r: bool)
        ensures
            r == (self.generic_of() == 0 && self.entries().len() == 0),
    {
        self.generic == 0 && self.symbols.len() == 0
    }

    /// The generic amount.
    pub fn generic(&self) -> (r: u32)
        ensures
            r == self.generic_of(),
    {
        self.generic
    }

    /// How often `symbol`, in canonical spelling, appears.
    pub fn count_of(&self, symbol: &str) -> (r: u32)
        ensures
            r == self.count(symbol@),
    {
        let key = crate::text::chars_of(symbol);
        self.count_of_symbol(&key)
    }
}

proof fn lemma_total_prefix(e: Seq<(Seq<char>, u32)>, i: int, n: int)
    requires
        0 <= i <= n,
    ensures
        total_of(e, i) <= total_of(e, n),
    decreases n - i,
{
    if i < n {
        lemma_total_prefix(e, i, n - 1);
    }
}


/// One cost includes another: no more generic, and no more of any symbol.
pub open spec fn includes(big: ManaCost, small: ManaCost) -> bool {
    small.generic_of() <= big.generic_of() && forall|x: Seq<char>| #[trigger] small.count(x)
        <= big.count(x)
}

/// Inclusion between costs is a partial order under the costs' equality:
/// every cost includes itself, a cost that includes one that includes a
/// third includes the third, and two costs that include each other are
/// equal, and equal costs include each other.
pub proof fn inclusion_is_a_partial_order(a: ManaCost, b: ManaCost, c: ManaCost)
    ensures
        includes(a, a),
        includes(b, a) && includes(c, b) ==> includes(c, a),
        includes(b, a) && includes(a, b) <==> PartialEqSpec::eq_spec(&a, &b),
{
    if includes(b, a) && includes(c, b) {
        assert forall|x: Seq<char>| #[trigger] a.count(x) <= c.count(x) by {
            assert(a.count(x) <= b.count(x));
            assert(b.count(x) <= c.count(x));
        }
    }
}

/// The empty cost is included in every cost, and two costs that include
/// each other hold the same generic amount and every symbol equally often.
pub proof fn empty_cost_is_least(a: ManaCost, b: ManaCost, empty: ManaCost)
    requires
        empty.generic_of() == 0,
        empty.entries() == Seq::<(Seq<char>, u32)>::empty(),
    ensures
        includes(a, empty),
        includes(a, b) && includes(b, a) <==> (a.generic_of() == b.generic_of() && forall|x: Seq<
            char,
        >| #[trigger] a.count(x) == b.count(x)),
{
    assert forall|x: Seq<char>| #[trigger] empty.count(x) <= a.count(x) by {
        lemma_count_nonneg(a.entries(), x, a.entries().len() as int);
    }
    if includes(a, b) && includes(b, a) {
        assert forall|x: Seq<char>| #[trigger] a.count(x) == b.count(x) by {
            assert(a.count(x) <= b.count(x));
            assert(b.count(x) <= a.count(x));
        }
    }
}

/// A two-colour hybrid is one symbol whichever way round it is written, in
/// either case: `{U/W}` is `{W/U}`.
pub proof fn hybrid_halves_commute(a: char, b: char)
    requires
        is_wubrg(ascii_upper(a)),
        is_wubrg(ascii_upper(b)),
    ensures
        normalized(seq![a, '/', b]) == normalized(seq![b, '/', a]),
{
    let ab = seq![a, '/', b].map_values(|c: char| ascii_upper(c));
    let ba = seq![b, '/', a].map_values(|c: char| ascii_upper(c));
    assert(ab =~= seq![ascii_upper(a), '/', ascii_upper(b)]);
    assert(ba =~= seq![ascii_upper(b), '/', ascii_upper(a)]);
    let ua = ascii_upper(a);
    let ub = ascii_upper(b);
    if rank(ua) == rank(ub) {
        assert(ua == ub);
    }
}

} // verus!

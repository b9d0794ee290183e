//! Partitioning a library into groups of interchangeable cards.
//!
//! Two cards matching the same set of queries, and doing the same thing for
//! mana, are indistinguishable to any criterion, so they collapse into one
//! group. The work then grows with the number of queries rather than with the
//! size of the deck.

use vstd::prelude::*;
use crate::mana::ManaSource;

verus! {

/// A `u64` mask carries one bit per query.
pub const MAX_QUERIES: usize = 64;

/// A grouping this engine will not build.
#[derive(Debug, Clone, PartialEq, Eq, Structural)]
pub enum GroupingError {
    /// More distinct queries than a mask has bits.
    TooManyQueries(usize),
}

/// Whether `mask` has the bit of query `q`.
pub open spec fn has_query(mask: u64, q: int) -> bool {
    0 <= q < 64 && mask & (1u64 << (q as u64)) != 0
}

/// The groups of the first `n` cards, as (mask, mana) keys in the order each
/// key first appears.
pub open spec fn keys_of(cards: Seq<(u64, ManaSource, u32)>, n: int) -> Seq<(u64, ManaSource)>
    decreases n,
{
    if n <= 0 {
        Seq::empty()
    } else {
        let prev = keys_of(cards, n - 1);
        let key = (cards[n - 1].0, cards[n - 1].1);
        if prev.contains(key) {
            prev
        } else {
            prev.push(key)
        }
    }
}

/// How many copies the first `n` cards put in the group keyed `key`.
pub open spec fn size_of(cards: Seq<(u64, ManaSource, u32)>, key: (u64, ManaSource), n: int) -> int
    decreases n,
{
    if n <= 0 {
        0
    } else {
        size_of(cards, key, n - 1) + if (cards[n - 1].0, cards[n - 1].1) == key {
            cards[n - 1].2 as int
        } else {
            0
        }
    }
}

/// How many copies the first `n` cards hold.
pub open spec fn qty_total(cards: Seq<(u64, ManaSource, u32)>, n: int) -> int
    decreases n,
{
    if n <= 0 {
        0
    } else {
        qty_total(cards, n - 1) + cards[n - 1].2
    }
}

/// The sum of the first `n` entries.
pub open spec fn sum_of(s: Seq<u32>, n: int) -> int
    decreases n,
{
    if n <= 0 {
        0
    } else {
        sum_of(s, n - 1) + s[n - 1]
    }
}

/// Of the first `n` groups, how many of `counts` belong to groups whose mask
/// has query `q`.
pub open spec fn matching_in(masks: Seq<u64>, counts: Seq<u32>, q: int, n: int) -> int
    decreases n,
{
    if n <= 0 {
        0
    } else {
        matching_in(masks, counts, q, n - 1) + if has_query(masks[n - 1], q) {
            counts[n - 1] as int
        } else {
            0
        }
    }
}

pub open spec fn min(a: int, b: int) -> int {
    if a < b {
        a
    } else {
        b
    }
}

/// Cards bucketed by exactly which queries they match and what they do for
/// mana.
#[derive(Debug)]
pub struct Grouping {
    queries: Vec<String>,
    group_masks: Vec<u64>,
    group_sizes: Vec<u32>,
    group_mana: Vec<ManaSource>,
}

impl Grouping {
    #[verifier::type_invariant]
    spec fn well_formed(self) -> bool {
        &&& self.group_masks@.len() == self.group_sizes@.len()
        &&& self.group_masks@.len() == self.group_mana@.len()
        &&& self.queries@.len() <= MAX_QUERIES
        &&& sum_of(self.group_sizes@, self.group_sizes@.len() as int) <= u32::MAX
    }

    pub closed spec fn queries_of(self) -> Seq<String> {
        self.queries@
    }

    pub closed spec fn masks_of(self) -> Seq<u64> {
        self.group_masks@
    }

    pub closed spec fn sizes_of(self) -> Seq<u32> {
        self.group_sizes@
    }

    pub closed spec fn mana_of(self) -> Seq<ManaSource> {
        self.group_mana@
    }

    /// The groups a grouping of these cards holds, and their sizes.
    pub open spec fn groups_cards(self, cards: Seq<(u64, ManaSource, u32)>) -> bool {
        let keys = keys_of(cards, cards.len() as int);
        &&& self.masks_of().len() == keys.len()
        &&& self.sizes_of().len() == keys.len()
        &&& forall|g: int|
            0 <= g < keys.len() ==> {
                &&& #[trigger] self.masks_of()[g] == keys[g].0
                &&& self.mana_of()[g] == keys[g].1
                &&& self.sizes_of()[g] == size_of(cards, keys[g], cards.len() as int)
            }
    }

    /// Build from per-card match results: `cards[i]` is the mask of queries
    /// card `i` satisfies and how many copies are in the library. Nothing here
    /// is a mana source.
    pub fn build(queries: Vec<String>, cards: Vec<(u64, u32)>) -> (r: Result<Grouping, GroupingError>)
        requires
            cards@.len() <= usize::MAX,
            qty_total(cards@.map_values(|c: (u64, u32)| (c.0, ManaSource::Spell, c.1)), cards@.len() as int)
                <= u32::MAX,
        ensures
            queries@.len() > MAX_QUERIES ==> r == Err::<Grouping, GroupingError>(
                GroupingError::TooManyQueries(queries@.len() as usize),
            ),
            queries@.len() <= MAX_QUERIES ==> (r matches Ok(g) && g.queries_of() == queries@
                && g.groups_cards(cards@.map_values(|c: (u64, u32)| (c.0, ManaSource::Spell, c.1)))),
    {
        let ghost spec_cards = cards@.map_values(|c: (u64, u32)| (c.0, ManaSource::Spell, c.1));
        let mut with: Vec<(u64, ManaSource, u32)> = Vec::new();
        let mut i: usize = 0;
        while i < cards.len()
            invariant
                i <= cards@.len(),
                spec_cards == cards@.map_values(|c: (u64, u32)| (c.0, ManaSource::Spell, c.1)),
                with@ =~= spec_cards.subrange(0, i as int),
            decreases cards@.len() - i,
        {
            let (mask, qty) = cards[i];
            with.push((mask, ManaSource::Spell, qty));
            i += 1;
        }
        assert(with@ =~= spec_cards);
        Self::with_mana(queries, with)
    }

    /// Build from per-card match results and what each card does for mana.
    #[verifier::spinoff_prover]
    pub fn with_mana(queries: Vec<String>, cards: Vec<(u64, ManaSource, u32)>) -> (r: Result<
        Grouping,
        GroupingError,
    >)
        requires
            qty_total(cards@, cards@.len() as int) <= u32::MAX,
        ensures
            queries@.len() > MAX_QUERIES ==> r == Err::<Grouping, GroupingError>(
                GroupingError::TooManyQueries(queries@.len() as usize),
            ),
            queries@.len() <= MAX_QUERIES ==> (r matches Ok(g) && g.queries_of() == queries@
                && g.groups_cards(cards@)),
    {
        if queries.len() > MAX_QUERIES {
            return Err(GroupingError::TooManyQueries(queries.len()));
        }
        let mut group_masks: Vec<u64> = Vec::new();
        let mut group_sizes: Vec<u32> = Vec::new();
        let mut group_mana: Vec<ManaSource> = Vec::new();
        let mut c: usize = 0;
        while c < cards.len()
            invariant
                c <= cards@.len(),
                qty_total(cards@, cards@.len() as int) <= u32::MAX,
                group_masks@.len() == keys_of(cards@, c as int).len(),
                group_sizes@.len() == group_masks@.len(),
                group_mana@.len() == group_masks@.len(),
                forall|g: int|
                    0 <= g < group_masks@.len() ==> {
                        &&& #[trigger] group_masks@[g] == keys_of(cards@, c as int)[g].0
                        &&& group_mana@[g] == keys_of(cards@, c as int)[g].1
                        &&& group_sizes@[g] == size_of(
                            cards@,
                            keys_of(cards@, c as int)[g],
                            c as int,
                        )
                    },
                sum_of(group_sizes@, group_sizes@.len() as int) == qty_total(cards@, c as int),
            decreases cards@.len() - c,
        {
            let (mask, mana, qty) = cards[c];
            let ghost keys = keys_of(cards@, c as int);
            let ghost key = (mask, mana);
            proof {
                lemma_keys_distinct(cards@, c as int);
                lemma_qty_prefix(cards@, (c + 1) as int, cards@.len() as int);
            }
            let found = find_group(&group_masks, &group_mana, mask, mana);
            proof {
                if let Some(g) = found {
                    lemma_elem_le_sum(group_sizes@, g as int);
                }
            }
            match found {
                Some(g) => {
                    proof {
                        assert(keys[g as int] == key);
                        assert(keys.contains(key));
                        lemma_size_grows(cards@, c as int, keys);
                        lemma_sum_update(group_sizes@, g as int, qty as int);
                        lemma_keys_distinct(cards@, c as int);
                    }
                    let grown = group_sizes[g] + qty;
                    let ghost old_sizes = group_sizes@;
                    group_sizes.set(g, grown);
                    proof {
                        let nk = keys_of(cards@, c + 1);
                        assert(nk == keys);
                        assert forall|h: int| 0 <= h < group_masks@.len() implies {
                            &&& #[trigger] group_masks@[h] == nk[h].0
                            &&& group_mana@[h] == nk[h].1
                            &&& group_sizes@[h] == size_of(cards@, nk[h], c + 1)
                        } by {
                            if h != g {
                                assert(keys[h] != key);
                                assert(group_sizes@[h] == old_sizes[h]);
                            }
                        }
                    }
                },
                None => {
                    proof {
                        if keys.contains(key) {
                            let j = choose|j: int| 0 <= j < keys.len() && keys[j] == key;
                            assert(group_masks@[j] == keys_of(cards@, c as int)[j].0);
                            assert(group_mana@[j] == keys_of(cards@, c as int)[j].1);
                            assert(group_masks@[j] == mask && group_mana@[j] == mana);
                        }
                        assert(!keys.contains(key));
                        lemma_size_grows(cards@, c as int, keys);
                        lemma_size_absent(cards@, key, c as int);
                        lemma_sum_push(group_sizes@, qty);
                    }
                    let ghost old_sizes = group_sizes@;
                    group_masks.push(mask);
                    group_sizes.push(qty);
                    group_mana.push(mana);
                    proof {
                        let nk = keys_of(cards@, c + 1);
                        assert(nk == keys.push(key));
                        assert forall|h: int| 0 <= h < group_masks@.len() implies {
                            &&& #[trigger] group_masks@[h] == nk[h].0
                            &&& group_mana@[h] == nk[h].1
                            &&& group_sizes@[h] == size_of(cards@, nk[h], c + 1)
                        } by {
                            if h < keys.len() {
                                assert(keys[h] != key);
                                assert(group_sizes@[h] == old_sizes[h]);
                            }
                        }
                    }
                },
            }
            c += 1;
        }
        proof {
            lemma_qty_prefix(cards@, cards@.len() as int, cards@.len() as int);
        }
        Ok(Grouping { queries, group_masks, group_sizes, group_mana })
    }

    pub fn queries(&self) -> (r: &Vec<String>)
        ensures
            r@ == self.queries_of(),
    {
        &self.queries
    }

    pub fn group_sizes(&self) -> (r: &Vec<u32>)
        ensures
            r@ == self.sizes_of(),
            self.masks_of().len() == r@.len(),
            self.mana_of().len() == r@.len(),
            self.queries_of().len() <= MAX_QUERIES,
            sum_of(r@, r@.len() as int) <= u32::MAX,
    {
        proof {
            use_type_invariant(self);
        }
        &self.group_sizes
    }

    pub fn group_masks(&self) -> (r: &Vec<u64>)
        ensures
            r@ == self.masks_of(),
    {
        &self.group_masks
    }

    /// What each group does for mana, in group order.
    pub fn group_mana(&self) -> (r: &Vec<ManaSource>)
        ensures
            r@ == self.mana_of(),
    {
        &self.group_mana
    }

    /// The position of `query` among the queries, if it is one.
    pub fn query_index(&self, query: &str) -> (r: Option<usize>)
        ensures
            match r {
                Some(i) => i < self.queries_of().len() && self.queries_of()[i as int]@ == query@
                    && forall|j: int| 0 <= j < i ==> self.queries_of()[j]@ != query@,
                None => forall|j: int|
                    0 <= j < self.queries_of().len() ==> self.queries_of()[j]@ != query@,
            },
    {
        let mut i: usize = 0;
        while i < self.queries.len()
            invariant
                i <= self.queries@.len(),
                forall|j: int| 0 <= j < i ==> self.queries@[j]@ != query@,
            decreases self.queries@.len() - i,
        {
            if crate::text::str_eq(self.queries[i].as_str(), query) {
                return Some(i);
            }
            i += 1;
        }
        None
    }

    /// Total library size.
    pub fn population(&self) -> (r: u32)
        ensures
            r == sum_of(self.sizes_of(), self.sizes_of().len() as int),
    {
        proof {
            use_type_invariant(self);
        }
        let mut total: u32 = 0;
        let mut g: usize = 0;
        while g < self.group_sizes.len()
            invariant
                g <= self.group_sizes@.len(),
                sum_of(self.group_sizes@, self.group_sizes@.len() as int) <= u32::MAX,
                total == sum_of(self.group_sizes@, g as int),
            decreases self.group_sizes@.len() - g,
        {
            proof {
                lemma_sum_prefix(self.group_sizes@, (g + 1) as int, self.group_sizes@.len() as int);
            }
            total = total + self.group_sizes[g];
            g += 1;
        }
        total
    }

    /// How many cards in the whole library match `query_idx`.
    pub fn matching_total(&self, query_idx: usize) -> (r: u32)
        ensures
            r == if query_idx < self.queries_of().len() {
                matching_in(
                    self.masks_of(),
                    self.sizes_of(),
                    query_idx as int,
                    self.sizes_of().len() as int,
                )
            } else {
                0
            },
    {
        proof {
            use_type_invariant(self);
            lemma_matching_le_sum(
                self.group_masks@,
                self.group_sizes@,
                query_idx as int,
                self.group_sizes@.len() as int,
            );
        }
        self.sum_matching(&self.group_sizes, query_idx)
    }

    /// How many of `counts` (one per group) match `query_idx`.
    pub fn count_matching(&self, counts: &[u32], query_idx: usize) -> (r: u32)
        requires
            query_idx < self.queries_of().len() ==> matching_in(
                self.masks_of(),
                counts@,
                query_idx as int,
                min(self.masks_of().len() as int, counts@.len() as int),
            ) <= u32::MAX,
        ensures
            r == if query_idx < self.queries_of().len() {
                matching_in(
                    self.masks_of(),
                    counts@,
                    query_idx as int,
                    min(self.masks_of().len() as int, counts@.len() as int),
                )
            } else {
                0
            },
    {
        self.sum_matching(counts, query_idx)
    }

    fn sum_matching(&self, counts: &[u32], query_idx: usize) -> (r: u32)
        requires
            query_idx < self.queries_of().len() ==> matching_in(
                self.masks_of(),
                counts@,
                query_idx as int,
                min(self.masks_of().len() as int, counts@.len() as int),
            ) <= u32::MAX,
        ensures
            r == if query_idx < self.queries_of().len() {
                matching_in(
                    self.masks_of(),
                    counts@,
                    query_idx as int,
                    min(self.masks_of().len() as int, counts@.len() as int),
                )
            } else {
                0
            },
    {
        proof {
            use_type_invariant(self);
        }
        if query_idx >= self.queries.len() {
            return 0;
        }
        let bit: u64 = 1u64 << (query_idx as u64);
        let n = if self.group_masks.len() < counts.len() {
            self.group_masks.len()
        } else {
            counts.len()
        };
        let mut total: u32 = 0;
        let mut g: usize = 0;
        while g < n
            invariant
                g <= n,
                n == min(self.group_masks@.len() as int, counts@.len() as int),
                query_idx < 64,
                bit == 1u64 << (query_idx as u64),
                matching_in(self.group_masks@, counts@, query_idx as int, n as int) <= u32::MAX,
                total == matching_in(self.group_masks@, counts@, query_idx as int, g as int),
            decreases n - g,
        {
            proof {
                lemma_matching_prefix(self.group_masks@, counts@, query_idx as int, (g + 1) as int, n as int);
            }
            if self.group_masks[g] & bit != 0 {
                total = total + counts[g];
            }
            g += 1;
        }
        total
    }
}

/// The first group holding the key `(mask, mana)`, if any does.
fn find_group(masks: &Vec<u64>, mana: &Vec<ManaSource>, mask: u64, source: ManaSource) -> (r:
    Option<usize>)
    requires
        masks@.len() == mana@.len(),
    ensures
        match r {
            Some(g) => g < masks@.len() && masks@[g as int] == mask && mana@[g as int] == source,
            None => forall|h: int|
                0 <= h < masks@.len() ==> !(masks@[h] == mask && mana@[h] == source),
        },
{
    let mut g: usize = 0;
    while g < masks.len()
        invariant
            g <= masks@.len(),
            masks@.len() == mana@.len(),
            forall|h: int| 0 <= h < g ==> !(masks@[h] == mask && mana@[h] == source),
        decreases masks@.len() - g,
    {
        if masks[g] == mask && mana[g] == source {
            return Some(g);
        }
        g += 1;
    }
    None
}

proof fn lemma_elem_le_sum(s: Seq<u32>, g: int)
    requires
        0 <= g < s.len(),
    ensures
        s[g] <= sum_of(s, s.len() as int),
{
    lemma_elem_le_sum_n(s, g, s.len() as int);
}

proof fn lemma_elem_le_sum_n(s: Seq<u32>, g: int, n: int)
    requires
        0 <= g < n <= s.len(),
    ensures
        s[g] <= sum_of(s, n),
    decreases n,
{
    if n - 1 > g {
        lemma_elem_le_sum_n(s, g, n - 1);
    } else {
        lemma_sum_nonneg(s, n - 1);
    }
}

proof fn lemma_keys_distinct(cards: Seq<(u64, ManaSource, u32)>, n: int)
    ensures
        forall|a: int, b: int|
            0 <= a < b < keys_of(cards, n).len() ==> keys_of(cards, n)[a] != keys_of(cards, n)[b],
    decreases n,
{
    if n > 0 {
        lemma_keys_distinct(cards, n - 1);
        let prev = keys_of(cards, n - 1);
        let key = (cards[n - 1].0, cards[n - 1].1);
        if !prev.contains(key) {
            let now = prev.push(key);
            assert forall|a: int, b: int| 0 <= a < b < now.len() implies now[a] != now[b] by {
                if b == prev.len() {
                    assert(now[a] == prev[a]);
                    if prev[a] == key {
                        assert(prev.contains(key));
                    }
                } else {
                    assert(now[a] == prev[a] && now[b] == prev[b]);
                }
            }
        }
    }
}

proof fn lemma_size_absent(cards: Seq<(u64, ManaSource, u32)>, key: (u64, ManaSource), n: int)
    requires
        !keys_of(cards, n).contains(key),
    ensures
        size_of(cards, key, n) == 0,
    decreases n,
{
    if n > 0 {
        let prev = keys_of(cards, n - 1);
        if prev.contains(key) {
            let j = choose|j: int| 0 <= j < prev.len() && prev[j] == key;
            if !prev.contains((cards[n - 1].0, cards[n - 1].1)) {
                assert(keys_of(cards, n)[j] == key);
            }
        }
        if (cards[n - 1].0, cards[n - 1].1) == key {
            if prev.contains(key) {
            } else {
                assert(keys_of(cards, n)[prev.len() as int] == key);
            }
        }
        lemma_size_absent(cards, key, n - 1);
    }
}

proof fn lemma_size_grows(
    cards: Seq<(u64, ManaSource, u32)>,
    n: int,
    keys: Seq<(u64, ManaSource)>,
)
    requires
        0 <= n < cards.len(),
        keys == keys_of(cards, n),
    ensures
        forall|key: (u64, ManaSource)|
            #[trigger] size_of(cards, key, n + 1) == size_of(cards, key, n) + if (
                cards[n].0,
                cards[n].1,
            ) == key {
                cards[n].2 as int
            } else {
                0
            },
        keys_of(cards, n + 1) == if keys.contains((cards[n].0, cards[n].1)) {
            keys
        } else {
            keys.push((cards[n].0, cards[n].1))
        },
{
}

proof fn lemma_sum_update(s: Seq<u32>, g: int, add: int)
    requires
        0 <= g < s.len(),
        0 <= s[g] + add <= u32::MAX,
    ensures
        sum_of(s.update(g, (s[g] + add) as u32), s.len() as int) == sum_of(s, s.len() as int) + add,
{
    lemma_sum_update_n(s, g, add, s.len() as int);
}

proof fn lemma_sum_update_n(s: Seq<u32>, g: int, add: int, n: int)
    requires
        0 <= g < s.len(),
        n <= s.len(),
        0 <= s[g] + add <= u32::MAX,
    ensures
        sum_of(s.update(g, (s[g] + add) as u32), n) == sum_of(s, n) + if g < n {
            add
        } else {
            0
        },
    decreases n,
{
    if n > 0 {
        lemma_sum_update_n(s, g, add, n - 1);
    }
}

proof fn lemma_sum_push(s: Seq<u32>, x: u32)
    ensures
        sum_of(s.push(x), s.len() as int + 1) == sum_of(s, s.len() as int) + x,
{
    lemma_sum_same_prefix(s, s.push(x), s.len() as int);
}

proof fn lemma_sum_same_prefix(a: Seq<u32>, b: Seq<u32>, n: int)
    requires
        0 <= n <= a.len(),
        n <= b.len(),
        forall|i: int| 0 <= i < n ==> a[i] == b[i],
    ensures
        sum_of(a, n) == sum_of(b, n),
    decreases n,
{
    if n > 0 {
        lemma_sum_same_prefix(a, b, n - 1);
    }
}

proof fn lemma_sum_prefix(s: Seq<u32>, i: int, n: int)
    requires
        0 <= i <= n <= s.len(),
    ensures
        0 <= sum_of(s, i) <= sum_of(s, n),
    decreases n - i,
{
    if i < n {
        lemma_sum_prefix(s, i, n - 1);
    } else {
        lemma_sum_nonneg(s, i);
    }
}

proof fn lemma_sum_nonneg(s: Seq<u32>, n: int)
    requires
        n <= s.len(),
    ensures
        sum_of(s, n) >= 0,
    decreases n,
{
    if n > 0 {
        lemma_sum_nonneg(s, n - 1);
    }
}

proof fn lemma_qty_prefix(cards: Seq<(u64, ManaSource, u32)>, i: int, n: int)
    requires
        0 <= i <= n <= cards.len(),
    ensures
        0 <= qty_total(cards, i) <= qty_total(cards, n),
    decreases n - i,
{
    if i < n {
        lemma_qty_prefix(cards, i, n - 1);
    } else {
        lemma_qty_nonneg(cards, i);
    }
}

proof fn lemma_qty_nonneg(cards: Seq<(u64, ManaSource, u32)>, n: int)
    requires
        n <= cards.len(),
    ensures
        qty_total(cards, n) >= 0,
    decreases n,
{
    if n > 0 {
        lemma_qty_nonneg(cards, n - 1);
    }
}

pub proof fn lemma_matching_prefix(masks: Seq<u64>, counts: Seq<u32>, q: int, i: int, n: int)
    requires
        0 <= i <= n <= counts.len(),
        n <= masks.len(),
    ensures
        0 <= matching_in(masks, counts, q, i) <= matching_in(masks, counts, q, n),
    decreases n - i,
{
    if i < n {
        lemma_matching_prefix(masks, counts, q, i, n - 1);
    } else {
        lemma_matching_nonneg(masks, counts, q, i);
    }
}

proof fn lemma_matching_nonneg(masks: Seq<u64>, counts: Seq<u32>, q: int, n: int)
    requires
        n <= counts.len(),
        n <= masks.len(),
    ensures
        matching_in(masks, counts, q, n) >= 0,
    decreases n,
{
    if n > 0 {
        lemma_matching_nonneg(masks, counts, q, n - 1);
    }
}

pub proof fn lemma_matching_le_sum(masks: Seq<u64>, counts: Seq<u32>, q: int, n: int)
    requires
        0 <= n <= counts.len(),
        n <= masks.len(),
    ensures
        0 <= matching_in(masks, counts, q, n) <= sum_of(counts, n),
    decreases n,
{
    if n > 0 {
        lemma_matching_le_sum(masks, counts, q, n - 1);
    }
}

/// The copies the first `m` keys hold among the first `n` cards.
pub open spec fn sizes_over(
    cards: Seq<(u64, ManaSource, u32)>,
    keys: Seq<(u64, ManaSource)>,
    m: int,
    n: int,
) -> int
    decreases m,
{
    if m <= 0 {
        0
    } else {
        sizes_over(cards, keys, m - 1, n) + size_of(cards, keys[m - 1], n)
    }
}

/// The key card `i` is grouped by.
pub open spec fn key_at(cards: Seq<(u64, ManaSource, u32)>, i: int) -> (u64, ManaSource) {
    (cards[i].0, cards[i].1)
}

proof fn lemma_sizes_step(cards: Seq<(u64, ManaSource, u32)>, keys: Seq<(u64, ManaSource)>, m: int, n: int)
    requires
        1 <= n <= cards.len(),
        0 <= m <= keys.len(),
        forall|a: int, b: int| 0 <= a < b < m ==> keys[a] != keys[b],
    ensures
        sizes_over(cards, keys, m, n) == sizes_over(cards, keys, m, n - 1) + if keys.subrange(0, m).contains(
            key_at(cards, n - 1),
        ) {
            cards[n - 1].2 as int
        } else {
            0
        },
    decreases m,
{
    if m > 0 {
        lemma_sizes_step(cards, keys, m - 1, n);
        let k = key_at(cards, n - 1);
        let before = keys.subrange(0, m - 1);
        let now = keys.subrange(0, m);
        assert(now == before.push(keys[m - 1]));
        if before.contains(k) {
            let j = choose|j: int| 0 <= j < before.len() && before[j] == k;
            assert(keys[j] == k);
            assert(keys[m - 1] != k);
        }
        if now.contains(k) && !before.contains(k) {
            let j = choose|j: int| 0 <= j < now.len() && now[j] == k;
            if j < m - 1 {
                assert(before[j] == k);
            }
        }
        if keys[m - 1] == k {
            assert(now[m - 1] == k);
        }
    }
}

proof fn lemma_sizes_prefix(cards: Seq<(u64, ManaSource, u32)>, a: Seq<(u64, ManaSource)>, b: Seq<(u64, ManaSource)>, m: int, n: int)
    requires
        0 <= m <= a.len(),
        m <= b.len(),
        forall|g: int| 0 <= g < m ==> a[g] == b[g],
    ensures
        sizes_over(cards, a, m, n) == sizes_over(cards, b, m, n),
    decreases m,
{
    if m > 0 {
        lemma_sizes_prefix(cards, a, b, m - 1, n);
    }
}

proof fn lemma_keys_hold_every_copy(cards: Seq<(u64, ManaSource, u32)>, n: int)
    requires
        0 <= n <= cards.len(),
    ensures
        sizes_over(cards, keys_of(cards, n), keys_of(cards, n).len() as int, n) == qty_total(cards, n),
    decreases n,
{
    if n > 0 {
        lemma_keys_hold_every_copy(cards, n - 1);
        lemma_keys_distinct(cards, n - 1);
        lemma_keys_distinct(cards, n);
        let prev = keys_of(cards, n - 1);
        let now = keys_of(cards, n);
        let k = key_at(cards, n - 1);
        if prev.contains(k) {
            assert(now == prev);
            lemma_sizes_step(cards, now, now.len() as int, n);
            assert(now.subrange(0, now.len() as int) =~= now);
        } else {
            assert(now == prev.push(k));
            lemma_sizes_step(cards, now, prev.len() as int, n);
            assert(now.subrange(0, prev.len() as int) =~= prev);
            lemma_sizes_prefix(cards, now, prev, prev.len() as int, n);
            lemma_sizes_prefix(cards, now, prev, prev.len() as int, n - 1);
            lemma_size_absent(cards, k, n - 1);
        }
    }
}

proof fn lemma_sum_is_sizes(g: Grouping, cards: Seq<(u64, ManaSource, u32)>, m: int)
    requires
        g.groups_cards(cards),
        0 <= m <= g.sizes_of().len(),
    ensures
        sum_of(g.sizes_of(), m) == sizes_over(
            cards,
            keys_of(cards, cards.len() as int),
            m,
            cards.len() as int,
        ),
    decreases m,
{
    if m > 0 {
        lemma_sum_is_sizes(g, cards, m - 1);
        assert(g.masks_of()[m - 1] == keys_of(cards, cards.len() as int)[m - 1].0);
    }
}

/// Grouping loses no card and counts none twice: between them, the groups
/// of a grouping built from some cards hold every copy of every card.
pub proof fn grouping_holds_every_copy(g: Grouping, cards: Seq<(u64, ManaSource, u32)>)
    requires
        g.groups_cards(cards),
    ensures
        sum_of(g.sizes_of(), g.sizes_of().len() as int) == qty_total(cards, cards.len() as int),
{
    lemma_sum_is_sizes(g, cards, g.sizes_of().len() as int);
    lemma_keys_hold_every_copy(cards, cards.len() as int);
}

} // verus!

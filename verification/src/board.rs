//! One path played out, turn by turn, with the effects of a run live.
//!
//! Cards come off the top in the order the enumeration revealed them. A card
//! that is drawn is in hand, a card that is looked at and routed is in the
//! graveyard, and a card that is looked at and kept stays on top, to be drawn
//! next — which is why keeping is indistinguishable from never having looked.
//! A looked-at card is routed by its group, never by which card it is, so the
//! walk is a function of counts like everything else in the engine.

use vstd::prelude::*;
use crate::effect::{Effect, Route};
use crate::grouping::{Grouping, has_query, lemma_matching_le_sum, matching_in, min, sum_of};
use crate::mana::{Constraint, Cost, ManaSource, Source, forced_spec, hall, ints, total_in};
use crate::schedule::{Schedule, lemma_span_in_range, tiles};
use crate::zone::Zone;

verus! {

/// Whether `route` sends a looked-at card of a group with `mask` to the
/// graveyard.
pub open spec fn route_hits(route: Route, mask: u64) -> bool {
    match route {
        Route::Nowhere => false,
        Route::Everything => true,
        Route::Matching(q) => has_query(mask, q as int),
    }
}

/// Which of the first `n` effects a group with `mask` carries: the last one
/// whose bit it has.
pub open spec fn owner_upto(effects: Seq<Effect>, mask: u64, n: int) -> Option<usize>
    decreases n,
{
    if n <= 0 {
        None
    } else if has_query(mask, effects[n - 1].matched_by as int) {
        Some((n - 1) as usize)
    } else {
        owner_upto(effects, mask, n - 1)
    }
}

/// The land groups among the first `n`, in group order.
pub open spec fn lands_upto(mana: Seq<ManaSource>, n: int) -> Seq<usize>
    decreases n,
{
    if n <= 0 {
        Seq::empty()
    } else if mana[n - 1] is Land {
        lands_upto(mana, n - 1).push((n - 1) as usize)
    } else {
        lands_upto(mana, n - 1)
    }
}

/// How deep the effect a group carries looks, or 0 for none.
pub open spec fn look_of(effects: Seq<Effect>, owner: Option<usize>) -> int {
    match owner {
        Some(e) => effects[e as int].look as int,
        None => 0,
    }
}

/// Whether group `g` belongs to tier `j` of a declared priority over the
/// queries `tiers`: it is a land, it matches the tier's query, and no earlier
/// tier claimed it.
pub open spec fn in_tier(masks: Seq<u64>, any_land: usize, tiers: Seq<usize>, j: int, g: int) -> bool {
    &&& has_query(masks[g], any_land as int)
    &&& has_query(masks[g], tiers[j] as int)
    &&& forall|i: int| 0 <= i < j ==> !has_query(masks[g], #[trigger] tiers[i] as int)
}

/// The tie rule inside a tier: the deeper look first, then the group the
/// decklist reached first.
pub open spec fn plays_before(look_a: int, a: int, look_b: int, b: int) -> bool {
    look_a > look_b || (look_a == look_b && a < b)
}

/// The sum of `row` over the groups `idx` names, of the first `n` of them.
pub open spec fn sum_at(row: Seq<u32>, idx: Seq<usize>, n: int) -> int
    decreases n,
{
    if n <= 0 {
        0
    } else {
        sum_at(row, idx, n - 1) + row[idx[n - 1] as int]
    }
}

/// The first group in tier order whose cards in hand outnumber the ones
/// already played, searching the first `n` tiers.
pub open spec fn first_playable(
    tiers: Seq<Seq<usize>>,
    hand: Seq<u32>,
    played: Seq<u32>,
    n: int,
) -> Option<usize>
    decreases n,
{
    if n <= 0 {
        None
    } else {
        match first_playable(tiers, hand, played, n - 1) {
            Some(g) => Some(g),
            None => first_in_tier(tiers[n - 1], hand, played, tiers[n - 1].len() as int),
        }
    }
}

/// The first group among the first `n` of `tier` with more in hand than
/// played.
pub open spec fn first_in_tier(tier: Seq<usize>, hand: Seq<u32>, played: Seq<u32>, n: int) -> Option<
    usize,
>
    decreases n,
{
    if n <= 0 {
        None
    } else {
        match first_in_tier(tier, hand, played, n - 1) {
            Some(g) => Some(g),
            None => if hand[tier[n - 1] as int] > played[tier[n - 1] as int] {
                Some(tier[n - 1])
            } else {
                None
            },
        }
    }
}

/// What one path left in each zone, turn by turn.
#[derive(Debug)]
struct Record {
    hand: Vec<Vec<u32>>,
    yard: Vec<Vec<u32>>,
    played_at: Vec<Vec<u32>>,
    drop_at: Vec<Option<usize>>,
    drops: Vec<u32>,
}

/// The state one path through the enumeration leaves the zones in.
#[derive(Debug)]
pub struct Board<'a> {
    grouping: &'a Grouping,
    schedule: &'a Schedule,
    /// Which effect each group carries, resolved by last-wins.
    group_effect: Vec<Option<usize>>,
    /// `routed[effect][group]`: whether a card of the group leaves for the
    /// yard when the effect looks at it.
    routed: Vec<Vec<bool>>,
    /// The land groups, in group order.
    land_groups: Vec<usize>,
    /// What each land group makes, parallel to `land_groups`.
    pool: Vec<Source>,
    /// The declared land-drop priority as groups, one list per tier, each
    /// already in the order the tie rule plays them.
    tiers: Option<Vec<Vec<usize>>>,
    record: Record,
}

/// The rows of a table, as sequences.
pub open spec fn rows(t: Seq<Vec<u32>>) -> Seq<Seq<u32>> {
    t.map_values(|r: Vec<u32>| r@)
}

/// Whether every row of `t` has `width` entries.
pub open spec fn all_rows(t: Seq<Seq<u32>>, width: int) -> bool {
    forall|i: int| 0 <= i < t.len() ==> (#[trigger] t[i]).len() == width
}

/// Whether `tier` is tier `j` of a declared priority, in play order: exactly
/// the groups that belong to it, each once, ordered by the tie rule.
pub open spec fn tier_ok(
    tier: Seq<usize>,
    masks: Seq<u64>,
    owners: Seq<Option<usize>>,
    effects: Seq<Effect>,
    any_land: usize,
    queries: Seq<usize>,
    j: int,
) -> bool {
    &&& forall|a: int|
        0 <= a < tier.len() ==> (#[trigger] tier[a]) < masks.len() && in_tier(
            masks,
            any_land,
            queries,
            j,
            tier[a] as int,
        )
    &&& forall|g: int|
        0 <= g < masks.len() && #[trigger] in_tier(masks, any_land, queries, j, g) ==> tier.contains(
            g as usize,
        )
    &&& forall|a: int, b: int|
        0 <= a < b < tier.len() ==> plays_before(
            look_of(effects, owners[(#[trigger] tier[a]) as int]),
            tier[a] as int,
            look_of(effects, owners[(#[trigger] tier[b]) as int]),
            tier[b] as int,
        )
}

/// Whether `mask` has the bit of query `q`.
fn has_bit(mask: u64, q: usize) -> (r: bool)
    requires
        q < 64,
    ensures
        r == has_query(mask, q as int),
{
    mask & (1u64 << (q as u64)) != 0
}

/// `n` zeros.
fn zeros(n: usize) -> (r: Vec<u32>)
    ensures
        r@.len() == n,
        forall|i: int| 0 <= i < n ==> #[trigger] r@[i] == 0,
{
    let mut r: Vec<u32> = Vec::new();
    let mut i: usize = 0;
    while i < n
        invariant
            i <= n,
            r@.len() == i,
            forall|k: int| 0 <= k < i ==> #[trigger] r@[k] == 0,
        decreases n - i,
    {
        r.push(0);
        i += 1;
    }
    r
}

/// A table of `t` rows of `g` zeros.
fn zero_table(t: usize, g: usize) -> (r: Vec<Vec<u32>>)
    ensures
        r@.len() == t,
        forall|i: int| 0 <= i < t ==> (#[trigger] r@[i])@.len() == g,
        forall|i: int, k: int| 0 <= i < t && 0 <= k < g ==> #[trigger] r@[i]@[k] == 0,
{
    let mut r: Vec<Vec<u32>> = Vec::new();
    let mut i: usize = 0;
    while i < t
        invariant
            i <= t,
            r@.len() == i,
            forall|j: int| 0 <= j < i ==> (#[trigger] r@[j])@.len() == g,
            forall|j: int, k: int| 0 <= j < i && 0 <= k < g ==> #[trigger] r@[j]@[k] == 0,
        decreases t - i,
    {
        r.push(zeros(g));
        i += 1;
    }
    r
}

/// Whether an earlier tier than `j` already claimed group `g`.
pub open spec fn claimed_by(masks: Seq<u64>, any_land: usize, tiers: Seq<usize>, j: int, g: int) -> bool {
    has_query(masks[g], any_land as int) && exists|i: int|
        0 <= i < j && has_query(masks[g], #[trigger] tiers[i] as int)
}

/// Every query an effect names fits in a mask.
pub open spec fn effects_fit(effects: Seq<Effect>) -> bool {
    forall|i: int|
        0 <= i < effects.len() ==> (#[trigger] effects[i]).matched_by < 64 && match effects[i].route {
            Route::Matching(q) => q < 64,
            _ => true,
        }
}

/// Every owner names one of `n` effects.
pub open spec fn owners_fit(owners: Seq<Option<usize>>, n: int) -> bool {
    forall|k: int|
        0 <= k < owners.len() ==> match #[trigger] owners[k] {
            Some(e) => e < n,
            None => true,
        }
}

/// How deep the effect `owner` looks.
fn look_at(effects: &Vec<Effect>, owner: Option<usize>) -> (r: u32)
    requires
        owner matches Some(e) ==> e < effects@.len(),
    ensures
        r == look_of(effects@, owner),
{
    match owner {
        Some(e) => effects[e].look,
        None => 0,
    }
}

/// Which effect each group carries: the last one whose bit its mask has.
fn owners(masks: &Vec<u64>, effects: &Vec<Effect>) -> (r: Vec<Option<usize>>)
    requires
        effects_fit(effects@),
    ensures
        r@.len() == masks@.len(),
        forall|k: int|
            0 <= k < masks@.len() ==> #[trigger] r@[k] == owner_upto(
                effects@,
                masks@[k],
                effects@.len() as int,
            ),
        owners_fit(r@, effects@.len() as int),
{
    let mut r: Vec<Option<usize>> = Vec::new();
    let mut k: usize = 0;
    while k < masks.len()
        invariant
            k <= masks@.len(),
            effects_fit(effects@),
            r@.len() == k,
            forall|j: int|
                0 <= j < k ==> #[trigger] r@[j] == owner_upto(
                    effects@,
                    masks@[j],
                    effects@.len() as int,
                ),
            owners_fit(r@, effects@.len() as int),
        decreases masks@.len() - k,
    {
        let mut owner: Option<usize> = None;
        let mut i: usize = 0;
        while i < effects.len()
            invariant
                i <= effects@.len(),
                k < masks@.len(),
                effects_fit(effects@),
                owner == owner_upto(effects@, masks@[k as int], i as int),
                owner matches Some(e) ==> e < i,
            decreases effects@.len() - i,
        {
            assert(effects@[i as int].matched_by < 64);
            if has_bit(masks[k], effects[i].matched_by) {
                owner = Some(i);
            }
            i += 1;
        }
        r.push(owner);
        k += 1;
    }
    r
}

/// For each effect, which groups it sends to the yard.
fn routes(masks: &Vec<u64>, effects: &Vec<Effect>) -> (r: Vec<Vec<bool>>)
    requires
        effects_fit(effects@),
    ensures
        r@.len() == effects@.len(),
        forall|i: int| 0 <= i < effects@.len() ==> (#[trigger] r@[i])@.len() == masks@.len(),
        forall|i: int, k: int|
            0 <= i < effects@.len() && 0 <= k < masks@.len() ==> #[trigger] r@[i]@[k]
                == route_hits(effects@[i].route, masks@[k]),
{
    let mut r: Vec<Vec<bool>> = Vec::new();
    let mut i: usize = 0;
    while i < effects.len()
        invariant
            i <= effects@.len(),
            effects_fit(effects@),
            r@.len() == i,
            forall|j: int| 0 <= j < i ==> (#[trigger] r@[j])@.len() == masks@.len(),
            forall|j: int, k: int|
                0 <= j < i && 0 <= k < masks@.len() ==> #[trigger] r@[j]@[k] == route_hits(
                    effects@[j].route,
                    masks@[k],
                ),
        decreases effects@.len() - i,
    {
        let route = effects[i].route;
        assert(effects_fit(effects@) ==> (effects@[i as int]).matched_by < 64);
        let mut row: Vec<bool> = Vec::new();
        let mut k: usize = 0;
        while k < masks.len()
            invariant
                k <= masks@.len(),
                i < effects@.len(),
                route == effects@[i as int].route,
                route matches Route::Matching(q) ==> q < 64,
                row@.len() == k,
                forall|j: int| 0 <= j < k ==> #[trigger] row@[j] == route_hits(route, masks@[j]),
            decreases masks@.len() - k,
        {
            let hit = match route {
                Route::Nowhere => false,
                Route::Everything => true,
                Route::Matching(q) => has_bit(masks[k], q),
            };
            row.push(hit);
            k += 1;
        }
        r.push(row);
        i += 1;
    }
    r
}

/// The land groups in group order, and what each makes.
fn lands(mana: &Vec<ManaSource>) -> (r: (Vec<usize>, Vec<Source>))
    ensures
        r.0@ == lands_upto(mana@, mana@.len() as int),
        r.1@.len() == r.0@.len(),
        forall|k: int|
            0 <= k < r.1@.len() ==> #[trigger] r.1@[k] == (Source {
                produces: mana@[r.0@[k] as int].palette_of(),
                tapped: mana@[r.0@[k] as int].tapped_on_arrival(),
            }),
{
    let mut groups: Vec<usize> = Vec::new();
    let mut pool: Vec<Source> = Vec::new();
    let mut g: usize = 0;
    while g < mana.len()
        invariant
            g <= mana@.len(),
            groups@ == lands_upto(mana@, g as int),
            pool@.len() == groups@.len(),
            forall|k: int|
                0 <= k < pool@.len() ==> #[trigger] pool@[k] == (Source {
                    produces: mana@[groups@[k] as int].palette_of(),
                    tapped: mana@[groups@[k] as int].tapped_on_arrival(),
                }),
            forall|k: int| 0 <= k < groups@.len() ==> #[trigger] groups@[k] < g,
        decreases mana@.len() - g,
    {
        if mana[g].is_land() {
            groups.push(g);
            pool.push(Source::of(mana[g]));
        }
        g += 1;
    }
    (groups, pool)
}

/// Tier `j` of a declared priority over `queries`, in the order the tie rule
/// plays it, marking its groups claimed.
fn tier_for(
    masks: &Vec<u64>,
    owners: &Vec<Option<usize>>,
    effects: &Vec<Effect>,
    any_land: usize,
    queries: &Vec<usize>,
    j: usize,
    claimed: &mut Vec<bool>,
) -> (tier: Vec<usize>)
    requires
        masks@.len() == owners@.len(),
        old(claimed)@.len() == masks@.len(),
        j < queries@.len(),
        any_land < 64,
        forall|i: int| 0 <= i < queries@.len() ==> #[trigger] queries@[i] < 64,
        owners_fit(owners@, effects@.len() as int),
        forall|g: int|
            0 <= g < masks@.len() ==> #[trigger] old(claimed)@[g] == claimed_by(
                masks@,
                any_land,
                queries@,
                j as int,
                g,
            ),
    ensures
        tier_ok(tier@, masks@, owners@, effects@, any_land, queries@, j as int),
        final(claimed)@.len() == masks@.len(),
        forall|g: int|
            0 <= g < masks@.len() ==> #[trigger] final(claimed)@[g] == claimed_by(
                masks@,
                any_land,
                queries@,
                j + 1,
                g,
            ),
{
    let ghost ms = masks@;
    let ghost qs = queries@;
    let ghost os = owners@;
    let ghost es = effects@;
    let q = queries[j];
    let mut tier: Vec<usize> = Vec::new();
    let mut g: usize = 0;
    while g < masks.len()
        invariant
            g <= ms.len(),
            ms == masks@,
            qs == queries@,
            os == owners@,
            es == effects@,
            ms.len() == os.len(),
            claimed@.len() == ms.len(),
            j < qs.len(),
            q == qs[j as int],
            q < 64,
            any_land < 64,
            owners_fit(os, es.len() as int),
            forall|x: int|
                g <= x < ms.len() ==> #[trigger] claimed@[x] == claimed_by(ms, any_land, qs, j as int, x),
            forall|x: int|
                0 <= x < g ==> #[trigger] claimed@[x] == claimed_by(ms, any_land, qs, j + 1, x),
            forall|a: int|
                0 <= a < tier@.len() ==> (#[trigger] tier@[a]) < g && in_tier(
                    ms,
                    any_land,
                    qs,
                    j as int,
                    tier@[a] as int,
                ),
            forall|x: int|
                0 <= x < g && #[trigger] in_tier(ms, any_land, qs, j as int, x) ==> tier@.contains(
                    x as usize,
                ),
            forall|a: int, b: int|
                0 <= a < b < tier@.len() ==> plays_before(
                    look_of(es, os[(#[trigger] tier@[a]) as int]),
                    tier@[a] as int,
                    look_of(es, os[(#[trigger] tier@[b]) as int]),
                    tier@[b] as int,
                ),
        decreases ms.len() - g,
    {
        let land = has_bit(masks[g], any_land);
        let hit = has_bit(masks[g], q);
        let taken = claimed[g];
        proof {
            assert(claimed@[g as int] == claimed_by(ms, any_land, qs, j as int, g as int));
            if land && hit && !taken {
                assert forall|i: int| 0 <= i < j implies !has_query(
                    ms[g as int],
                    #[trigger] qs[i] as int,
                ) by {}
            }
            if in_tier(ms, any_land, qs, j as int, g as int) {
                if taken {
                    let i = choose|i: int| 0 <= i < j && has_query(ms[g as int], #[trigger] qs[i] as int);
                    assert(!has_query(ms[g as int], qs[i] as int));
                }
            }
        }
        if land && hit && !taken {
            let ghost before = tier@;
            let lk = look_at(effects, owners[g]);
            let mut p: usize = 0;
            while p < tier.len()
                invariant
                    p <= tier@.len(),
                    tier@ == before,
                    os == owners@,
                    es == effects@,
                    g < os.len(),
                    owners_fit(os, es.len() as int),
                    forall|a: int| 0 <= a < before.len() ==> (#[trigger] before[a]) < g,
                    forall|a: int| 0 <= a < p ==> look_of(es, os[(#[trigger] before[a]) as int]) >= lk,
                ensures
                    p <= before.len(),
                    tier@ == before,
                    forall|a: int| 0 <= a < p ==> look_of(es, os[(#[trigger] before[a]) as int]) >= lk,
                    p < before.len() ==> look_of(es, os[before[p as int] as int]) < lk,
                decreases tier@.len() - p,
            {
                let here = look_at(effects, owners[tier[p]]);
                if here < lk {
                    break;
                }
                p += 1;
            }
            proof {
                if p < before.len() {
                    assert forall|b: int| p <= b < before.len() implies look_of(
                        es,
                        os[(#[trigger] before[b]) as int],
                    ) < lk by {
                        if b > p {
                            assert(plays_before(
                                look_of(es, os[before[p as int] as int]),
                                before[p as int] as int,
                                look_of(es, os[before[b] as int]),
                                before[b] as int,
                            ));
                        }
                    }
                }
            }
            tier.insert(p, g);
            claimed.set(g, true);
            proof {
                let now = tier@;
                assert(now == before.insert(p as int, g));
                assert forall|a: int, b: int| 0 <= a < b < now.len() implies plays_before(
                    look_of(es, os[(#[trigger] now[a]) as int]),
                    now[a] as int,
                    look_of(es, os[(#[trigger] now[b]) as int]),
                    now[b] as int,
                ) by {
                    if b < p {
                        assert(now[a] == before[a] && now[b] == before[b]);
                    } else if b == p {
                        assert(now[a] == before[a]);
                    } else if a < p {
                        assert(now[a] == before[a] && now[b] == before[b - 1]);
                    } else if a == p {
                        assert(now[b] == before[b - 1]);
                    } else {
                        assert(now[a] == before[a - 1] && now[b] == before[b - 1]);
                    }
                }
                assert forall|x: int|
                    0 <= x < g + 1 && #[trigger] in_tier(ms, any_land, qs, j as int, x)
                        implies now.contains(x as usize) by {
                    if x == g {
                        assert(now[p as int] == g);
                    } else {
                        assert(before.contains(x as usize));
                        let k = choose|k: int| 0 <= k < before.len() && before[k] == x as usize;
                        if k < p {
                            assert(now[k] == x as usize);
                        } else {
                            assert(now[k + 1] == x as usize);
                        }
                    }
                }
                assert forall|a: int| 0 <= a < now.len() implies (#[trigger] now[a]) < g + 1
                    && in_tier(ms, any_land, qs, j as int, now[a] as int) by {
                    if a < p {
                        assert(now[a] == before[a]);
                    } else if a > p {
                        assert(now[a] == before[a - 1]);
                    }
                }
                assert(claimed_by(ms, any_land, qs, j + 1, g as int)) by {
                    assert(has_query(ms[g as int], qs[j as int] as int));
                }
            }
        } else {
            proof {
                assert(claimed@[g as int] == claimed_by(ms, any_land, qs, j + 1, g as int)) by {
                    if claimed_by(ms, any_land, qs, j + 1, g as int) && !taken {
                        let i = choose|i: int| 0 <= i < j + 1 && has_query(ms[g as int], #[trigger] qs[i] as int);
                        if i < j {
                            assert(claimed_by(ms, any_land, qs, j as int, g as int));
                        }
                    }
                    if taken {
                        let i = choose|i: int| 0 <= i < j && has_query(ms[g as int], #[trigger] qs[i] as int);
                        assert(0 <= i < j + 1);
                    }
                }
                assert forall|x: int|
                    0 <= x < g + 1 && #[trigger] in_tier(ms, any_land, qs, j as int, x)
                        implies tier@.contains(x as usize) by {
                    if x == g {
                        if taken {
                            let i = choose|i: int| 0 <= i < j && has_query(ms[g as int], #[trigger] qs[i] as int);
                            assert(!has_query(ms[g as int], qs[i] as int));
                        }
                    }
                }
            }
        }
        g += 1;
    }
    tier
}

/// How many times group `g` occurs in `s`.
pub open spec fn occ(s: Seq<usize>, g: int) -> int
    decreases s.len(),
{
    if s.len() == 0 {
        0
    } else {
        occ(s.drop_last(), g) + if s.last() as int == g {
            1int
        } else {
            0int
        }
    }
}

pub(crate) proof fn lemma_occ_nonneg(s: Seq<usize>, g: int)
    ensures
        occ(s, g) >= 0,
    decreases s.len(),
{
    if s.len() > 0 {
        lemma_occ_nonneg(s.drop_last(), g);
    }
}

pub(crate) proof fn lemma_occ_push(s: Seq<usize>, x: usize, g: int)
    ensures
        occ(s.push(x), g) == occ(s, g) + if x as int == g {
            1int
        } else {
            0int
        },
{
    assert(s.push(x).drop_last() =~= s);
}

proof fn lemma_occ_remove(s: Seq<usize>, i: int, g: int)
    requires
        0 <= i < s.len(),
    ensures
        occ(s.remove(i), g) == occ(s, g) - if s[i] as int == g {
            1int
        } else {
            0int
        },
    decreases s.len(),
{
    if i == s.len() - 1 {
        assert(s.remove(i) =~= s.drop_last());
    } else {
        lemma_occ_remove(s.drop_last(), i, g);
        assert(s.remove(i) =~= s.drop_last().remove(i).push(s.last()));
        lemma_occ_push(s.drop_last().remove(i), s.last(), g);
    }
}

/// The top of the library during a walk: `fresh` is every card revealed so
/// far in reveal order, of which the first `head` have left the top, and
/// `kept` is what looks left on top, above everything in `fresh`.
struct Top {
    fresh: Vec<usize>,
    head: usize,
    kept: Vec<usize>,
}

impl Top {
    /// Revealed cards no draw or look has reached yet.
    spec fn pending(self) -> Seq<usize> {
        self.fresh@.subrange(self.head as int, self.fresh@.len() as int)
    }

    /// Every revealed card of group `g` is in hand, in the yard, kept on top
    /// or still waiting on top.
    spec fn tally(self, hand: Seq<u32>, yard: Seq<u32>, g: int) -> int {
        hand[g] + yard[g] + occ(self.kept@, g) + occ(self.pending(), g)
    }

    /// The cards on top, in the order they come off: what looks kept, then
    /// what is waiting.
    spec fn stack(self) -> Seq<usize> {
        self.kept@ + self.pending()
    }

    spec fn conserved(self, hand: Seq<u32>, yard: Seq<u32>, seen: Seq<u32>) -> bool {
        &&& hand.len() == seen.len()
        &&& yard.len() == seen.len()
        &&& self.head <= self.fresh@.len()
        &&& forall|i: int| 0 <= i < self.fresh@.len() ==> (#[trigger] self.fresh@[i]) < seen.len()
        &&& forall|i: int| 0 <= i < self.kept@.len() ==> (#[trigger] self.kept@[i]) < seen.len()
        &&& forall|g: int| 0 <= g < seen.len() ==> #[trigger] self.tally(hand, yard, g) == seen[g]
    }
}

proof fn lemma_tally_parts(top: Top, hand: Seq<u32>, yard: Seq<u32>, g: int)
    ensures
        occ(top.kept@, g) >= 0,
        occ(top.pending(), g) >= 0,
        hand[g] + yard[g] <= top.tally(hand, yard, g),
{
    lemma_occ_nonneg(top.kept@, g);
    lemma_occ_nonneg(top.pending(), g);
}

/// The cards checkpoint `c` of the cumulative counts `h` reveals among the
/// first `g` groups, group by group: as many of each as it has more by `c`
/// than by the checkpoint before.
pub open spec fn revealed_at(h: Seq<Seq<u32>>, c: int, g: int) -> Seq<usize>
    decreases g,
{
    if g <= 0 {
        Seq::empty()
    } else {
        let before: int = if c == 0 {
            0
        } else {
            h[c - 1][g - 1] as int
        };
        revealed_at(h, c, g - 1) + Seq::new(
            (h[c][g - 1] - before) as nat,
            |i: int| (g - 1) as usize,
        )
    }
}

/// The cards checkpoints `first` through `last` reveal, in order.
pub open spec fn revealed_over(h: Seq<Seq<u32>>, first: int, last: int, groups: int) -> Seq<usize>
    decreases last - first + 1,
{
    if last < first {
        Seq::empty()
    } else {
        revealed_over(h, first, last - 1, groups) + revealed_at(h, last, groups)
    }
}

proof fn lemma_occ_concat(a: Seq<usize>, b: Seq<usize>, g: int)
    ensures
        occ(a + b, g) == occ(a, g) + occ(b, g),
    decreases b.len(),
{
    if b.len() == 0 {
        assert(a + b =~= a);
    } else {
        lemma_occ_concat(a, b.drop_last(), g);
        assert((a + b).drop_last() =~= a + b.drop_last());
    }
}

proof fn lemma_occ_repeat(s: Seq<usize>, x: usize, g: int)
    requires
        forall|i: int| 0 <= i < s.len() ==> #[trigger] s[i] == x,
    ensures
        occ(s, g) == if x as int == g {
            s.len() as int
        } else {
            0int
        },
    decreases s.len(),
{
    if s.len() > 0 {
        lemma_occ_repeat(s.drop_last(), x, g);
    }
}

/// Checkpoint `c` reveals, of each group among the first `n`, as many cards
/// as that group has more by `c` than by the checkpoint before.
proof fn lemma_occ_revealed(h: Seq<Seq<u32>>, c: int, n: int, g: int)
    requires
        0 <= g < n <= usize::MAX,
        forall|k: int|
            0 <= k < n ==> (if c == 0 {
                0int
            } else {
                h[c - 1][k] as int
            }) <= #[trigger] h[c][k],
    ensures
        occ(revealed_at(h, c, n), g) == h[c][g] - if c == 0 {
            0int
        } else {
            h[c - 1][g] as int
        },
    decreases n,
{
    let before: int = if c == 0 {
        0
    } else {
        h[c - 1][n - 1] as int
    };
    let tail = Seq::new((h[c][n - 1] - before) as nat, |i: int| (n - 1) as usize);
    assert(revealed_at(h, c, n) == revealed_at(h, c, n - 1) + tail);
    assert(before <= h[c][n - 1]);
    lemma_occ_concat(revealed_at(h, c, n - 1), tail, g);
    lemma_occ_repeat(tail, (n - 1) as usize, g);
    if g < n - 1 {
        lemma_occ_revealed(h, c, n - 1, g);
        assert(occ(tail, g) == 0);
        assert(occ(revealed_at(h, c, n), g) == occ(revealed_at(h, c, n - 1), g));
    } else {
        lemma_occ_absent_revealed(h, c, n - 1, g);
        assert(occ(tail, g) == h[c][n - 1] - before);
    }
}

proof fn lemma_occ_absent_revealed(h: Seq<Seq<u32>>, c: int, n: int, g: int)
    requires
        0 <= n <= g,
        n <= usize::MAX,
    ensures
        occ(revealed_at(h, c, n), g) == 0,
    decreases n,
{
    if n > 0 {
        let before: int = if c == 0 {
            0
        } else {
            h[c - 1][n - 1] as int
        };
        let tail = Seq::new((h[c][n - 1] - before) as nat, |i: int| (n - 1) as usize);
        assert(revealed_at(h, c, n) == revealed_at(h, c, n - 1) + tail);
        lemma_occ_concat(revealed_at(h, c, n - 1), tail, g);
        lemma_occ_repeat(tail, (n - 1) as usize, g);
        lemma_occ_absent_revealed(h, c, n - 1, g);
    }
}

/// Reveal checkpoint `c`: every card it adds, in group order, goes on the
/// bottom of what is waiting.
fn reveal_checkpoint(top: &mut Top, hand: &Vec<u32>, yard: &Vec<u32>, history: &[Vec<u32>], c: usize)
    requires
        c < history@.len(),
        history@[c as int]@.len() == hand@.len(),
        c > 0 ==> history@[c - 1]@.len() == hand@.len(),
        c > 0 ==> forall|g: int|
            0 <= g < hand@.len() ==> #[trigger] history@[c - 1]@[g] <= history@[c as int]@[g],
        old(top).conserved(
            hand@,
            yard@,
            if c == 0 {
                Seq::new(hand@.len(), |i: int| 0u32)
            } else {
                history@[c - 1]@
            },
        ),
    ensures
        final(top).conserved(hand@, yard@, history@[c as int]@),
        final(top).kept@ == old(top).kept@,
        final(top).head == old(top).head,
        final(top).fresh@ == old(top).fresh@ + revealed_at(rows(history@), c as int, hand@.len() as int),
{
    let ghost start = top.fresh@;
    let ghost h = rows(history@);
    let ghost base = if c == 0 {
        Seq::new(hand@.len(), |i: int| 0u32)
    } else {
        history@[c - 1]@
    };
    let ghost now = history@[c as int]@;
    let groups = hand.len();
    let mut g: usize = 0;
    while g < groups
        invariant
            g <= groups,
            groups == hand@.len(),
            c < history@.len(),
            now == history@[c as int]@,
            now.len() == groups,
            base.len() == groups,
            forall|x: int| 0 <= x < groups ==> #[trigger] base[x] <= now[x],
            base == if c == 0 {
                Seq::new(hand@.len(), |i: int| 0u32)
            } else {
                history@[c - 1]@
            },
            top.head <= start.len(),
            top.kept@ == old(top).kept@,
            top.head == old(top).head,
            top.fresh@.subrange(0, start.len() as int) == start,
            start == old(top).fresh@,
            top.fresh@.len() >= start.len(),
            h == rows(history@),
            top.fresh@ == start + revealed_at(h, c as int, g as int),
            forall|i: int| 0 <= i < top.fresh@.len() ==> (#[trigger] top.fresh@[i]) < groups,
            forall|i: int| 0 <= i < top.kept@.len() ==> (#[trigger] top.kept@[i]) < groups,
            forall|x: int|
                0 <= x < groups ==> #[trigger] top.tally(hand@, yard@, x) == if x < g {
                    now[x] as int
                } else {
                    base[x] as int
                },
        decreases groups - g,
    {
        let before: u32 = if c == 0 {
            0
        } else {
            history[c - 1][g]
        };
        let total: u32 = history[c][g];
        let mut k: u32 = before;
        while k < total
            invariant
                before <= k <= total,
                g < groups,
                total == now[g as int],
                before == base[g as int],
                top.head <= start.len(),
                top.kept@ == old(top).kept@,
                top.head == old(top).head,
                top.fresh@.subrange(0, start.len() as int) == start,
                top.fresh@.len() >= start.len(),
                h == rows(history@),
                top.fresh@ == start + revealed_at(h, c as int, g as int) + Seq::new(
                    (k - before) as nat,
                    |i: int| g,
                ),
                forall|i: int| 0 <= i < top.fresh@.len() ==> (#[trigger] top.fresh@[i]) < groups,
                forall|x: int|
                    0 <= x < groups ==> #[trigger] top.tally(hand@, yard@, x) == if x < g {
                        now[x] as int
                    } else if x == g {
                        k as int
                    } else {
                        base[x] as int
                    },
            decreases total - k,
        {
            let ghost pend = top.pending();
            let ghost fr = top.fresh@;
            let ghost top0: Top = *top;
            top.fresh.push(g);
            proof {
                assert(Seq::new((k + 1 - before) as nat, |i: int| g) =~= Seq::new(
                    (k - before) as nat,
                    |i: int| g,
                ).push(g));
                assert(top.fresh@ =~= start + revealed_at(h, c as int, g as int) + Seq::new(
                    (k + 1 - before) as nat,
                    |i: int| g,
                ));
                assert(top.pending() =~= pend.push(g));
                assert(top.fresh@.subrange(0, start.len() as int) =~= fr.subrange(
                    0,
                    start.len() as int,
                ));
                assert forall|x: int| 0 <= x < groups implies #[trigger] top.tally(hand@, yard@, x)
                    == if x < g {
                    now[x] as int
                } else if x == g {
                    k + 1
                } else {
                    base[x] as int
                } by {
                    lemma_occ_push(pend, g, x);
                    assert(top0.tally(hand@, yard@, x) == if x < g {
                        now[x] as int
                    } else if x == g {
                        k as int
                    } else {
                        base[x] as int
                    });
                }
            }
            k += 1;
        }
        proof {
            assert(h[c as int] == history@[c as int]@);
            if c > 0 {
                assert(h[c - 1] == history@[c - 1]@);
            }
            assert(revealed_at(h, c as int, g + 1) == revealed_at(h, c as int, g as int) + Seq::new(
                (total - before) as nat,
                |i: int| g,
            ));
            assert(top.fresh@ =~= start + revealed_at(h, c as int, g + 1));
        }
        g += 1;
    }
}

/// Draw up to `n` cards: whatever a look kept on top first, then what is
/// waiting, stopping when the library is empty.
fn draw(top: &mut Top, hand: &mut Vec<u32>, yard: &Vec<u32>, n: u32, Ghost(seen): Ghost<Seq<u32>>)
    requires
        old(top).conserved(old(hand)@, yard@, seen),
    ensures
        final(top).conserved(final(hand)@, yard@, seen),
        forall|g: int| 0 <= g < seen.len() ==> old(hand)@[g] <= #[trigger] final(hand)@[g],
        final(top).fresh@ == old(top).fresh@,
        ({
            let m = if n < old(top).stack().len() {
                n as int
            } else {
                old(top).stack().len() as int
            };
            let k = old(top).kept@.len() as int;
            let off = if m < k {
                m
            } else {
                k
            };
            &&& final(top).kept@ == old(top).kept@.subrange(off, k)
            &&& final(top).head == old(top).head + (m - off)
            &&& forall|g: int|
                0 <= g < seen.len() ==> #[trigger] final(hand)@[g] == old(hand)@[g] + occ(
                    old(top).stack().take(m),
                    g,
                )
        }),
{
    let ghost h0 = hand@;
    let ghost t0: Top = *top;
    let ghost s0 = t0.stack();
    let ghost k0 = t0.kept@.len() as int;
    let mut d: u32 = 0;
    proof {
        assert(t0.kept@.subrange(0, k0) =~= t0.kept@);
        assert forall|g: int| 0 <= g < seen.len() implies #[trigger] hand@[g] == h0[g] + occ(
            s0.take(0),
            g,
        ) by {
            assert(s0.take(0) =~= Seq::<usize>::empty());
        }
    }
    while d < n
        invariant
            top.conserved(hand@, yard@, seen),
            forall|g: int| 0 <= g < seen.len() ==> h0[g] <= #[trigger] hand@[g],
            d <= n,
            d <= s0.len(),
            s0 == t0.stack(),
            k0 == t0.kept@.len(),
            top.fresh@ == t0.fresh@,
            t0.head <= t0.fresh@.len(),
            top.kept@ == t0.kept@.subrange(
                if d < k0 {
                    d as int
                } else {
                    k0
                },
                k0,
            ),
            top.head == t0.head + (d - if d < k0 {
                d as int
            } else {
                k0
            }),
            forall|g: int|
                0 <= g < seen.len() ==> #[trigger] hand@[g] == h0[g] + occ(s0.take(d as int), g),
        ensures
            d == n || d == s0.len(),
        decreases n - d,
    {
        if top.kept.len() > 0 {
            let ghost top0: Top = *top;
            let ghost h1 = hand@;
            let group = top.kept.remove(0);
            proof {
                assert(top0.tally(h1, yard@, group as int) == seen[group as int]);
                lemma_occ_remove(top0.kept@, 0, group as int);
                lemma_occ_nonneg(top.kept@, group as int);
                lemma_occ_nonneg(top.pending(), group as int);
                assert(d < k0);
                assert(group == s0[d as int]);
                assert(top.kept@ =~= t0.kept@.subrange(d + 1, k0));
                assert(s0.take(d + 1) =~= s0.take(d as int).push(s0[d as int]));
            }
            hand.set(group, hand[group] + 1);
            proof {
                assert forall|g: int| 0 <= g < seen.len() implies #[trigger] hand@[g] == h0[g] + occ(
                    s0.take(d + 1),
                    g,
                ) by {
                    lemma_occ_push(s0.take(d as int), group, g);
                }
                assert forall|x: int| 0 <= x < seen.len() implies #[trigger] top.tally(
                    hand@,
                    yard@,
                    x,
                ) == seen[x] by {
                    assert(top0.tally(h1, yard@, x) == seen[x]);
                    lemma_occ_remove(top0.kept@, 0, x);
                }
                assert forall|i: int| 0 <= i < top.kept@.len() implies (#[trigger] top.kept@[i])
                    < seen.len() by {
                    assert(top.kept@[i] == top0.kept@[i + 1]);
                }
            }
        } else if top.head < top.fresh.len() {
            let ghost top0: Top = *top;
            let ghost h1 = hand@;
            let ghost pend = top.pending();
            let group = top.fresh[top.head];
            top.head = top.head + 1;
            proof {
                assert(top.pending() =~= pend.remove(0));
                assert(top0.tally(h1, yard@, group as int) == seen[group as int]);
                lemma_occ_remove(pend, 0, group as int);
                lemma_occ_nonneg(top.kept@, group as int);
                lemma_occ_nonneg(top.pending(), group as int);
                assert(d >= k0);
                assert(s0[d as int] == t0.fresh@[t0.head + (d - k0)]);
                assert(group == s0[d as int]);
                assert(t0.kept@.subrange(k0, k0) =~= top.kept@);
                assert(s0.take(d + 1) =~= s0.take(d as int).push(s0[d as int]));
            }
            hand.set(group, hand[group] + 1);
            proof {
                assert forall|g: int| 0 <= g < seen.len() implies #[trigger] hand@[g] == h0[g] + occ(
                    s0.take(d + 1),
                    g,
                ) by {
                    lemma_occ_push(s0.take(d as int), group, g);
                }
                assert forall|x: int| 0 <= x < seen.len() implies #[trigger] top.tally(
                    hand@,
                    yard@,
                    x,
                ) == seen[x] by {
                    assert(top0.tally(h1, yard@, x) == seen[x]);
                    lemma_occ_remove(pend, 0, x);
                }
            }
        } else {
            proof {
                assert(top.kept@.len() == 0);
                assert(d >= k0);
                assert(d == s0.len());
            }
            break;
        }
        d += 1;
    }
}

/// What `k` more examinations of a look do, from position `i` of what is
/// kept on top with `pending` waiting below it: what is kept afterwards, how
/// many waiting cards were taken, and the cards sent to the yard, in order.
/// A kept card is examined where it stands and stays unless routed; a
/// waiting card that is not routed joins the kept ones and is itself
/// examined next; the look ends early when the library is empty.
pub open spec fn look_run(kept: Seq<usize>, pending: Seq<usize>, i: int, routed: Seq<bool>, k: nat) -> (
    Seq<usize>,
    int,
    Seq<usize>,
)
    decreases k,
{
    if k == 0 {
        (kept, 0, Seq::empty())
    } else if 0 <= i < kept.len() {
        let g = kept[i];
        if routed[g as int] {
            let r = look_run(kept.remove(i), pending, i, routed, (k - 1) as nat);
            (r.0, r.1, seq![g] + r.2)
        } else {
            look_run(kept, pending, i + 1, routed, (k - 1) as nat)
        }
    } else if pending.len() > 0 {
        let g = pending[0];
        if routed[g as int] {
            let r = look_run(kept, pending.drop_first(), i, routed, (k - 1) as nat);
            (r.0, r.1 + 1, seq![g] + r.2)
        } else {
            let r = look_run(kept.push(g), pending.drop_first(), i, routed, (k - 1) as nat);
            (r.0, r.1 + 1, r.2)
        }
    } else {
        (kept, 0, Seq::empty())
    }
}

/// Examine the top `n` cards and send each where `routed` says: to the yard,
/// or back on top. What earlier looks kept is the top, so it is seen first.
fn look(
    top: &mut Top,
    hand: &Vec<u32>,
    yard: &mut Vec<u32>,
    routed: &Vec<bool>,
    n: u32,
    Ghost(seen): Ghost<Seq<u32>>,
)
    requires
        old(top).conserved(hand@, old(yard)@, seen),
        routed@.len() == seen.len(),
    ensures
        final(top).conserved(hand@, final(yard)@, seen),
        forall|g: int| 0 <= g < seen.len() ==> old(yard)@[g] <= #[trigger] final(yard)@[g],
        (forall|g: int| 0 <= g < seen.len() ==> !(#[trigger] routed@[g])) ==> final(yard)@ == old(
            yard,
        )@,
        final(top).fresh@ == old(top).fresh@,
        old(top).head <= final(top).head,
        ({
            let r = look_run(old(top).kept@, old(top).pending(), 0, routed@, n as nat);
            &&& final(top).kept@ == r.0
            &&& final(top).head == old(top).head + r.1
            &&& forall|g: int|
                0 <= g < seen.len() ==> #[trigger] final(yard)@[g] == old(yard)@[g] + occ(r.2, g)
        }),
{
    let ghost y0 = yard@;
    let ghost t0: Top = *top;
    let ghost r0 = look_run(t0.kept@, t0.pending(), 0, routed@, n as nat);
    let ghost mut sent: Seq<usize> = Seq::empty();
    let mut examined: u32 = 0;
    let mut i: usize = 0;
    proof {
        assert(sent + r0.2 =~= r0.2);
    }
    while examined < n
        invariant
            top.conserved(hand@, yard@, seen),
            routed@.len() == seen.len(),
            i <= top.kept@.len(),
            examined <= n,
            forall|g: int| 0 <= g < seen.len() ==> y0[g] <= #[trigger] yard@[g],
            (forall|g: int| 0 <= g < seen.len() ==> !(#[trigger] routed@[g])) ==> yard@ == y0,
            top.fresh@ == t0.fresh@,
            t0.head <= top.head,
            r0 == look_run(t0.kept@, t0.pending(), 0, routed@, n as nat),
            look_run(top.kept@, top.pending(), i as int, routed@, (n - examined) as nat).0 == r0.0,
            top.head - t0.head + look_run(
                top.kept@,
                top.pending(),
                i as int,
                routed@,
                (n - examined) as nat,
            ).1 == r0.1,
            sent + look_run(top.kept@, top.pending(), i as int, routed@, (n - examined) as nat).2
                == r0.2,
            forall|g: int| 0 <= g < seen.len() ==> #[trigger] yard@[g] == y0[g] + occ(sent, g),
        ensures
            top.kept@ == r0.0,
            top.head == t0.head + r0.1,
            sent == r0.2,
        decreases n - examined,
    {
        let ghost top0: Top = *top;
        let ghost y1 = yard@;
        let ghost k: nat = (n - examined) as nat;
        let ghost cur = look_run(top0.kept@, top0.pending(), i as int, routed@, k);
        if i < top.kept.len() {
            let group = top.kept[i];
            if routed[group] {
                let _ = top.kept.remove(i);
                proof {
                    assert(top0.tally(hand@, y1, group as int) == seen[group as int]);
                    lemma_occ_remove(top0.kept@, i as int, group as int);
                    lemma_occ_nonneg(top.kept@, group as int);
                    lemma_occ_nonneg(top.pending(), group as int);
                }
                yard.set(group, yard[group] + 1);
                proof {
                    assert forall|x: int| 0 <= x < seen.len() implies #[trigger] top.tally(
                        hand@,
                        yard@,
                        x,
                    ) == seen[x] by {
                        assert(top0.tally(hand@, y1, x) == seen[x]);
                        lemma_occ_remove(top0.kept@, i as int, x);
                    }
                    assert forall|j: int| 0 <= j < top.kept@.len() implies (#[trigger] top.kept@[j])
                        < seen.len() by {
                        if j < i {
                            assert(top.kept@[j] == top0.kept@[j]);
                        } else {
                            assert(top.kept@[j] == top0.kept@[j + 1]);
                        }
                    }
                    let next = look_run(top.kept@, top.pending(), i as int, routed@, (k - 1) as nat);
                    assert(cur == (next.0, next.1, seq![group] + next.2));
                    assert(sent.push(group) + next.2 =~= sent + (seq![group] + next.2));
                    assert forall|x: int| 0 <= x < seen.len() implies #[trigger] yard@[x] == y0[x]
                        + occ(sent.push(group), x) by {
                        lemma_occ_push(sent, group, x);
                    }
                    sent = sent.push(group);
                }
            } else {
                i += 1;
                proof {
                    assert(cur == look_run(top.kept@, top.pending(), i as int, routed@, (k - 1) as nat));
                }
            }
        } else if top.head < top.fresh.len() {
            let ghost pend = top.pending();
            let group = top.fresh[top.head];
            top.head = top.head + 1;
            proof {
                assert(top.pending() =~= pend.remove(0));
                assert(top.pending() =~= pend.drop_first());
                assert(top0.tally(hand@, y1, group as int) == seen[group as int]);
                lemma_occ_remove(pend, 0, group as int);
                lemma_occ_nonneg(top.kept@, group as int);
                lemma_occ_nonneg(top.pending(), group as int);
                assert(group == pend[0]);
            }
            if routed[group] {
                yard.set(group, yard[group] + 1);
                proof {
                    assert forall|x: int| 0 <= x < seen.len() implies #[trigger] top.tally(
                        hand@,
                        yard@,
                        x,
                    ) == seen[x] by {
                        assert(top0.tally(hand@, y1, x) == seen[x]);
                        lemma_occ_remove(pend, 0, x);
                    }
                    let next = look_run(top.kept@, top.pending(), i as int, routed@, (k - 1) as nat);
                    assert(cur == (next.0, next.1 + 1, seq![group] + next.2));
                    assert(sent.push(group) + next.2 =~= sent + (seq![group] + next.2));
                    assert forall|x: int| 0 <= x < seen.len() implies #[trigger] yard@[x] == y0[x]
                        + occ(sent.push(group), x) by {
                        lemma_occ_push(sent, group, x);
                    }
                    sent = sent.push(group);
                }
            } else {
                let ghost kept = top.kept@;
                top.kept.push(group);
                proof {
                    assert forall|x: int| 0 <= x < seen.len() implies #[trigger] top.tally(
                        hand@,
                        yard@,
                        x,
                    ) == seen[x] by {
                        assert(top0.tally(hand@, y1, x) == seen[x]);
                        lemma_occ_remove(pend, 0, x);
                        lemma_occ_push(kept, group, x);
                    }
                    let next = look_run(top.kept@, top.pending(), i as int, routed@, (k - 1) as nat);
                    assert(cur == (next.0, next.1 + 1, next.2));
                }
            }
        } else {
            proof {
                assert(top.pending().len() == 0);
                assert(cur == (top.kept@, 0int, Seq::<usize>::empty()));
                assert(sent + Seq::<usize>::empty() =~= sent);
            }
            break;
        }
        examined += 1;
    }
}

/// What drawing `n` cards does to the top of the library, kept cards
/// first and then what is waiting, stopping when it is empty: what stays
/// kept, what still waits, and the cards drawn, in order.
pub open spec fn drawn_from(kept: Seq<usize>, pending: Seq<usize>, n: int) -> (
    Seq<usize>,
    Seq<usize>,
    Seq<usize>,
) {
    let stack = kept + pending;
    let m = if n < stack.len() {
        n
    } else {
        stack.len() as int
    };
    let off = if m < kept.len() {
        m
    } else {
        kept.len() as int
    };
    (kept.subrange(off, kept.len() as int), pending.subrange(m - off, pending.len() as int), stack.take(m))
}

/// What the look of effect `fire`, if one fires, does to the top of the
/// library: what stays kept, what still waits, and the cards sent to the
/// yard, in order.
pub open spec fn looked(
    kept: Seq<usize>,
    pending: Seq<usize>,
    fire: Option<usize>,
    routed: Seq<Seq<bool>>,
    effects: Seq<Effect>,
) -> (Seq<usize>, Seq<usize>, Seq<usize>) {
    match fire {
        Some(e) => {
            let r = look_run(kept, pending, 0, routed[e as int], effects[e as int].look as nat);
            (r.0, pending.subrange(r.1, pending.len() as int), r.2)
        },
        None => (kept, pending, Seq::empty()),
    }
}

/// Which effect's look a turn's land drop fires, and the effects' fire
/// counts after it: under a declared priority, the effect of the land it
/// played; otherwise the best drop among the effects, which counts one more
/// firing.
pub open spec fn fires_ok(
    tiers: Option<Seq<Seq<usize>>>,
    owners: Seq<Option<usize>>,
    effects: Seq<Effect>,
    hand: Seq<u32>,
    before: Seq<u32>,
    after: Seq<u32>,
    drop: Option<usize>,
    fire: Option<usize>,
) -> bool {
    match tiers {
        Some(_) => {
            &&& fire == match drop {
                Some(g) => owners[g as int],
                None => None,
            }
            &&& after == before
        },
        None => {
            &&& is_best_drop(owners, effects, hand, before, fire)
            &&& after == match fire {
                Some(i) => before.update(i as int, (before[i as int] + 1) as u32),
                None => before,
            }
        },
    }
}

/// The tiers of a priority, as sequences.
pub open spec fn tier_rows(t: Seq<Vec<usize>>) -> Seq<Seq<usize>> {
    t.map_values(|r: Vec<usize>| r@)
}

/// Cards in `hand` of the first `n` groups that carry effect `e`.
pub open spec fn owned(owners: Seq<Option<usize>>, hand: Seq<u32>, e: int, n: int) -> int
    decreases n,
{
    if n <= 0 {
        0
    } else {
        owned(owners, hand, e, n - 1) + if owners[n - 1] == Some(e as usize) {
            hand[n - 1] as int
        } else {
            0int
        }
    }
}

/// Lands in `hand` among the first `n` groups.
pub open spec fn land_held(mana: Seq<ManaSource>, hand: Seq<u32>, n: int) -> int
    decreases n,
{
    if n <= 0 {
        0
    } else {
        land_held(mana, hand, n - 1) + if mana[n - 1] is Land {
            hand[n - 1] as int
        } else {
            0int
        }
    }
}

/// Whether effect `e` has a land in hand that has not been played yet.
pub open spec fn can_fire(owners: Seq<Option<usize>>, hand: Seq<u32>, played: Seq<u32>, e: int) -> bool {
    owned(owners, hand, e, owners.len() as int) > played[e]
}

/// The effect whose land an undeclared run plays: the deepest look among
/// those that can fire, ties to the later one.
pub open spec fn is_best_drop(
    owners: Seq<Option<usize>>,
    effects: Seq<Effect>,
    hand: Seq<u32>,
    played: Seq<u32>,
    r: Option<usize>,
) -> bool {
    match r {
        Some(i) => i < effects.len() && can_fire(owners, hand, played, i as int) && forall|j: int|
            0 <= j < effects.len() && #[trigger] can_fire(owners, hand, played, j) ==> (j < i
                ==> effects[j].look <= effects[i as int].look) && (j > i ==> effects[j].look
                < effects[i as int].look),
        None => forall|j: int|
            0 <= j < effects.len() ==> !#[trigger] can_fire(owners, hand, played, j),
    }
}

/// At most one effect is the best drop.
proof fn lemma_best_drop_unique(
    owners: Seq<Option<usize>>,
    effects: Seq<Effect>,
    hand: Seq<u32>,
    played: Seq<u32>,
    a: Option<usize>,
    b: Option<usize>,
)
    requires
        is_best_drop(owners, effects, hand, played, a),
        is_best_drop(owners, effects, hand, played, b),
    ensures
        a == b,
{
    match (a, b) {
        (Some(i), Some(j)) => {
            assert(can_fire(owners, hand, played, i as int));
            assert(can_fire(owners, hand, played, j as int));
        },
        (Some(i), None) => {
            assert(can_fire(owners, hand, played, i as int));
        },
        (None, Some(j)) => {
            assert(can_fire(owners, hand, played, j as int));
        },
        (None, None) => {},
    }
}

proof fn lemma_sum_pointwise(a: Seq<u32>, b: Seq<u32>, n: int)
    requires
        0 <= n <= a.len(),
        n <= b.len(),
        forall|i: int| 0 <= i < n ==> #[trigger] a[i] <= b[i],
    ensures
        sum_of(a, n) <= sum_of(b, n),
    decreases n,
{
    if n > 0 {
        lemma_sum_pointwise(a, b, n - 1);
    }
}

proof fn lemma_owned_bounds(owners: Seq<Option<usize>>, hand: Seq<u32>, e: int, n: int)
    requires
        0 <= n <= hand.len(),
        n <= owners.len(),
    ensures
        0 <= owned(owners, hand, e, n) <= sum_of(hand, n),
    decreases n,
{
    if n > 0 {
        lemma_owned_bounds(owners, hand, e, n - 1);
    }
}

proof fn lemma_land_held_bounds(mana: Seq<ManaSource>, hand: Seq<u32>, n: int)
    requires
        0 <= n <= hand.len(),
        n <= mana.len(),
    ensures
        0 <= land_held(mana, hand, n) <= sum_of(hand, n),
    decreases n,
{
    if n > 0 {
        lemma_land_held_bounds(mana, hand, n - 1);
    }
}

/// Which group the declared priority plays: the first group in tier order
/// holding more cards in hand than it has played.
fn declared_drop(tiers: &Vec<Vec<usize>>, hand: &Vec<u32>, played: &Vec<u32>) -> (r: Option<usize>)
    requires
        hand@.len() == played@.len(),
        forall|j: int, i: int|
            0 <= j < tiers@.len() && 0 <= i < tiers@[j]@.len() ==> #[trigger] tiers@[j]@[i]
                < hand@.len(),
    ensures
        r == first_playable(tier_rows(tiers@), hand@, played@, tiers@.len() as int),
        r matches Some(g) ==> g < hand@.len() && hand@[g as int] > played@[g as int],
{
    let ghost ts = tier_rows(tiers@);
    let mut j: usize = 0;
    while j < tiers.len()
        invariant
            j <= tiers@.len(),
            ts == tier_rows(tiers@),
            hand@.len() == played@.len(),
            forall|a: int, b: int|
                0 <= a < tiers@.len() && 0 <= b < tiers@[a]@.len() ==> #[trigger] tiers@[a]@[b]
                    < hand@.len(),
            first_playable(ts, hand@, played@, j as int) is None,
        decreases tiers@.len() - j,
    {
        let tier = &tiers[j];
        let ghost row = ts[j as int];
        assert(row == tier@);
        let mut i: usize = 0;
        while i < tier.len()
            invariant
                i <= tier@.len(),
                j < tiers@.len(),
                row == tier@,
                ts == tier_rows(tiers@),
                row == ts[j as int],
                hand@.len() == played@.len(),
                forall|k: int| 0 <= k < tier@.len() ==> #[trigger] tier@[k] < hand@.len(),
                first_in_tier(row, hand@, played@, i as int) is None,
                first_playable(ts, hand@, played@, j as int) is None,
            decreases tier@.len() - i,
        {
            let g = tier[i];
            if hand[g] > played[g] {
                proof {
                    assert(first_in_tier(row, hand@, played@, (i + 1) as int) == Some(g));
                    lemma_first_in_tier_stays(row, hand@, played@, (i + 1) as int, row.len() as int);
                    assert(ts[(j + 1) - 1] == row);
                    assert(first_in_tier(row, hand@, played@, row.len() as int) == Some(g));
                    assert(first_playable(ts, hand@, played@, j as int) is None);
                    assert(first_playable(ts, hand@, played@, (j + 1) as int) == Some(g));
                    lemma_first_playable_stays(ts, hand@, played@, (j + 1) as int, ts.len() as int);
                }
                return Some(g);
            }
            i += 1;
        }
        proof {
            assert(ts[(j + 1) - 1] == row);
        }
        j += 1;
    }
    None
}

proof fn lemma_first_in_tier_stays(tier: Seq<usize>, hand: Seq<u32>, played: Seq<u32>, i: int, n: int)
    requires
        0 <= i <= n,
        first_in_tier(tier, hand, played, i) is Some,
    ensures
        first_in_tier(tier, hand, played, n) == first_in_tier(tier, hand, played, i),
    decreases n - i,
{
    if i < n {
        lemma_first_in_tier_stays(tier, hand, played, i, n - 1);
    }
}

proof fn lemma_first_playable_stays(
    tiers: Seq<Seq<usize>>,
    hand: Seq<u32>,
    played: Seq<u32>,
    i: int,
    n: int,
)
    requires
        0 <= i <= n,
        first_playable(tiers, hand, played, i) is Some,
    ensures
        first_playable(tiers, hand, played, n) == first_playable(tiers, hand, played, i),
    decreases n - i,
{
    if i < n {
        lemma_first_playable_stays(tiers, hand, played, i, n - 1);
    }
}

/// Which effect's land an undeclared run plays this turn, if any.
fn effect_drop(owners: &Vec<Option<usize>>, effects: &Vec<Effect>, hand: &Vec<u32>, played: &Vec<u32>) -> (r:
    Option<usize>)
    requires
        owners@.len() == hand@.len(),
        played@.len() == effects@.len(),
        sum_of(hand@, hand@.len() as int) <= u32::MAX,
    ensures
        is_best_drop(owners@, effects@, hand@, played@, r),
{
    let mut best: Option<usize> = None;
    let mut i: usize = 0;
    while i < effects.len()
        invariant
            i <= effects@.len(),
            owners@.len() == hand@.len(),
            played@.len() == effects@.len(),
            sum_of(hand@, hand@.len() as int) <= u32::MAX,
            match best {
                Some(b) => b < i && can_fire(owners@, hand@, played@, b as int) && forall|j: int|
                    0 <= j < i && #[trigger] can_fire(owners@, hand@, played@, j) ==> (j < b
                        ==> effects@[j].look <= effects@[b as int].look) && (j > b
                        ==> effects@[j].look < effects@[b as int].look),
                None => forall|j: int| 0 <= j < i ==> !#[trigger] can_fire(owners@, hand@, played@, j),
            },
        decreases effects@.len() - i,
    {
        let mut in_hand: u32 = 0;
        let mut g: usize = 0;
        while g < owners.len()
            invariant
                g <= owners@.len(),
                owners@.len() == hand@.len(),
                sum_of(hand@, hand@.len() as int) <= u32::MAX,
                in_hand == owned(owners@, hand@, i as int, g as int),
            decreases owners@.len() - g,
        {
            proof {
                lemma_owned_bounds(owners@, hand@, i as int, (g + 1) as int);
                lemma_sum_prefix_le(hand@, (g + 1) as int, hand@.len() as int);
            }
            if owners[g] == Some(i) {
                in_hand = in_hand + hand[g];
            }
            g += 1;
        }
        if in_hand > played[i] {
            let take = match best {
                None => true,
                Some(b) => effects[i].look >= effects[b].look,
            };
            if take {
                best = Some(i);
            }
        }
        i += 1;
    }
    best
}

proof fn lemma_sum_prefix_le(s: Seq<u32>, i: int, n: int)
    requires
        0 <= i <= n <= s.len(),
    ensures
        0 <= sum_of(s, i) <= sum_of(s, n),
    decreases n - i,
{
    if i < n {
        lemma_sum_prefix_le(s, i, n - 1);
    } else {
        lemma_sum_nonneg(s, i);
    }
}

proof fn lemma_sum_nonneg(s: Seq<u32>, n: int)
    requires
        n <= s.len(),
    ensures
        sum_of(s, n) >= 0,
    decreases n,
{
    if n > 0 {
        lemma_sum_nonneg(s, n - 1);
    }
}

/// Lands held, over the land groups.
fn lands_held(mana: &Vec<ManaSource>, hand: &Vec<u32>) -> (r: u32)
    requires
        mana@.len() == hand@.len(),
        sum_of(hand@, hand@.len() as int) <= u32::MAX,
    ensures
        r == land_held(mana@, hand@, hand@.len() as int),
{
    let mut held: u32 = 0;
    let mut g: usize = 0;
    while g < hand.len()
        invariant
            g <= hand@.len(),
            mana@.len() == hand@.len(),
            sum_of(hand@, hand@.len() as int) <= u32::MAX,
            held == land_held(mana@, hand@, g as int),
        decreases hand@.len() - g,
    {
        proof {
            lemma_land_held_bounds(mana@, hand@, (g + 1) as int);
            lemma_sum_prefix_le(hand@, (g + 1) as int, hand@.len() as int);
        }
        if mana[g].is_land() {
            held = held + hand[g];
        }
        g += 1;
    }
    held
}

/// The played counts after a declared drop to `d`.
pub open spec fn advance(played: Seq<u32>, d: Option<usize>) -> Seq<u32> {
    match d {
        Some(g) => played.update(g as int, (played[g as int] + 1) as u32),
        None => played,
    }
}

/// What turn `t` of a walk did with the land drop: nothing on turn 0; where
/// a priority was declared, the first playable land in its order, one more
/// land on record and one more drop; where none was, no declared drop, and
/// one more drop if a land was in hand to make it.
pub open spec fn step_ok(
    tiers: Option<Seq<Seq<usize>>>,
    mana: Seq<ManaSource>,
    hand: Seq<Seq<u32>>,
    played_at: Seq<Seq<u32>>,
    drop_at: Seq<Option<usize>>,
    drops: Seq<u32>,
    t: int,
) -> bool {
    if t == 0 {
        &&& drops[0] == 0
        &&& drop_at[0] is None
        &&& forall|g: int| 0 <= g < played_at[0].len() ==> #[trigger] played_at[0][g] == 0
    } else {
        match tiers {
            Some(ts) => {
                &&& drop_at[t] == first_playable(ts, hand[t], played_at[t - 1], ts.len() as int)
                &&& played_at[t] == advance(played_at[t - 1], drop_at[t])
                &&& drops[t] == drops[t - 1] + if drop_at[t] is Some {
                    1int
                } else {
                    0int
                }
            },
            None => {
                &&& drop_at[t] is None
                &&& played_at[t] == played_at[t - 1]
                &&& drops[t] == min(land_held(mana, hand[t], hand[t].len() as int), drops[t - 1] + 1)
            },
        }
    }
}

/// A copy of `row`.
fn copy_row(row: &Vec<u32>) -> (r: Vec<u32>)
    ensures
        r@ == row@,
{
    let mut r: Vec<u32> = Vec::new();
    let mut i: usize = 0;
    while i < row.len()
        invariant
            i <= row@.len(),
            r@ =~= row@.subrange(0, i as int),
        decreases row@.len() - i,
    {
        r.push(row[i]);
        i += 1;
    }
    assert(r@ =~= row@);
    r
}

/// What a walk has recorded for its first `n` turns: every row the width
/// of the grouping; no more cards of a group in hand and yard than the path
/// revealed by the end of the turn; hand and yard never shrinking; nothing
/// in the yard where no effect routes; no land played that was not in hand;
/// at most one drop a turn; and each turn's land drop as `step_ok` says.
pub open spec fn history_ok(
    hand: Seq<Seq<u32>>,
    yard: Seq<Seq<u32>>,
    played_at: Seq<Seq<u32>>,
    drop_at: Seq<Option<usize>>,
    drops: Seq<u32>,
    h: Seq<Seq<u32>>,
    spans: Seq<(usize, usize)>,
    groups: int,
    ts: Option<Seq<Seq<usize>>>,
    mana: Seq<ManaSource>,
    no_live: bool,
    n: int,
) -> bool {
    &&& hand.len() == n && yard.len() == n && played_at.len() == n
    &&& drop_at.len() == n && drops.len() == n
    &&& all_rows(hand, groups) && all_rows(yard, groups) && all_rows(played_at, groups)
    &&& forall|t: int, g: int|
        0 <= t < n && 0 <= g < groups ==> #[trigger] hand[t][g] + #[trigger] yard[t][g]
            <= h[spans[t].1 as int][g]
    &&& forall|t: int, u: int, g: int|
        0 <= t <= u < n && 0 <= g < groups ==> #[trigger] hand[t][g] <= #[trigger] hand[u][g]
    &&& forall|t: int, u: int, g: int|
        0 <= t <= u < n && 0 <= g < groups ==> #[trigger] yard[t][g] <= #[trigger] yard[u][g]
    &&& no_live ==> forall|t: int, g: int| 0 <= t < n && 0 <= g < groups ==> #[trigger] yard[t][g] == 0
    &&& forall|t: int, g: int|
        0 <= t < n && 0 <= g < groups ==> #[trigger] played_at[t][g] <= hand[t][g]
    &&& forall|t: int| 0 <= t < n ==> #[trigger] drops[t] <= t
    &&& forall|t: int|
        0 <= t < n ==> match #[trigger] drop_at[t] {
            Some(k) => k < groups && played_at[t][k as int] >= 1,
            None => true,
        }
    &&& forall|t: int| 0 <= t < n ==> #[trigger] step_ok(ts, mana, hand, played_at, drop_at, drops, t)
}

proof fn lemma_rows_push(v: Seq<Vec<u32>>, x: Vec<u32>)
    ensures
        rows(v.push(x)) == rows(v).push(x@),
{
    assert(rows(v.push(x)) =~= rows(v).push(x@));
}

/// One more turn on record keeps `history_ok`.
proof fn lemma_history_push(
    hand: Seq<Seq<u32>>,
    yard: Seq<Seq<u32>>,
    played_at: Seq<Seq<u32>>,
    drop_at: Seq<Option<usize>>,
    drops: Seq<u32>,
    h: Seq<Seq<u32>>,
    spans: Seq<(usize, usize)>,
    groups: int,
    ts: Option<Seq<Seq<usize>>>,
    mana: Seq<ManaSource>,
    no_live: bool,
    n: int,
    hr: Seq<u32>,
    yr: Seq<u32>,
    pr: Seq<u32>,
    d: Option<usize>,
    k: u32,
)
    requires
        n >= 0,
        history_ok(hand, yard, played_at, drop_at, drops, h, spans, groups, ts, mana, no_live, n),
        hr.len() == groups && yr.len() == groups && pr.len() == groups,
        forall|g: int| 0 <= g < groups ==> #[trigger] hr[g] + yr[g] <= h[spans[n].1 as int][g],
        n > 0 ==> forall|g: int| 0 <= g < groups ==> hand[n - 1][g] <= #[trigger] hr[g],
        n > 0 ==> forall|g: int| 0 <= g < groups ==> yard[n - 1][g] <= #[trigger] yr[g],
        no_live ==> forall|g: int| 0 <= g < groups ==> #[trigger] yr[g] == 0,
        forall|g: int| 0 <= g < groups ==> #[trigger] pr[g] <= hr[g],
        k <= n,
        d matches Some(x) ==> x < groups && pr[x as int] >= 1,
        step_ok(ts, mana, hand.push(hr), played_at.push(pr), drop_at.push(d), drops.push(k), n),
    ensures
        history_ok(
            hand.push(hr),
            yard.push(yr),
            played_at.push(pr),
            drop_at.push(d),
            drops.push(k),
            h,
            spans,
            groups,
            ts,
            mana,
            no_live,
            n + 1,
        ),
{
    let hand2 = hand.push(hr);
    let yard2 = yard.push(yr);
    let pa2 = played_at.push(pr);
    let da2 = drop_at.push(d);
    let dr2 = drops.push(k);
    assert forall|t: int| 0 <= t < n + 1 implies #[trigger] step_ok(ts, mana, hand2, pa2, da2, dr2, t) by {
        if t < n {
            assert(step_ok(ts, mana, hand, played_at, drop_at, drops, t));
            assert(hand2[t] == hand[t] && pa2[t] == played_at[t] && da2[t] == drop_at[t] && dr2[t]
                == drops[t]);
            if t > 0 {
                assert(pa2[t - 1] == played_at[t - 1] && dr2[t - 1] == drops[t - 1]);
            }
        }
    }
    assert forall|t: int, u: int, g: int|
        0 <= t <= u < n + 1 && 0 <= g < groups implies #[trigger] hand2[t][g] <= #[trigger] hand2[u][g] by {
        if u == n && t < n {
            assert(hand[t][g] <= hand[n - 1][g]);
        }
    }
    assert forall|t: int, u: int, g: int|
        0 <= t <= u < n + 1 && 0 <= g < groups implies #[trigger] yard2[t][g] <= #[trigger] yard2[u][g] by {
        if u == n && t < n {
            assert(yard[t][g] <= yard[n - 1][g]);
            assert(yard[n - 1][g] <= yr[g]);
        }
    }
    assert forall|t: int, g: int|
        0 <= t < n + 1 && 0 <= g < groups implies #[trigger] hand2[t][g] + #[trigger] yard2[t][g]
        <= h[spans[t].1 as int][g] by {
        if t < n {
            assert(hand[t][g] + yard[t][g] <= h[spans[t].1 as int][g]);
        }
    }
    assert forall|t: int, g: int|
        0 <= t < n + 1 && 0 <= g < groups implies #[trigger] pa2[t][g] <= hand2[t][g] by {
        if t < n {
            assert(played_at[t][g] <= hand[t][g]);
        }
    }
    assert forall|t: int| 0 <= t < n + 1 implies match #[trigger] da2[t] {
        Some(x) => x < groups && pa2[t][x as int] >= 1,
        None => true,
    } by {
        if t < n {
            assert(match drop_at[t] {
                Some(x) => x < groups && played_at[t][x as int] >= 1,
                None => true,
            });
        }
    }
    assert(all_rows(hand2, groups)) by {
        assert forall|i: int| 0 <= i < hand2.len() implies (#[trigger] hand2[i]).len() == groups by {
            if i < n {
                assert(hand[i].len() == groups);
            }
        }
    }
    assert(all_rows(yard2, groups)) by {
        assert forall|i: int| 0 <= i < yard2.len() implies (#[trigger] yard2[i]).len() == groups by {
            if i < n {
                assert(yard[i].len() == groups);
            }
        }
    }
    assert(all_rows(pa2, groups)) by {
        assert forall|i: int| 0 <= i < pa2.len() implies (#[trigger] pa2[i]).len() == groups by {
            if i < n {
                assert(played_at[i].len() == groups);
            }
        }
    }
    if no_live {
        assert forall|t: int, g: int| 0 <= t < n + 1 && 0 <= g < groups implies #[trigger] yard2[t][g]
            == 0 by {
            if t < n {
                assert(yard[t][g] == 0);
            }
        }
    }
    assert forall|t: int| 0 <= t < n + 1 implies #[trigger] dr2[t] <= t by {
        if t < n {
            assert(drops[t] <= t);
        }
    }
}

proof fn lemma_matching_sum2(masks: Seq<u64>, a: Seq<u32>, b: Seq<u32>, c: Seq<u32>, q: int, n: int)
    requires
        0 <= n <= a.len(),
        n <= b.len(),
        n <= c.len(),
        n <= masks.len(),
        forall|i: int| 0 <= i < n ==> #[trigger] a[i] + b[i] <= c[i],
    ensures
        matching_in(masks, a, q, n) + matching_in(masks, b, q, n) <= matching_in(masks, c, q, n),
        matching_in(masks, a, q, n) >= 0,
        matching_in(masks, b, q, n) >= 0,
    decreases n,
{
    if n > 0 {
        lemma_matching_sum2(masks, a, b, c, q, n - 1);
    }
}

/// The position of group `g` among the first `n` land groups.
pub open spec fn slot_of(lands: Seq<usize>, g: usize, n: int) -> Option<int>
    decreases n,
{
    if n <= 0 {
        None
    } else {
        match slot_of(lands, g, n - 1) {
            Some(k) => Some(k),
            None => if lands[n - 1] == g {
                Some(n - 1)
            } else {
                None
            },
        }
    }
}

/// The land slot that cannot be tapped this turn: the one the declared drop
/// `d` played, if it enters tapped.
pub open spec fn tapped_slot(lands: Seq<usize>, pool: Seq<Source>, d: Option<usize>) -> Option<int> {
    match d {
        Some(g) => match slot_of(lands, g, lands.len() as int) {
            Some(k) => if pool[k].tapped {
                Some(k)
            } else {
                None
            },
            None => None,
        },
        None => None,
    }
}

/// Lands in play per slot, less the one that cannot be tapped yet.
pub open spec fn usable_at(played: Seq<u32>, lands: Seq<usize>, tapped: Option<int>) -> Seq<u32> {
    Seq::new(
        lands.len(),
        |k: int|
            (played[lands[k] as int] - if tapped == Some(k) {
                1int
            } else {
                0int
            }) as u32,
    )
}

/// `row` read at each land slot.
pub open spec fn held_at(row: Seq<u32>, lands: Seq<usize>) -> Seq<u32> {
    Seq::new(lands.len(), |k: int| row[lands[k] as int])
}

/// `row` read at each land slot, with one more land at `slot`.
pub open spec fn arrived_at(row: Seq<u32>, lands: Seq<usize>, slot: int) -> Seq<u32> {
    Seq::new(
        lands.len(),
        |k: int|
            (row[lands[k] as int] + if k == slot {
                1int
            } else {
                0int
            }) as u32,
    )
}

/// Whether `counts` of `pool` pay `cost` under `cons`.
pub open spec fn pays(pool: Seq<Source>, counts: Seq<u32>, cost: Cost, cons: Constraint) -> bool {
    match cons {
        Constraint::Anything => hall(pool, ints(counts), cost.pips_of(), cost.total_of()),
        _ => forced_spec(
            pool,
            ints(counts),
            cost.pips_of(),
            cost.generic_of(),
            cost.total_of(),
            cons,
        ),
    }
}

proof fn lemma_slot_of(lands: Seq<usize>, g: usize, n: int)
    requires
        0 <= n <= lands.len(),
    ensures
        slot_of(lands, g, n) matches Some(k) ==> 0 <= k < n && lands[k] == g,
    decreases n,
{
    if n > 0 {
        lemma_slot_of(lands, g, n - 1);
    }
}

proof fn lemma_lands_sorted(mana: Seq<ManaSource>, n: int)
    requires
        0 <= n <= usize::MAX,
    ensures
        forall|a: int|
            0 <= a < lands_upto(mana, n).len() ==> (#[trigger] lands_upto(mana, n)[a]) < n,
        forall|a: int, b: int|
            0 <= a < b < lands_upto(mana, n).len() ==> (#[trigger] lands_upto(mana, n)[a])
                < #[trigger] lands_upto(mana, n)[b],
    decreases n,
{
    if n > 0 {
        lemma_lands_sorted(mana, n - 1);
        let prev = lands_upto(mana, n - 1);
        let now = lands_upto(mana, n);
        if mana[n - 1] is Land {
            assert(now == prev.push((n - 1) as usize));
            assert forall|a: int, b: int| 0 <= a < b < now.len() implies (#[trigger] now[a])
                < #[trigger] now[b] by {
                if b < prev.len() {
                    assert(now[a] == prev[a] && now[b] == prev[b]);
                } else {
                    assert(now[a] == prev[a]);
                    assert(prev[a] < n - 1);
                }
            }
            assert forall|a: int| 0 <= a < now.len() implies (#[trigger] now[a]) < n by {
                if a < prev.len() {
                    assert(now[a] == prev[a]);
                }
            }
        }
    }
}

/// Counts at the land slots, bounded by `row`, sum to no more than `row`.
proof fn lemma_slots_total(c: Seq<u32>, row: Seq<u32>, lands: Seq<usize>, k: int)
    requires
        0 <= k <= lands.len(),
        c.len() == lands.len(),
        forall|a: int| 0 <= a < lands.len() ==> (#[trigger] lands[a]) < row.len(),
        forall|a: int, b: int| 0 <= a < b < lands.len() ==> (#[trigger] lands[a]) < #[trigger] lands[b],
        forall|a: int| 0 <= a < lands.len() ==> #[trigger] c[a] <= row[lands[a] as int],
    ensures
        total_in(ints(c), k) <= if k == 0 {
            0
        } else {
            sum_of(row, lands[k - 1] + 1)
        },
        total_in(ints(c), k) >= 0,
    decreases k,
{
    if k > 0 {
        lemma_slots_total(c, row, lands, k - 1);
        if k > 1 {
            lemma_sum_prefix_le(row, lands[k - 2] + 1, lands[k - 1] as int);
        } else {
            lemma_sum_nonneg(row, lands[k - 1] as int);
        }
    }
}

proof fn lemma_slots_bound(c: Seq<u32>, row: Seq<u32>, lands: Seq<usize>)
    requires
        c.len() == lands.len(),
        forall|a: int| 0 <= a < lands.len() ==> (#[trigger] lands[a]) < row.len(),
        forall|a: int, b: int| 0 <= a < b < lands.len() ==> (#[trigger] lands[a]) < #[trigger] lands[b],
        forall|a: int| 0 <= a < lands.len() ==> #[trigger] c[a] <= row[lands[a] as int],
        sum_of(row, row.len() as int) <= u32::MAX,
    ensures
        total_in(ints(c), c.len() as int) <= u32::MAX,
{
    lemma_slots_total(c, row, lands, lands.len() as int);
    if lands.len() > 0 {
        lemma_sum_prefix_le(row, lands[lands.len() - 1] + 1, row.len() as int);
    }
}

/// `row` read at each land slot.
fn held_counts(row: &Vec<u32>, lands: &Vec<usize>) -> (r: Vec<u32>)
    requires
        forall|a: int| 0 <= a < lands@.len() ==> (#[trigger] lands@[a]) < row@.len(),
    ensures
        r@ == held_at(row@, lands@),
{
    let mut r: Vec<u32> = Vec::new();
    let mut k: usize = 0;
    while k < lands.len()
        invariant
            k <= lands@.len(),
            forall|a: int| 0 <= a < lands@.len() ==> (#[trigger] lands@[a]) < row@.len(),
            r@ =~= held_at(row@, lands@).subrange(0, k as int),
        decreases lands@.len() - k,
    {
        r.push(row[lands[k]]);
        k += 1;
    }
    assert(r@ =~= held_at(row@, lands@));
    r
}

/// `row` read at each land slot, with one more land at `slot`.
fn arrived_counts(row: &Vec<u32>, lands: &Vec<usize>, slot: usize) -> (r: Vec<u32>)
    requires
        slot < lands@.len(),
        forall|a: int| 0 <= a < lands@.len() ==> (#[trigger] lands@[a]) < row@.len(),
        row@[lands@[slot as int] as int] < u32::MAX,
    ensures
        r@ == arrived_at(row@, lands@, slot as int),
{
    let mut r: Vec<u32> = Vec::new();
    let mut k: usize = 0;
    while k < lands.len()
        invariant
            k <= lands@.len(),
            slot < lands@.len(),
            forall|a: int| 0 <= a < lands@.len() ==> (#[trigger] lands@[a]) < row@.len(),
            row@[lands@[slot as int] as int] < u32::MAX,
            r@ =~= arrived_at(row@, lands@, slot as int).subrange(0, k as int),
        decreases lands@.len() - k,
    {
        if k == slot {
            r.push(row[lands[k]] + 1);
        } else {
            r.push(row[lands[k]]);
        }
        k += 1;
    }
    assert(r@ =~= arrived_at(row@, lands@, slot as int));
    r
}

/// Lands in play at each slot, less the one at `tapped`.
fn usable_counts(played: &Vec<u32>, lands: &Vec<usize>, tapped: Option<usize>) -> (r: Vec<u32>)
    requires
        forall|a: int| 0 <= a < lands@.len() ==> (#[trigger] lands@[a]) < played@.len(),
        tapped matches Some(k) ==> k < lands@.len() && played@[lands@[k as int] as int] >= 1,
    ensures
        r@ == usable_at(
            played@,
            lands@,
            match tapped {
                Some(k) => Some(k as int),
                None => None,
            },
        ),
{
    let ghost t = match tapped {
        Some(k) => Some(k as int),
        None => None,
    };
    let mut r: Vec<u32> = Vec::new();
    let mut k: usize = 0;
    while k < lands.len()
        invariant
            k <= lands@.len(),
            forall|a: int| 0 <= a < lands@.len() ==> (#[trigger] lands@[a]) < played@.len(),
            tapped matches Some(x) ==> x < lands@.len() && played@[lands@[x as int] as int] >= 1,
            t == match tapped {
                Some(x) => Some(x as int),
                None => None,
            },
            r@ =~= usable_at(played@, lands@, t).subrange(0, k as int),
        decreases lands@.len() - k,
    {
        if tapped == Some(k) {
            r.push(played[lands[k]] - 1);
        } else {
            r.push(played[lands[k]]);
        }
        k += 1;
    }
    assert(r@ =~= usable_at(played@, lands@, t));
    r
}

proof fn lemma_slot_of_stays(lands: Seq<usize>, g: usize, i: int, n: int)
    requires
        0 <= i <= n,
        slot_of(lands, g, i) is Some,
    ensures
        slot_of(lands, g, n) == slot_of(lands, g, i),
    decreases n - i,
{
    if i < n {
        lemma_slot_of_stays(lands, g, i, n - 1);
    }
}

impl<'a> Board<'a> {
    pub closed spec fn grouping_of(self) -> Grouping {
        *self.grouping
    }

    pub closed spec fn schedule_of(self) -> Schedule {
        *self.schedule
    }

    pub closed spec fn group_effect_of(self) -> Seq<Option<usize>> {
        self.group_effect@
    }

    pub closed spec fn routed_of(self) -> Seq<Seq<bool>> {
        self.routed@.map_values(|r: Vec<bool>| r@)
    }

    pub closed spec fn land_groups_of(self) -> Seq<usize> {
        self.land_groups@
    }

    pub closed spec fn pool_of(self) -> Seq<Source> {
        self.pool@
    }

    pub closed spec fn tiers_of(self) -> Option<Seq<Seq<usize>>> {
        match self.tiers {
            Some(ts) => Some(tier_rows(ts@)),
            None => None,
        }
    }

    /// Cards in hand at the end of each turn, per group.
    pub closed spec fn hand_of(self) -> Seq<Seq<u32>> {
        rows(self.record.hand@)
    }

    /// Cards in the graveyard at the end of each turn, per group.
    pub closed spec fn yard_of(self) -> Seq<Seq<u32>> {
        rows(self.record.yard@)
    }

    /// Lands the declared priority had played by the end of each turn, per
    /// group.
    pub closed spec fn played_at_of(self) -> Seq<Seq<u32>> {
        rows(self.record.played_at@)
    }

    /// The group each turn's declared land drop went to.
    pub closed spec fn drop_at_of(self) -> Seq<Option<usize>> {
        self.record.drop_at@
    }

    /// Land drops made by the end of each turn.
    pub closed spec fn drops_of(self) -> Seq<u32> {
        self.record.drops@
    }

    pub open spec fn groups(self) -> int {
        self.grouping_of().sizes_of().len() as int
    }

    pub open spec fn turn_count(self) -> int {
        self.schedule_of().spans_of().len() as int
    }

    /// The record is the shape of the run, and never holds more cards of a
    /// group than the library has.
    pub open spec fn record_fits(self) -> bool {
        let g = self.groups();
        let t = self.turn_count();
        let sizes = self.grouping_of().sizes_of();
        &&& self.hand_of().len() == t && all_rows(self.hand_of(), g)
        &&& self.yard_of().len() == t && all_rows(self.yard_of(), g)
        &&& self.played_at_of().len() == t && all_rows(self.played_at_of(), g)
        &&& self.drop_at_of().len() == t
        &&& self.drops_of().len() == t
        &&& forall|i: int, k: int|
            0 <= i < t && 0 <= k < g ==> #[trigger] self.hand_of()[i][k] + #[trigger] self.yard_of()[i][k]
                <= sizes[k]
        &&& forall|i: int, k: int|
            0 <= i < t && 0 <= k < g ==> #[trigger] self.played_at_of()[i][k]
                <= self.hand_of()[i][k]
        &&& forall|i: int| 0 <= i < t ==> #[trigger] self.drops_of()[i] <= i
        &&& forall|i: int, j: int, k: int|
            0 <= i <= j < t && 0 <= k < g ==> #[trigger] self.hand_of()[i][k] <= #[trigger] self.hand_of()[j][k]
        &&& forall|i: int|
            0 <= i < t ==> match #[trigger] self.drop_at_of()[i] {
                Some(k) => k < g && self.played_at_of()[i][k as int] >= 1,
                None => true,
            }
    }

    #[verifier::type_invariant]
    spec fn well_formed(self) -> bool {
        let g = self.groups();
        let e = self.schedule_of().effects_of().len();
        let masks = self.grouping_of().masks_of();
        let effects = self.schedule_of().effects_of();
        &&& masks.len() == g
        &&& self.grouping_of().mana_of().len() == g
        &&& sum_of(self.grouping_of().sizes_of(), g) <= u32::MAX
        &&& self.group_effect@.len() == g
        &&& forall|k: int|
            0 <= k < g ==> #[trigger] self.group_effect@[k] == owner_upto(effects, masks[k], e as int)
        &&& self.routed_of().len() == e
        &&& forall|i: int| 0 <= i < e ==> (#[trigger] self.routed_of()[i]).len() == g
        &&& forall|i: int, k: int|
            0 <= i < e && 0 <= k < g ==> #[trigger] self.routed_of()[i][k] == route_hits(
                effects[i].route,
                masks[k],
            )
        &&& self.land_groups@ == lands_upto(self.grouping_of().mana_of(), g)
        &&& self.pool@.len() == self.land_groups@.len()
        &&& forall|k: int|
            0 <= k < self.pool@.len() ==> #[trigger] self.pool@[k] == (Source {
                produces: self.grouping_of().mana_of()[self.land_groups@[k] as int].palette_of(),
                tapped: self.grouping_of().mana_of()[self.land_groups@[k] as int].tapped_on_arrival(),
            })
        &&& (self.tiers is Some) == (self.schedule_of().land_drop_of() is Some)
        &&& self.tiers matches Some(ts) ==> forall|j: int, i: int|
            0 <= j < ts@.len() && 0 <= i < ts@[j]@.len() ==> #[trigger] ts@[j]@[i] < g
        &&& owners_fit(self.group_effect@, e as int)
        &&& self.turn_count() <= u32::MAX
        &&& self.record_fits()
    }

    /// Resolve `schedule`'s effects and land-drop priority against
    /// `grouping`, with nothing walked yet.
    pub fn new(grouping: &'a Grouping, schedule: &'a Schedule) -> (b: Board<'a>)
        requires
            effects_fit(schedule.effects_of()),
            match schedule.land_drop_of() {
                Some((prefer, any_land)) => any_land < 64 && forall|i: int|
                    0 <= i < prefer.len() ==> #[trigger] prefer[i] < 64,
                None => true,
            },
            schedule.spans_of().len() <= u32::MAX,
        ensures
            b.grouping_of() == *grouping,
            b.schedule_of() == *schedule,
            b.group_effect_of().len() == b.groups(),
            forall|k: int|
                0 <= k < b.groups() ==> #[trigger] b.group_effect_of()[k] == owner_upto(
                    schedule.effects_of(),
                    grouping.masks_of()[k],
                    schedule.effects_of().len() as int,
                ),
            b.routed_of().len() == schedule.effects_of().len(),
            forall|i: int, k: int|
                0 <= i < schedule.effects_of().len() && 0 <= k < b.groups() ==> #[trigger] b.routed_of()[i][k]
                    == route_hits(schedule.effects_of()[i].route, grouping.masks_of()[k]),
            b.land_groups_of() == lands_upto(grouping.mana_of(), b.groups()),
            b.pool_of().len() == b.land_groups_of().len(),
            forall|k: int|
                0 <= k < b.pool_of().len() ==> #[trigger] b.pool_of()[k] == (Source {
                    produces: grouping.mana_of()[b.land_groups_of()[k] as int].palette_of(),
                    tapped: grouping.mana_of()[b.land_groups_of()[k] as int].tapped_on_arrival(),
                }),
            match (b.tiers_of(), schedule.land_drop_of()) {
                (Some(ts), Some((prefer, any_land))) => ts.len() == prefer.len() + 1 && forall|j: int|
                    0 <= j < ts.len() ==> tier_ok(
                        #[trigger] ts[j],
                        grouping.masks_of(),
                        b.group_effect_of(),
                        schedule.effects_of(),
                        any_land,
                        prefer.push(any_land),
                        j,
                    ),
                (None, None) => true,
                _ => false,
            },
            forall|t: int, k: int|
                0 <= t < b.turn_count() && 0 <= k < b.groups() ==> #[trigger] b.hand_of()[t][k] == 0
                    && b.yard_of()[t][k] == 0 && b.played_at_of()[t][k] == 0,
            forall|t: int|
                0 <= t < b.turn_count() ==> #[trigger] b.drops_of()[t] == 0 && b.drop_at_of()[t]
                    is None,
    {
        let sizes = grouping.group_sizes();
        let masks = grouping.group_masks();
        let mana = grouping.group_mana();
        let effects = schedule.effects();
        let groups = sizes.len();
        let turns = schedule.turns();
        let group_effect = owners(masks, effects);
        let routed = routes(masks, effects);
        let (land_groups, pool) = lands(mana);
        let tiers: Option<Vec<Vec<usize>>> = match schedule.land_drop() {
            Some(policy) => {
                let queries = policy.tiers();
                let any_land = policy.any_land();
                let ghost qs = queries@;
                proof {
                    let ld = schedule.land_drop_of();
                    assert(ld is Some && policy@ == ld->0);
                    assert(qs == policy.prefer_of().push(any_land));
                    assert forall|i: int| 0 <= i < qs.len() implies #[trigger] qs[i] < 64 by {
                        if i < qs.len() - 1 {
                            assert(qs[i] == (ld->0).0[i]);
                        }
                    }
                }
                let mut claimed: Vec<bool> = Vec::new();
                let mut k: usize = 0;
                while k < groups
                    invariant
                        k <= groups,
                        claimed@.len() == k,
                        forall|x: int| 0 <= x < k ==> !(#[trigger] claimed@[x]),
                    decreases groups - k,
                {
                    claimed.push(false);
                    k += 1;
                }
                let mut out: Vec<Vec<usize>> = Vec::new();
                let mut j: usize = 0;
                while j < queries.len()
                    invariant
                        j <= qs.len(),
                        qs == queries@,
                        any_land < 64,
                        any_land == policy.any_land_of(),
                        forall|i: int| 0 <= i < qs.len() ==> #[trigger] qs[i] < 64,
                        masks@.len() == groups,
                        group_effect@.len() == groups,
                        owners_fit(group_effect@, effects@.len() as int),
                        claimed@.len() == groups,
                        forall|x: int|
                            0 <= x < groups ==> #[trigger] claimed@[x] == claimed_by(
                                masks@,
                                any_land,
                                qs,
                                j as int,
                                x,
                            ),
                        out@.len() == j,
                        forall|i: int|
                            0 <= i < j ==> tier_ok(
                                (#[trigger] out@[i])@,
                                masks@,
                                group_effect@,
                                effects@,
                                any_land,
                                qs,
                                i,
                            ),
                    decreases qs.len() - j,
                {
                    let tier = tier_for(masks, &group_effect, effects, any_land, &queries, j, &mut claimed);
                    out.push(tier);
                    j += 1;
                }
                Some(out)
            },
            None => None,
        };
        let record = Record {
            hand: zero_table(turns, groups),
            yard: zero_table(turns, groups),
            played_at: zero_table(turns, groups),
            drop_at: none_each(turns),
            drops: zeros(turns),
        };
        let b = Board { grouping, schedule, group_effect, routed, land_groups, pool, tiers, record };
        proof {
            assert forall|t: int| 0 <= t < turns implies #[trigger] b.hand_of()[t] == b.record.hand@[t]@ by {}
        }
        b
    }

    /// Turn `t` of a walk over the cumulative counts `h`, from what the turn
    /// before left (nothing at all before turn 0): `tops` is what each turn
    /// left on top of the library, kept by looks and then waiting, `fireds`
    /// each effect's fire count after it, and `fires` the effect whose look
    /// its land drop fired. The turn's checkpoints reveal their cards below
    /// what waits; it draws its cards off the top, kept ones first; its land
    /// drop fires the look `fires_ok` names, which sends cards to the yard.
    /// Hand and yard are what they were plus what it drew and what it sent.
    pub open spec fn turn_ok(
        self,
        h: Seq<Seq<u32>>,
        hands: Seq<Seq<u32>>,
        yards: Seq<Seq<u32>>,
        drop_at: Seq<Option<usize>>,
        tops: Seq<(Seq<usize>, Seq<usize>)>,
        fireds: Seq<Seq<u32>>,
        fires: Seq<Option<usize>>,
        t: int,
    ) -> bool {
        let spans = self.schedule_of().spans_of();
        let effects = self.schedule_of().effects_of();
        let groups = self.groups();
        let before: (Seq<usize>, Seq<usize>) = if t == 0 {
            (Seq::empty(), Seq::empty())
        } else {
            tops[t - 1]
        };
        let fired_before = if t == 0 {
            Seq::new(effects.len(), |i: int| 0u32)
        } else {
            fireds[t - 1]
        };
        let waiting = before.1 + revealed_over(h, spans[t].0 as int, spans[t].1 as int, groups);
        let d = drawn_from(before.0, waiting, self.schedule_of().gaps_of()[spans[t].0 as int] as int);
        let l = looked(d.0, d.1, fires[t], self.routed_of(), effects);
        &&& forall|g: int|
            0 <= g < groups ==> #[trigger] hands[t][g] == (if t == 0 {
                0int
            } else {
                hands[t - 1][g] as int
            }) + occ(d.2, g)
        &&& forall|g: int|
            0 <= g < groups ==> #[trigger] yards[t][g] == (if t == 0 {
                0int
            } else {
                yards[t - 1][g] as int
            }) + occ(l.2, g)
        &&& if t == 0 {
            fires[0] is None && fireds[0] == fired_before
        } else {
            fires_ok(
                self.tiers_of(),
                self.group_effect_of(),
                effects,
                hands[t],
                fired_before,
                fireds[t],
                drop_at[t],
                fires[t],
            )
        }
        &&& tops[t] == (l.0, l.1)
    }

    /// The record is a walk over `h`: every turn as `turn_ok` says, through
    /// the tops, fire counts and fired looks given.
    pub open spec fn walk_traced(
        self,
        h: Seq<Seq<u32>>,
        tops: Seq<(Seq<usize>, Seq<usize>)>,
        fireds: Seq<Seq<u32>>,
        fires: Seq<Option<usize>>,
    ) -> bool {
        &&& tops.len() == self.turn_count()
        &&& fireds.len() == self.turn_count()
        &&& fires.len() == self.turn_count()
        &&& forall|t: int|
            0 <= t < self.turn_count() ==> #[trigger] self.turn_ok(
                h,
                self.hand_of(),
                self.yard_of(),
                self.drop_at_of(),
                tops,
                fireds,
                fires,
                t,
            )
    }

    /// The record is what walking `h` leaves: as `history_ok` says, and
    /// traced turn by turn as `turn_ok` says.
    pub open spec fn walked(self, h: Seq<Seq<u32>>) -> bool {
        &&& history_ok(
            self.hand_of(),
            self.yard_of(),
            self.played_at_of(),
            self.drop_at_of(),
            self.drops_of(),
            h,
            self.schedule_of().spans_of(),
            self.groups(),
            self.tiers_of(),
            self.grouping_of().mana_of(),
            forall|e: int|
                0 <= e < self.schedule_of().effects_of().len()
                    ==> (#[trigger] self.schedule_of().effects_of()[e]).route is Nowhere,
            self.turn_count(),
        )
        &&& exists|
            tops: Seq<(Seq<usize>, Seq<usize>)>,
            fireds: Seq<Seq<u32>>,
            fires: Seq<Option<usize>>,
        | #[trigger] self.walk_traced(h, tops, fireds, fires)
    }

    /// Two boards resolved alike: the same grouping and schedule, and what
    /// `new` resolved from them.
    pub open spec fn same_setup(self, other: Self) -> bool {
        &&& self.grouping_of() == other.grouping_of()
        &&& self.schedule_of() == other.schedule_of()
        &&& self.group_effect_of() == other.group_effect_of()
        &&& self.routed_of() == other.routed_of()
        &&& self.tiers_of() == other.tiers_of()
    }

    proof fn lemma_traces_agree(
        self,
        other: Self,
        h: Seq<Seq<u32>>,
        ta: Seq<(Seq<usize>, Seq<usize>)>,
        fa: Seq<Seq<u32>>,
        xa: Seq<Option<usize>>,
        tb: Seq<(Seq<usize>, Seq<usize>)>,
        fb: Seq<Seq<u32>>,
        xb: Seq<Option<usize>>,
        t: int,
    )
        requires
            self.same_setup(other),
            self.walked(h),
            other.walked(h),
            self.walk_traced(h, ta, fa, xa),
            other.walk_traced(h, tb, fb, xb),
            0 <= t < self.turn_count(),
        ensures
            self.hand_of()[t] == other.hand_of()[t],
            self.yard_of()[t] == other.yard_of()[t],
            self.played_at_of()[t] == other.played_at_of()[t],
            self.drop_at_of()[t] == other.drop_at_of()[t],
            self.drops_of()[t] == other.drops_of()[t],
            ta[t] == tb[t],
            fa[t] == fb[t],
            xa[t] == xb[t],
        decreases t,
    {
        if t > 0 {
            self.lemma_traces_agree(other, h, ta, fa, xa, tb, fb, xb, t - 1);
        }
        let groups = self.groups();
        assert(self.turn_ok(h, self.hand_of(), self.yard_of(), self.drop_at_of(), ta, fa, xa, t));
        assert(other.turn_ok(h, other.hand_of(), other.yard_of(), other.drop_at_of(), tb, fb, xb, t));
        assert(self.hand_of()[t].len() == groups && other.hand_of()[t].len() == groups);
        assert(self.hand_of()[t] =~= other.hand_of()[t]);
        let ts = self.tiers_of();
        let mana = self.grouping_of().mana_of();
        assert(step_ok(
            ts,
            mana,
            self.hand_of(),
            self.played_at_of(),
            self.drop_at_of(),
            self.drops_of(),
            t,
        ));
        assert(step_ok(
            ts,
            mana,
            other.hand_of(),
            other.played_at_of(),
            other.drop_at_of(),
            other.drops_of(),
            t,
        ));
        if t == 0 {
            assert(self.played_at_of()[0] =~= other.played_at_of()[0]);
        }
        assert(self.drop_at_of()[t] == other.drop_at_of()[t]);
        assert(self.played_at_of()[t] == other.played_at_of()[t]);
        assert(self.drops_of()[t] == other.drops_of()[t]);
        if t > 0 && ts is None {
            lemma_best_drop_unique(
                self.group_effect_of(),
                self.schedule_of().effects_of(),
                self.hand_of()[t],
                fa[t - 1],
                xa[t],
                xb[t],
            );
        }
        assert(xa[t] == xb[t]);
        assert(fa[t] == fb[t]);
        assert(ta[t] == tb[t]);
        assert(self.yard_of()[t].len() == groups && other.yard_of()[t].len() == groups);
        assert(self.yard_of()[t] =~= other.yard_of()[t]);
    }

    /// What a walk records is fixed by the board's setup and the path alone:
    /// two boards set up alike that each walked `h` hold the same hands,
    /// yards, lands played and drops, turn for turn, whatever either walked
    /// before.
    pub proof fn walks_agree(self, other: Self, h: Seq<Seq<u32>>)
        requires
            self.same_setup(other),
            self.walked(h),
            other.walked(h),
        ensures
            self.hand_of() == other.hand_of(),
            self.yard_of() == other.yard_of(),
            self.played_at_of() == other.played_at_of(),
            self.drop_at_of() == other.drop_at_of(),
            self.drops_of() == other.drops_of(),
    {
        let (ta, fa, xa) = choose|
            tops: Seq<(Seq<usize>, Seq<usize>)>,
            fireds: Seq<Seq<u32>>,
            fires: Seq<Option<usize>>,
        | #[trigger] self.walk_traced(h, tops, fireds, fires);
        let (tb, fb, xb) = choose|
            tops: Seq<(Seq<usize>, Seq<usize>)>,
            fireds: Seq<Seq<u32>>,
            fires: Seq<Option<usize>>,
        | #[trigger] other.walk_traced(h, tops, fireds, fires);
        assert forall|t: int| 0 <= t < self.turn_count() implies self.hand_of()[t] == other.hand_of()[t]
            && self.yard_of()[t] == other.yard_of()[t] && self.played_at_of()[t]
            == other.played_at_of()[t] && self.drop_at_of()[t] == other.drop_at_of()[t]
            && self.drops_of()[t] == other.drops_of()[t] by {
            self.lemma_traces_agree(other, h, ta, fa, xa, tb, fb, xb, t);
        }
        assert(self.hand_of() =~= other.hand_of());
        assert(self.yard_of() =~= other.yard_of());
        assert(self.played_at_of() =~= other.played_at_of());
        assert(self.drop_at_of() =~= other.drop_at_of());
        assert(self.drops_of() =~= other.drops_of());
    }

    /// A walk with no effects, whose turns each take one checkpoint that
    /// draws exactly as many cards as it reveals, holds in hand at the end of
    /// every turn every card the path has revealed, and nothing in the yard.
    pub proof fn plain_walk_holds_the_path(self, h: Seq<Seq<u32>>)
        requires
            self.walked(h),
            self.path_fits(h),
            self.schedule_of().effects_of().len() == 0,
            self.schedule_of().gaps_of().len() == self.turn_count(),
            self.groups() <= usize::MAX,
            forall|g: int| 0 <= g < self.groups() ==> #[trigger] self.group_effect_of()[g] is None,
            forall|t: int|
                0 <= t < self.turn_count() ==> #[trigger] self.schedule_of().spans_of()[t].0 == t
                    && self.schedule_of().spans_of()[t].1 == t,
            forall|t: int|
                0 <= t < self.turn_count() ==> #[trigger] revealed_at(h, t, self.groups()).len()
                    == self.schedule_of().gaps_of()[t],
        ensures
            forall|t: int, g: int|
                0 <= t < self.turn_count() && 0 <= g < self.groups() ==> #[trigger] self.hand_of()[t][g]
                    == h[t][g] && self.yard_of()[t][g] == 0,
    {
        let (tops, fireds, fires) = choose|
            tops: Seq<(Seq<usize>, Seq<usize>)>,
            fireds: Seq<Seq<u32>>,
            fires: Seq<Option<usize>>,
        | #[trigger] self.walk_traced(h, tops, fireds, fires);
        assert forall|t: int, g: int|
            0 <= t < self.turn_count() && 0 <= g < self.groups() implies #[trigger] self.hand_of()[t][g]
                == h[t][g] && self.yard_of()[t][g] == 0 by {
            self.lemma_plain_turn(h, tops, fireds, fires, t);
        }
    }

    proof fn lemma_plain_turn(
        self,
        h: Seq<Seq<u32>>,
        tops: Seq<(Seq<usize>, Seq<usize>)>,
        fireds: Seq<Seq<u32>>,
        fires: Seq<Option<usize>>,
        t: int,
    )
        requires
            self.walked(h),
            self.walk_traced(h, tops, fireds, fires),
            self.path_fits(h),
            self.schedule_of().effects_of().len() == 0,
            self.schedule_of().gaps_of().len() == self.turn_count(),
            self.groups() <= usize::MAX,
            forall|g: int| 0 <= g < self.groups() ==> #[trigger] self.group_effect_of()[g] is None,
            forall|u: int|
                0 <= u < self.turn_count() ==> #[trigger] self.schedule_of().spans_of()[u].0 == u
                    && self.schedule_of().spans_of()[u].1 == u,
            forall|u: int|
                0 <= u < self.turn_count() ==> #[trigger] revealed_at(h, u, self.groups()).len()
                    == self.schedule_of().gaps_of()[u],
            0 <= t < self.turn_count(),
        ensures
            tops[t] == (Seq::<usize>::empty(), Seq::<usize>::empty()),
            fires[t] is None,
            forall|g: int| 0 <= g < self.groups() ==> #[trigger] self.hand_of()[t][g] == h[t][g],
            forall|g: int| 0 <= g < self.groups() ==> #[trigger] self.yard_of()[t][g] == 0,
        decreases t,
    {
        if t > 0 {
            self.lemma_plain_turn(h, tops, fireds, fires, t - 1);
        }
        let groups = self.groups();
        let spans = self.schedule_of().spans_of();
        let effects = self.schedule_of().effects_of();
        assert(self.turn_ok(h, self.hand_of(), self.yard_of(), self.drop_at_of(), tops, fireds, fires, t));
        assert(spans[t].0 == t && spans[t].1 == t);
        let w = revealed_at(h, t, groups);
        assert(revealed_over(h, t, t - 1, groups) =~= Seq::<usize>::empty());
        assert(revealed_over(h, t, t, groups) == revealed_over(h, t, t - 1, groups) + w);
        assert(Seq::<usize>::empty() + revealed_over(h, t, t, groups) =~= w);
        let d = drawn_from(Seq::empty(), w, self.schedule_of().gaps_of()[t] as int);
        assert(d.0 =~= Seq::<usize>::empty());
        assert(d.1 =~= Seq::<usize>::empty());
        assert((Seq::<usize>::empty() + w).take(w.len() as int) =~= w);
        assert(d.2 =~= w);
        if t > 0 {
            match self.tiers_of() {
                Some(_) => {
                    match self.drop_at_of()[t] {
                        Some(g) => {
                            assert(history_ok(
                                self.hand_of(),
                                self.yard_of(),
                                self.played_at_of(),
                                self.drop_at_of(),
                                self.drops_of(),
                                h,
                                spans,
                                groups,
                                self.tiers_of(),
                                self.grouping_of().mana_of(),
                                forall|e: int|
                                    0 <= e < effects.len() ==> (#[trigger] effects[e]).route is Nowhere,
                                self.turn_count(),
                            ));
                            assert(g < groups);
                            assert(self.group_effect_of()[g as int] is None);
                        },
                        None => {},
                    }
                },
                None => {
                    match fires[t] {
                        Some(i) => {
                            assert(i < effects.len());
                        },
                        None => {},
                    }
                },
            }
        }
        assert(fires[t] is None);
        let l = looked(d.0, d.1, fires[t], self.routed_of(), effects);
        assert(l.2 =~= Seq::<usize>::empty());
        assert(l.0 == Seq::<usize>::empty() && l.1 == Seq::<usize>::empty());
        assert(tops[t] == (l.0, l.1));
        assert forall|g: int| 0 <= g < groups implies #[trigger] self.hand_of()[t][g] == h[t][g] by {
            assert forall|k: int|
                0 <= k < groups implies (if t == 0 {
                0int
            } else {
                h[t - 1][k] as int
            }) <= #[trigger] h[t][k] by {
                if t > 0 {
                    assert(h[t - 1][k] <= h[t][k]);
                }
            }
            lemma_occ_revealed(h, t, groups, g);
        }
    }

    /// A turn on record stays as `turn_ok` says when later turns are added.
    proof fn lemma_turn_ok_push(
        self,
        h: Seq<Seq<u32>>,
        hands: Seq<Seq<u32>>,
        yards: Seq<Seq<u32>>,
        drop_at: Seq<Option<usize>>,
        tops: Seq<(Seq<usize>, Seq<usize>)>,
        fireds: Seq<Seq<u32>>,
        fires: Seq<Option<usize>>,
        hr: Seq<u32>,
        yr: Seq<u32>,
        d: Option<usize>,
        top: (Seq<usize>, Seq<usize>),
        fr: Seq<u32>,
        fire: Option<usize>,
        t: int,
    )
        requires
            0 <= t < hands.len(),
            yards.len() == hands.len(),
            drop_at.len() == hands.len(),
            tops.len() == hands.len(),
            fireds.len() == hands.len(),
            fires.len() == hands.len(),
            self.turn_ok(h, hands, yards, drop_at, tops, fireds, fires, t),
        ensures
            self.turn_ok(
                h,
                hands.push(hr),
                yards.push(yr),
                drop_at.push(d),
                tops.push(top),
                fireds.push(fr),
                fires.push(fire),
                t,
            ),
    {
        assert(hands.push(hr)[t] == hands[t] && yards.push(yr)[t] == yards[t] && drop_at.push(d)[t]
            == drop_at[t] && tops.push(top)[t] == tops[t] && fireds.push(fr)[t] == fireds[t]
            && fires.push(fire)[t] == fires[t]);
        if t > 0 {
            assert(hands.push(hr)[t - 1] == hands[t - 1] && yards.push(yr)[t - 1] == yards[t - 1]
                && tops.push(top)[t - 1] == tops[t - 1] && fireds.push(fr)[t - 1] == fireds[t - 1]);
        }
    }

    /// Whether `history` is a path through this board's schedule: one row of
    /// cumulative per-group counts per checkpoint, never shrinking and never
    /// more than the library holds.
    pub open spec fn path_fits(self, history: Seq<Seq<u32>>) -> bool {
        &&& history.len() == self.schedule_of().gaps_of().len()
        &&& forall|c: int| 0 <= c < history.len() ==> (#[trigger] history[c]).len() == self.groups()
        &&& forall|c: int, g: int|
            1 <= c < history.len() && 0 <= g < self.groups() ==> history[c - 1][g]
                <= #[trigger] history[c][g]
        &&& forall|c: int, g: int|
            0 <= c < history.len() && 0 <= g < self.groups() ==> #[trigger] history[c][g]
                <= self.grouping_of().sizes_of()[g]
    }

    /// The land drop of `turn` (not the opening hand) and the look it
    /// fires, returning the group a declared priority played and the drops
    /// made by the end of the turn.
    fn drop_turn(
        &self,
        top: &mut Top,
        hand: &Vec<u32>,
        yard: &mut Vec<u32>,
        played: &mut Vec<u32>,
        fired: &mut Vec<u32>,
        prev: u32,
        Ghost(seen): Ghost<Seq<u32>>,
    ) -> (r: (Option<usize>, u32, Option<usize>))
        requires
            old(top).conserved(hand@, old(yard)@, seen),
            seen.len() == self.groups(),
            forall|g: int| 0 <= g < self.groups() ==> #[trigger] seen[g] <= self.grouping_of().sizes_of()[g],
            prev < u32::MAX,
            old(played)@.len() == self.groups(),
            forall|g: int| 0 <= g < self.groups() ==> #[trigger] old(played)@[g] <= hand@[g],
            old(fired)@.len() == self.schedule_of().effects_of().len(),
            self.tiers_of() is None ==> forall|g: int|
                0 <= g < self.groups() ==> #[trigger] old(played)@[g] == 0,
        ensures
            final(top).conserved(hand@, final(yard)@, seen),
            forall|g: int| 0 <= g < seen.len() ==> old(yard)@[g] <= #[trigger] final(yard)@[g],
            (forall|e: int|
                0 <= e < self.schedule_of().effects_of().len()
                    ==> (#[trigger] self.schedule_of().effects_of()[e]).route is Nowhere)
                ==> final(yard)@ == old(yard)@,
            final(played)@.len() == self.groups(),
            forall|g: int| 0 <= g < self.groups() ==> #[trigger] final(played)@[g] <= hand@[g],
            final(fired)@.len() == old(fired)@.len(),
            r.1 <= prev + 1,
            r.0 matches Some(k) ==> k < self.groups() && final(played)@[k as int] >= 1,
            match self.tiers_of() {
                Some(ts) => {
                    &&& r.0 == first_playable(ts, hand@, old(played)@, ts.len() as int)
                    &&& final(played)@ == advance(old(played)@, r.0)
                    &&& r.1 == prev + if r.0 is Some {
                        1int
                    } else {
                        0int
                    }
                },
                None => {
                    &&& r.0 is None
                    &&& final(played)@ == old(played)@
                    &&& r.1 == min(land_held(self.grouping_of().mana_of(), hand@, hand@.len() as int), prev + 1)
                },
            },
            fires_ok(
                self.tiers_of(),
                self.group_effect_of(),
                self.schedule_of().effects_of(),
                hand@,
                old(fired)@,
                final(fired)@,
                r.0,
                r.2,
            ),
            final(top).fresh@ == old(top).fresh@,
            ({
                let l = looked(
                    old(top).kept@,
                    old(top).pending(),
                    r.2,
                    self.routed_of(),
                    self.schedule_of().effects_of(),
                );
                &&& final(top).kept@ == l.0
                &&& final(top).pending() == l.1
                &&& forall|g: int|
                    0 <= g < seen.len() ==> #[trigger] final(yard)@[g] == old(yard)@[g] + occ(l.2, g)
            }),
    {
        proof {
            use_type_invariant(self);
        }
        let ghost sizes = self.grouping_of().sizes_of();
        let groups = self.grouping.group_sizes().len();
        let effects = self.schedule.effects();
        proof {
            assert forall|g: int| 0 <= g < groups implies #[trigger] hand@[g] <= sizes[g] by {
                lemma_tally_parts(*top, hand@, yard@, g);
                assert(top.tally(hand@, yard@, g) == seen[g]);
            }
            lemma_sum_pointwise(hand@, sizes, groups as int);
        }
        match &self.tiers {
            Some(tiers) => {
                let chosen = declared_drop(tiers, hand, played);
                let mut fire: Option<usize> = None;
                if let Some(g) = chosen {
                    played.set(g, played[g] + 1);
                    fire = self.group_effect[g];
                    if let Some(e) = fire {
                        proof {
                            assert(self.routed_of()[e as int] == self.routed@[e as int]@);
                        }
                        look(top, hand, yard, &self.routed[e], effects[e].look, Ghost(seen));
                    }
                }
                proof {
                    match fire {
                        Some(e) => {
                            let lr = look_run(
                                old(top).kept@,
                                old(top).pending(),
                                0,
                                self.routed_of()[e as int],
                                effects@[e as int].look as nat,
                            );
                            assert(self.routed_of()[e as int] == self.routed@[e as int]@);
                            assert(top.head == old(top).head + lr.1);
                            assert(top.fresh@ == old(top).fresh@);
                            assert(top.head <= top.fresh@.len());
                            assert(top.pending() =~= old(top).pending().subrange(
                                lr.1,
                                old(top).pending().len() as int,
                            ));
                        },
                        None => {
                            assert(old(top).pending().subrange(0, old(top).pending().len() as int)
                                =~= old(top).pending());
                            assert forall|g: int| 0 <= g < seen.len() implies #[trigger] yard@[g]
                                == old(yard)@[g] + occ(Seq::<usize>::empty(), g) by {}
                        },
                    }
                }
                if chosen.is_some() {
                    (chosen, prev + 1, fire)
                } else {
                    (chosen, prev, fire)
                }
            },
            None => {
                let best = effect_drop(&self.group_effect, effects, hand, fired);
                if let Some(i) = best {
                    proof {
                        lemma_owned_bounds(self.group_effect@, hand@, i as int, groups as int);
                        assert(self.routed_of()[i as int] == self.routed@[i as int]@);
                    }
                    fired.set(i, fired[i] + 1);
                    look(top, hand, yard, &self.routed[i], effects[i].look, Ghost(seen));
                }
                proof {
                    match best {
                        Some(e) => {
                            let lr = look_run(
                                old(top).kept@,
                                old(top).pending(),
                                0,
                                self.routed_of()[e as int],
                                effects@[e as int].look as nat,
                            );
                            assert(self.routed_of()[e as int] == self.routed@[e as int]@);
                            assert(top.head == old(top).head + lr.1);
                            assert(top.fresh@ == old(top).fresh@);
                            assert(top.head <= top.fresh@.len());
                            assert(top.pending() =~= old(top).pending().subrange(
                                lr.1,
                                old(top).pending().len() as int,
                            ));
                        },
                        None => {
                            assert(old(top).pending().subrange(0, old(top).pending().len() as int)
                                =~= old(top).pending());
                            assert forall|g: int| 0 <= g < seen.len() implies #[trigger] yard@[g]
                                == old(yard)@[g] + occ(Seq::<usize>::empty(), g) by {}
                        },
                    }
                }
                let mana = self.grouping.group_mana();
                let held = lands_held(mana, hand);
                let cap = prev + 1;
                if held < cap {
                    (None, held, best)
                } else {
                    (None, cap, best)
                }
            },
        }
    }

    /// Play one path out, turn by turn, recording the zones at the end of
    /// each turn.
    ///
    /// Each turn reveals its checkpoints, draws, then makes its one land
    /// drop: the land a declared priority names, or else the land of the
    /// effect that looks deepest, whose look then routes the top cards.
    pub fn walk(&mut self, history: &[Vec<u32>])
        requires
            old(self).path_fits(rows(history@)),
        ensures
            final(self).grouping_of() == old(self).grouping_of(),
            final(self).schedule_of() == old(self).schedule_of(),
            final(self).group_effect_of() == old(self).group_effect_of(),
            final(self).routed_of() == old(self).routed_of(),
            final(self).land_groups_of() == old(self).land_groups_of(),
            final(self).pool_of() == old(self).pool_of(),
            final(self).tiers_of() == old(self).tiers_of(),
            history_ok(
                final(self).hand_of(),
                final(self).yard_of(),
                final(self).played_at_of(),
                final(self).drop_at_of(),
                final(self).drops_of(),
                rows(history@),
                final(self).schedule_of().spans_of(),
                final(self).groups(),
                final(self).tiers_of(),
                final(self).grouping_of().mana_of(),
                forall|e: int|
                    0 <= e < final(self).schedule_of().effects_of().len()
                        ==> (#[trigger] final(self).schedule_of().effects_of()[e]).route is Nowhere,
                final(self).turn_count(),
            ),
            exists|
                tops: Seq<(Seq<usize>, Seq<usize>)>,
                fireds: Seq<Seq<u32>>,
                fires: Seq<Option<usize>>,
            |
                #[trigger] final(self).walk_traced(rows(history@), tops, fireds, fires),
            final(self).walked(rows(history@)),
    {
        proof {
            use_type_invariant(&*self);
        }
        let ghost h = rows(history@);
        let ghost mut tops: Seq<(Seq<usize>, Seq<usize>)> = Seq::empty();
        let ghost mut fireds: Seq<Seq<u32>> = Seq::empty();
        let ghost mut fires: Seq<Option<usize>> = Seq::empty();
        let ghost sizes = self.grouping.sizes_of();
        let ghost spans = self.schedule.spans_of();
        let ghost ts: Option<Seq<Seq<usize>>> = self.tiers_of();
        let ghost mana_s = self.grouping.mana_of();
        let sizes_v = self.grouping.group_sizes();
        let groups = sizes_v.len();
        let turns = self.schedule.turns();
        let effects = self.schedule.effects();
        let ghost zero = Seq::new(groups as nat, |i: int| 0u32);
        let ghost no_live = forall|e: int|
            0 <= e < effects@.len() ==> (#[trigger] effects@[e]).route is Nowhere;
        let mut top = Top { fresh: Vec::new(), head: 0, kept: Vec::new() };
        let mut live_hand = zeros(groups);
        let mut live_yard = zeros(groups);
        let mut live_played = zeros(groups);
        let mut fired = zeros(effects.len());
        let mut hand: Vec<Vec<u32>> = Vec::new();
        let mut yard: Vec<Vec<u32>> = Vec::new();
        let mut played_at: Vec<Vec<u32>> = Vec::new();
        let mut drop_at: Vec<Option<usize>> = Vec::new();
        let mut drops: Vec<u32> = Vec::new();
        proof {
            assert(live_hand@ =~= zero);
            assert(live_yard@ =~= zero);
            assert forall|g: int| 0 <= g < groups implies #[trigger] top.tally(
                live_hand@,
                live_yard@,
                g,
            ) == zero[g] by {
                assert(top.pending() =~= Seq::<usize>::empty());
            }
            assert(rows(hand@) =~= Seq::<Seq<u32>>::empty());
            assert(rows(yard@) =~= Seq::<Seq<u32>>::empty());
            assert(rows(played_at@) =~= Seq::<Seq<u32>>::empty());
            assert(top.pending() =~= Seq::<usize>::empty());
        }
        let mut turn: usize = 0;
        while turn < turns
            invariant
                turn <= turns,
                turns == spans.len(),
                turns == self.turn_count(),
                turns <= u32::MAX,
                groups == self.groups(),
                groups == sizes.len(),
                sizes == self.grouping.sizes_of(),
                spans == self.schedule.spans_of(),
                mana_s == self.grouping.mana_of(),
                effects@ == self.schedule.effects_of(),
                ts == self.tiers_of(),
                zero == Seq::new(groups as nat, |i: int| 0u32),
                no_live == forall|e: int|
                    0 <= e < effects@.len() ==> (#[trigger] effects@[e]).route is Nowhere,
                h == rows(history@),
                h.len() == history@.len(),
                self.path_fits(h),
                tiles(self.schedule.gaps_of().len() as int, spans),
                live_hand@.len() == groups,
                live_yard@.len() == groups,
                live_played@.len() == groups,
                fired@.len() == effects@.len(),
                top.conserved(
                    live_hand@,
                    live_yard@,
                    if turn == 0 {
                        zero
                    } else {
                        h[spans[turn - 1].1 as int]
                    },
                ),
                forall|g: int| 0 <= g < groups ==> #[trigger] live_played@[g] <= live_hand@[g],
                no_live ==> live_yard@ == zero,
                ts is None ==> live_played@ == zero,
                turn == 0 ==> live_played@ == zero,
                turn > 0 ==> rows(played_at@)[turn - 1] == live_played@,
                turn > 0 ==> rows(hand@)[turn - 1] == live_hand@,
                turn > 0 ==> rows(yard@)[turn - 1] == live_yard@,
                turn == 0 ==> live_hand@ == zero && live_yard@ == zero,
                tops.len() == turn,
                fireds.len() == turn,
                fires.len() == turn,
                turn == 0 ==> top.kept@ == Seq::<usize>::empty() && top.pending() == Seq::<
                    usize,
                >::empty() && forall|i: int| 0 <= i < fired@.len() ==> #[trigger] fired@[i] == 0,
                turn > 0 ==> top.kept@ == tops[turn - 1].0 && top.pending() == tops[turn - 1].1
                    && fired@ == fireds[turn - 1],
                forall|t: int|
                    0 <= t < turn ==> #[trigger] self.turn_ok(
                        h,
                        rows(hand@),
                        rows(yard@),
                        drop_at@,
                        tops,
                        fireds,
                        fires,
                        t,
                    ),
                history_ok(
                    rows(hand@),
                    rows(yard@),
                    rows(played_at@),
                    drop_at@,
                    drops@,
                    h,
                    spans,
                    groups as int,
                    ts,
                    mana_s,
                    no_live,
                    turn as int,
                ),
            decreases turns - turn,
        {
            proof {
                lemma_span_in_range(self.schedule.gaps_of().len() as int, spans, turn as int);
                if turn > 0 {
                    assert(spans[(turn - 1) + 1].0 == spans[turn - 1].1 + 1);
                } else {
                    assert(spans[0].0 == 0);
                }
            }
            let (first, last) = self.schedule.checkpoints_of(turn);
            let ghost kept0 = top.kept@;
            let ghost head0 = top.head;
            let ghost fresh0 = top.fresh@;
            let ghost pend0 = top.pending();
            let mut c: usize = first;
            proof {
                assert(top.fresh@ =~= fresh0 + revealed_over(h, first as int, c - 1, groups as int));
            }
            loop
                invariant_except_break
                    top.conserved(
                        live_hand@,
                        live_yard@,
                        if c == 0 {
                            zero
                        } else {
                            h[c - 1]
                        },
                    ),
                    top.fresh@ == fresh0 + revealed_over(h, first as int, c - 1, groups as int),
                invariant
                    top.kept@ == kept0,
                    top.head == head0,
                    groups == live_hand@.len(),
                    first <= c <= last,
                    last < h.len(),
                    h.len() == history@.len(),
                    h == rows(history@),
                    self.path_fits(h),
                    groups == self.groups(),
                    live_hand@.len() == groups,
                    zero == Seq::new(groups as nat, |i: int| 0u32),
                ensures
                    top.conserved(live_hand@, live_yard@, h[last as int]),
                    top.fresh@ == fresh0 + revealed_over(h, first as int, last as int, groups as int),
                decreases last - c,
            {
                proof {
                    assert(history@[c as int]@ == h[c as int]);
                    if c > 0 {
                        assert(history@[c - 1]@ == h[c - 1]);
                    } else {
                        assert(zero =~= Seq::new(live_hand@.len(), |i: int| 0u32));
                    }
                }
                reveal_checkpoint(&mut top, &live_hand, &live_yard, history, c);
                proof {
                    assert(revealed_over(h, first as int, c as int, groups as int) == revealed_over(
                        h,
                        first as int,
                        c - 1,
                        groups as int,
                    ) + revealed_at(h, c as int, groups as int));
                    assert(top.fresh@ =~= fresh0 + revealed_over(h, first as int, c as int, groups as int));
                }
                if c == last {
                    break;
                }
                c += 1;
            }
            let ghost seen = h[last as int];
            let n = self.schedule.draw_at(turn);
            let ghost hand0 = live_hand@;
            let ghost waiting = pend0 + revealed_over(h, first as int, last as int, groups as int);
            proof {
                assert(top.pending() =~= waiting);
            }
            let ghost top1: Top = top;
            draw(&mut top, &mut live_hand, &live_yard, n, Ghost(seen));
            let ghost dr = drawn_from(kept0, waiting, n as int);
            proof {
                let m = if n < top1.stack().len() {
                    n as int
                } else {
                    top1.stack().len() as int
                };
                let off = if m < kept0.len() {
                    m
                } else {
                    kept0.len() as int
                };
                assert(top1.stack() == kept0 + waiting);
                assert(top.kept@ == dr.0);
                assert(top.pending() =~= dr.1);
                assert(top1.stack().take(m) == dr.2);
            }
            let ghost kept2 = top.kept@;
            let ghost pend2 = top.pending();
            let ghost fired0 = fired@;
            let ghost played0 = live_played@;
            let ghost yard0 = live_yard@;
            let mut chosen: Option<usize> = None;
            let mut made: u32 = 0;
            let mut fire: Option<usize> = None;
            if turn > 0 {
                let prev = drops[turn - 1];
                proof {
                    assert(drops@[turn - 1] <= turn - 1);
                }
                let r = self.drop_turn(
                    &mut top,
                    &live_hand,
                    &mut live_yard,
                    &mut live_played,
                    &mut fired,
                    prev,
                    Ghost(seen),
                );
                chosen = r.0;
                made = r.1;
                fire = r.2;
            } else {
                proof {
                    assert(pend2.subrange(0, pend2.len() as int) =~= pend2);
                }
            }
            let ghost lk = looked(kept2, pend2, fire, self.routed_of(), effects@);
            proof {
                let hr = live_hand@;
                let yr = live_yard@;
                assert forall|g: int| 0 <= g < groups implies #[trigger] hr[g] + yr[g] <= h[spans[turn as int].1 as int][g] by {
                    lemma_tally_parts(top, hr, yr, g);
                    assert(top.tally(hr, yr, g) == seen[g]);
                }
                if turn > 0 {
                    assert forall|g: int| 0 <= g < groups implies rows(hand@)[turn - 1][g] <= #[trigger] hr[g] by {
                        assert(hand0[g] <= hr[g]);
                    }
                    assert forall|g: int| 0 <= g < groups implies rows(yard@)[turn - 1][g] <= #[trigger] yr[g] by {
                        assert(yard0[g] <= yr[g]);
                    }
                }
                if no_live {
                    assert(yr =~= zero);
                }
                let hand2 = rows(hand@).push(hr);
                let pa2 = rows(played_at@).push(live_played@);
                let da2 = drop_at@.push(chosen);
                let dr2 = drops@.push(made);
                if turn == 0 {
                    assert(step_ok(ts, mana_s, hand2, pa2, da2, dr2, 0));
                } else {
                    assert(hand2[turn as int] == hr && pa2[turn - 1] == played0 && dr2[turn - 1]
                        == drops@[turn - 1] && da2[turn as int] == chosen && pa2[turn as int]
                        == live_played@ && dr2[turn as int] == made);
                    assert(step_ok(ts, mana_s, hand2, pa2, da2, dr2, turn as int));
                }
                lemma_history_push(
                    rows(hand@),
                    rows(yard@),
                    rows(played_at@),
                    drop_at@,
                    drops@,
                    h,
                    spans,
                    groups as int,
                    ts,
                    mana_s,
                    no_live,
                    turn as int,
                    hr,
                    yr,
                    live_played@,
                    chosen,
                    made,
                );
            }
            let ghost hand_before = hand@;
            let ghost yard_before = yard@;
            let ghost played_before = played_at@;
            let ghost drop_before = drop_at@;
            let ghost tops_before = tops;
            let ghost fireds_before = fireds;
            let ghost fires_before = fires;
            drop_at.push(chosen);
            drops.push(made);
            hand.push(copy_row(&live_hand));
            yard.push(copy_row(&live_yard));
            played_at.push(copy_row(&live_played));
            proof {
                lemma_rows_push(hand_before, hand@[turn as int]);
                lemma_rows_push(yard_before, yard@[turn as int]);
                lemma_rows_push(played_before, played_at@[turn as int]);
                assert(hand@ == hand_before.push(hand@[turn as int]));
                assert(yard@ == yard_before.push(yard@[turn as int]));
                assert(played_at@ == played_before.push(played_at@[turn as int]));
                tops = tops.push((top.kept@, top.pending()));
                fireds = fireds.push(fired@);
                fires = fires.push(fire);
                assert forall|t: int| 0 <= t < turn implies #[trigger] self.turn_ok(
                    h,
                    rows(hand@),
                    rows(yard@),
                    drop_at@,
                    tops,
                    fireds,
                    fires,
                    t,
                ) by {
                    self.lemma_turn_ok_push(
                        h,
                        rows(hand_before),
                        rows(yard_before),
                        drop_before,
                        tops_before,
                        fireds_before,
                        fires_before,
                        rows(hand@)[turn as int],
                        rows(yard@)[turn as int],
                        chosen,
                        (top.kept@, top.pending()),
                        fired@,
                        fire,
                        t,
                    );
                }
                let hs = rows(hand@);
                let ys = rows(yard@);
                assert(hs[turn as int] == live_hand@);
                assert(ys[turn as int] == live_yard@);
                if turn > 0 {
                    assert(hs[turn - 1] == hand0);
                    assert(ys[turn - 1] == yard0);
                    assert(tops[turn - 1] == tops_before[turn - 1]);
                    assert(fireds[turn - 1] == fireds_before[turn - 1]);
                } else {
                    assert(fired0 =~= Seq::new(effects@.len(), |i: int| 0u32));
                    assert(kept0 =~= Seq::<usize>::empty());
                    assert(pend0 =~= Seq::<usize>::empty());
                }
                assert(self.turn_ok(h, hs, ys, drop_at@, tops, fireds, fires, turn as int));
            }
            turn += 1;
        }
        proof {
            let hs = rows(hand@);
            let ys = rows(yard@);
            assert forall|t: int, g: int| 0 <= t < turns && 0 <= g < groups implies #[trigger] hs[t][g]
                + #[trigger] ys[t][g] <= sizes[g] by {
                lemma_span_in_range(self.schedule.gaps_of().len() as int, spans, t);
                assert(hs[t][g] + ys[t][g] <= h[spans[t].1 as int][g]);
                assert(h[spans[t].1 as int][g] <= sizes[g]);
            }
        }
        let ghost me: Board = *self;
        let ghost hs = rows(hand@);
        let ghost ys = rows(yard@);
        let ghost ds = drop_at@;
        self.record = Record { hand, yard, played_at, drop_at, drops };
        proof {
            assert(self.hand_of() == hs && self.yard_of() == ys && self.drop_at_of() == ds);
            assert forall|t: int| 0 <= t < self.turn_count() implies #[trigger] self.turn_ok(
                h,
                self.hand_of(),
                self.yard_of(),
                self.drop_at_of(),
                tops,
                fireds,
                fires,
                t,
            ) by {
                assert(me.turn_ok(h, hs, ys, ds, tops, fireds, fires, t));
            }
            assert(self.walk_traced(h, tops, fireds, fires));
        }
    }
    /// How many cards matching `query` this path has put in `zone` by the
    /// end of `turn`: 0 for a turn beyond the run or a query the grouping
    /// does not have, and in the library whatever hand and yard do not
    /// hold.
    pub fn count_at(&self, turn: usize, query: usize, zone: Zone) -> (r: u32)
        ensures
            r == if turn >= self.turn_count() || query >= self.grouping_of().queries_of().len() {
                0
            } else {
                let masks = self.grouping_of().masks_of();
                let g = self.groups();
                let in_hand = matching_in(masks, self.hand_of()[turn as int], query as int, g);
                let in_yard = matching_in(masks, self.yard_of()[turn as int], query as int, g);
                match zone {
                    Zone::Hand => in_hand,
                    Zone::Graveyard => in_yard,
                    Zone::Library => matching_in(
                        masks,
                        self.grouping_of().sizes_of(),
                        query as int,
                        g,
                    ) - in_hand - in_yard,
                }
            },
    {
        proof {
            use_type_invariant(self);
        }
        if turn >= self.record.hand.len() {
            return 0;
        }
        let sizes = self.grouping.group_sizes();
        let ghost g = sizes@.len() as int;
        let ghost masks = self.grouping_of().masks_of();
        let hand = &self.record.hand[turn];
        let yard = &self.record.yard[turn];
        proof {
            assert(hand@ == self.hand_of()[turn as int]);
            assert(yard@ == self.yard_of()[turn as int]);
            assert forall|i: int| 0 <= i < g implies #[trigger] hand@[i] + yard@[i] <= sizes@[i] by {
                assert(self.hand_of()[turn as int][i] + self.yard_of()[turn as int][i] <= sizes@[i]);
            }
            lemma_matching_sum2(masks, hand@, yard@, sizes@, query as int, g);
            lemma_matching_le_sum(masks, sizes@, query as int, g);
        }
        let in_hand = self.grouping.count_matching(hand, query);
        match zone {
            Zone::Hand => in_hand,
            Zone::Graveyard => self.grouping.count_matching(yard, query),
            Zone::Library => {
                let in_yard = self.grouping.count_matching(yard, query);
                self.grouping.matching_total(query) - in_hand - in_yard
            },
        }
    }

    /// Whether `cost` could have been paid on `turn`.
    ///
    /// Only lands pay. Where a priority was declared, the lands in play are
    /// the ones it played and only this turn's drop may still be tapped.
    /// Where none was, the most generous line counts: pay with what was
    /// already down, or play a land from hand and tap it too, or play the
    /// land that arrived this turn and tap that.
    pub open spec fn castable(self, turn: int, cost: Cost) -> bool {
        let lands = self.land_groups_of();
        let pool = self.pool_of();
        if cost.total_of() == 0 {
            true
        } else if self.tiers_of() is Some {
            &&& 0 <= turn < self.turn_count()
            &&& pays(
                pool,
                usable_at(
                    self.played_at_of()[turn],
                    lands,
                    tapped_slot(lands, pool, self.drop_at_of()[turn]),
                ),
                cost,
                Constraint::Anything,
            )
        } else {
            let held = held_at(self.hand_of()[turn - 1], lands);
            &&& 1 <= turn < self.turn_count()
            &&& cost.total_of() <= self.drops_of()[turn]
            &&& {
                ||| cost.total_of() <= self.drops_of()[turn - 1] && pays(
                    pool,
                    held,
                    cost,
                    Constraint::Anything,
                )
                ||| pays(pool, held, cost, Constraint::IncludesUntapped)
                ||| exists|slot: int|
                    0 <= slot < lands.len() && self.hand_of()[turn][lands[slot] as int]
                        != self.hand_of()[turn - 1][lands[slot] as int] && !pool[slot].tapped
                        && pays(
                        pool,
                        #[trigger] arrived_at(self.hand_of()[turn - 1], lands, slot),
                        cost,
                        Constraint::Includes(slot as usize),
                    )
            }
        }
    }

    /// The land slot this turn's declared drop occupies, if that land
    /// cannot be tapped yet.
    fn tapped_now(&self, turn: usize) -> (r: Option<usize>)
        requires
            turn < self.turn_count(),
        ensures
            match r {
                Some(k) => tapped_slot(self.land_groups_of(), self.pool_of(), self.drop_at_of()[turn as int])
                    == Some(k as int),
                None => tapped_slot(self.land_groups_of(), self.pool_of(), self.drop_at_of()[turn as int])
                    is None,
            },
    {
        proof {
            use_type_invariant(self);
        }
        match self.record.drop_at[turn] {
            Some(g) => {
                let mut k: usize = 0;
                while k < self.land_groups.len()
                    invariant
                        k <= self.land_groups@.len(),
                        self.pool@.len() == self.land_groups@.len(),
                        self.record.drop_at@[turn as int] == Some(g),
                        slot_of(self.land_groups@, g, k as int) is None,
                    decreases self.land_groups@.len() - k,
                {
                    if self.land_groups[k] == g {
                        proof {
                            lemma_slot_of_stays(self.land_groups@, g, (k + 1) as int, self.land_groups@.len() as int);
                        }
                        if self.pool[k].tapped {
                            return Some(k);
                        } else {
                            return None;
                        }
                    }
                    k += 1;
                }
                None
            },
            None => None,
        }
    }

    /// Whether `cost` could have been paid on `turn`, as
    /// [`Board::castable`] says.
    pub fn can_cast(&self, turn: usize, cost: &Cost) -> (r: bool)
        ensures
            r == self.castable(turn as int, *cost),
    {
        proof {
            use_type_invariant(self);
        }
        if cost.is_free() {
            return true;
        }
        let ghost g = self.groups();
        let ghost sizes = self.grouping_of().sizes_of();
        let ghost lands = self.land_groups@;
        let gs = self.grouping.group_sizes().len();
        proof {
            lemma_lands_sorted(self.grouping_of().mana_of(), gs as int);
        }
        let turns = self.record.hand.len();
        match &self.tiers {
            Some(_) => {
                if turn >= turns {
                    return false;
                }
                let counts = &self.record.played_at[turn];
                let tapped = self.tapped_now(turn);
                proof {
                    assert(counts@ == self.played_at_of()[turn as int]);
                    if let Some(k) = tapped {
                        let d = self.drop_at_of()[turn as int];
                        lemma_slot_of(lands, d->0, lands.len() as int);
                        assert(match d {
                            Some(x) => x < g && self.played_at_of()[turn as int][x as int] >= 1,
                            None => true,
                        });
                    }
                }
                let usable = usable_counts(counts, &self.land_groups, tapped);
                proof {
                    let row = self.hand_of()[turn as int];
                    assert forall|i: int| 0 <= i < g implies #[trigger] row[i] <= sizes[i] by {
                        assert(self.hand_of()[turn as int][i] + self.yard_of()[turn as int][i] <= sizes[i]);
                    }
                    lemma_sum_pointwise(row, sizes, g);
                    assert forall|a: int| 0 <= a < lands.len() implies #[trigger] usable@[a] <= row[lands[a] as int] by {
                        assert(self.played_at_of()[turn as int][lands[a] as int] <= row[lands[a] as int]);
                    }
                    lemma_slots_bound(usable@, row, lands);
                }
                cost.payable(&self.pool, &usable, Constraint::Anything)
            },
            None => {
                if turn == 0 || turn >= turns {
                    return false;
                }
                if cost.total() > self.record.drops[turn] {
                    return false;
                }
                let earlier = &self.record.hand[turn - 1];
                proof {
                    assert(earlier@ == self.hand_of()[turn - 1]);
                    assert(earlier@.len() == g);
                }
                let held = held_counts(earlier, &self.land_groups);
                proof {
                    let row = self.hand_of()[turn - 1];
                    assert(earlier@ == row);
                    assert forall|i: int| 0 <= i < g implies #[trigger] row[i] <= sizes[i] by {
                        assert(self.hand_of()[turn - 1][i] + self.yard_of()[turn - 1][i] <= sizes[i]);
                    }
                    lemma_sum_pointwise(row, sizes, g);
                    lemma_slots_bound(held@, row, lands);
                }
                if cost.total() <= self.record.drops[turn - 1] && cost.payable(
                    &self.pool,
                    &held,
                    Constraint::Anything,
                ) {
                    return true;
                }
                if cost.payable(&self.pool, &held, Constraint::IncludesUntapped) {
                    return true;
                }
                let hand = &self.record.hand[turn];
                proof {
                    assert(hand@ == self.hand_of()[turn as int]);
                    let row = self.hand_of()[turn as int];
                    assert forall|i: int| 0 <= i < g implies #[trigger] row[i] <= sizes[i] by {
                        assert(self.hand_of()[turn as int][i] + self.yard_of()[turn as int][i] <= sizes[i]);
                    }
                    lemma_sum_pointwise(row, sizes, g);
                }
                let mut slot: usize = 0;
                while slot < self.land_groups.len()
                    invariant
                        slot <= lands.len(),
                        lands == self.land_groups@,
                        1 <= turn < self.turn_count(),
                        cost.total_of() != 0,
                        cost.total_of() <= self.drops_of()[turn as int],
                        self.tiers is None,
                        hand@ == self.hand_of()[turn as int],
                        earlier@ == self.hand_of()[turn - 1],
                        hand@.len() == g,
                        earlier@.len() == g,
                        sum_of(hand@, g) <= u32::MAX,
                        forall|a: int| 0 <= a < lands.len() ==> (#[trigger] lands[a]) < g,
                        forall|a: int, b: int|
                            0 <= a < b < lands.len() ==> (#[trigger] lands[a]) < #[trigger] lands[b],
                        forall|i: int| 0 <= i < g ==> #[trigger] earlier@[i] <= hand@[i],
                        self.pool@.len() == lands.len(),
                        forall|k: int|
                            0 <= k < slot ==> !(hand@[lands[k] as int] != earlier@[lands[k] as int]
                                && !self.pool@[k].tapped && pays(
                                self.pool@,
                                #[trigger] arrived_at(earlier@, lands, k),
                                *cost,
                                Constraint::Includes(k as usize),
                            )),
                    decreases lands.len() - slot,
                {
                    let group = self.land_groups[slot];
                    if hand[group] != earlier[group] && !self.pool[slot].tapped {
                        let arrived = arrived_counts(earlier, &self.land_groups, slot);
                        proof {
                            assert forall|a: int| 0 <= a < lands.len() implies #[trigger] arrived@[a]
                                <= hand@[lands[a] as int] by {
                                assert(earlier@[lands[a] as int] <= hand@[lands[a] as int]);
                            }
                            lemma_slots_bound(arrived@, hand@, lands);
                        }
                        if cost.payable(&self.pool, &arrived, Constraint::Includes(slot)) {
                            proof {
                                let w = slot as int;
                                assert(arrived@ == arrived_at(self.hand_of()[turn - 1], lands, w));
                                assert(pays(
                                    self.pool_of(),
                                    arrived_at(self.hand_of()[turn - 1], lands, w),
                                    *cost,
                                    Constraint::Includes(w as usize),
                                ));
                                assert(self.hand_of()[turn as int][lands[w] as int]
                                    != self.hand_of()[turn - 1][lands[w] as int]);
                                assert(!self.pool_of()[w].tapped);
                                assert(lands == self.land_groups_of());
                                assert(0 <= w < self.land_groups_of().len()
                                    && self.hand_of()[turn as int][self.land_groups_of()[w] as int]
                                    != self.hand_of()[turn - 1][self.land_groups_of()[w] as int]
                                    && !self.pool_of()[w].tapped && pays(
                                    self.pool_of(),
                                    arrived_at(self.hand_of()[turn - 1], self.land_groups_of(), w),
                                    *cost,
                                    Constraint::Includes(w as usize),
                                ));
                            }
                            return true;
                        }
                    }
                    slot += 1;
                }
                false
            },
        }
    }

    /// Turns this board covers.
    pub fn turns(&self) -> (r: usize)
        ensures
            r == self.turn_count(),
    {
        proof {
            use_type_invariant(self);
        }
        self.record.hand.len()
    }
}

/// `n` empty slots.
fn none_each(n: usize) -> (r: Vec<Option<usize>>)
    ensures
        r@.len() == n,
        forall|i: int| 0 <= i < n ==> #[trigger] r@[i] is None,
{
    let mut r: Vec<Option<usize>> = Vec::new();
    let mut i: usize = 0;
    while i < n
        invariant
            i <= n,
            r@.len() == i,
            forall|k: int| 0 <= k < i ==> #[trigger] r@[k] is None,
        decreases n - i,
    {
        r.push(None);
        i += 1;
    }
    r
}

} // verus!

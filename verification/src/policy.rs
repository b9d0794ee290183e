//! Who gets the land drop, when two parts of a run both want it.
//!
//! The file names land queries in the order it would play them and the
//! engine plays the first one it is holding. A land the list does not name is
//! played last; a tie inside one entry goes to the deeper look, then to the
//! card the decklist names first.

use vstd::prelude::*;

verus! {

/// How the run says it broke a tie.
pub const TIE_BREAK: &'static str = "a tie inside one entry goes to the deeper look, then to the card this decklist names first";

/// A declared priority over the one land drop a turn, resolved to grouping
/// queries: `prefer` highest priority first, and `any_land`, the query that
/// says what a land is, as the catch-all tier.
#[derive(Debug, Clone, PartialEq, Eq)]
pub struct LandDropPolicy {
    prefer: Vec<usize>,
    any_land: usize,
}

impl View for LandDropPolicy {
    type V = (Seq<usize>, usize);

    /// The tiers before the catch-all, and the catch-all.
    open spec fn view(&self) -> (Seq<usize>, usize) {
        (self.prefer_of(), self.any_land_of())
    }
}

impl LandDropPolicy {
    pub closed spec fn prefer_of(self) -> Seq<usize> {
        self.prefer@
    }

    pub closed spec fn any_land_of(self) -> usize {
        self.any_land
    }

    /// Every tier in priority order, the catch-all last.
    pub open spec fn tiers_of(self) -> Seq<usize> {
        self.prefer_of().push(self.any_land_of())
    }

    pub fn new(prefer: Vec<usize>, any_land: usize) -> (p: LandDropPolicy)
        ensures
            p.prefer_of() == prefer@,
            p.any_land_of() == any_land,
    {
        LandDropPolicy { prefer, any_land }
    }

    /// Every tier in priority order, the catch-all last.
    pub fn tiers(&self) -> (r: Vec<usize>)
        ensures
            r@ == self.tiers_of(),
    {
        let mut out: Vec<usize> = Vec::new();
        let mut i: usize = 0;
        while i < self.prefer.len()
            invariant
                i <= self.prefer@.len(),
                out@ =~= self.prefer@.subrange(0, i as int),
            decreases self.prefer@.len() - i,
        {
            out.push(self.prefer[i]);
            i += 1;
        }
        out.push(self.any_land);
        out
    }

    /// The query that decides whether a group is a land at all.
    pub fn any_land(&self) -> (r: usize)
        ensures
            r == self.any_land_of(),
    {
        self.any_land
    }

    /// A copy of this policy.
    pub fn copy(&self) -> (r: LandDropPolicy)
        ensures
            r.prefer_of() == self.prefer_of(),
            r.any_land_of() == self.any_land_of(),
    {
        let mut prefer: Vec<usize> = Vec::new();
        let mut i: usize = 0;
        while i < self.prefer.len()
            invariant
                i <= self.prefer@.len(),
                prefer@ =~= self.prefer@.subrange(0, i as int),
            decreases self.prefer@.len() - i,
        {
            prefer.push(self.prefer[i]);
            i += 1;
        }
        LandDropPolicy { prefer, any_land: self.any_land }
    }
}

} // verus!

//! What a card does when you play it, and where the cards it looks at go.
//!
//! An [`Effect`] is one library entry after its queries have been resolved
//! against a grouping. Only a land drop triggers one: it is free and capped at
//! one a turn, so effects cannot compound. A looked-at card is routed by the
//! group it is in, so routing stays a function of counts.

use vstd::prelude::*;
use crate::text::str_eq;

verus! {

/// When an effect gets to happen.
#[derive(Debug, Clone, Copy, PartialEq, Eq, Structural)]
pub enum Trigger {
    /// The turn a matching land is played. Free, and one per turn.
    LandDrop,
}

/// Every trigger an effect may name, for the message that lists them.
pub const TRIGGERS_ACCEPTED: &'static str = "landdrop";

/// A trigger this engine will not fire.
#[derive(Debug, Clone, PartialEq, Eq)]
pub enum TriggerError {
    /// `cast`, `spell` or `mana`: what a cast spell then draws is not
    /// modelled.
    NeedsMana { name: String },
    /// Not a trigger this tool knows.
    Unknown { name: String },
}

/// What [`Trigger::parse`] makes of a name.
pub open spec fn trigger_kind(name: Seq<char>) -> int {
    if name == "landdrop"@ {
        0
    } else if name == "cast"@ || name == "spell"@ || name == "mana"@ {
        1
    } else {
        2
    }
}

impl Trigger {
    pub fn as_str(self) -> (s: &'static str)
        ensures
            s@ == "landdrop"@,
    {
        match self {
            Trigger::LandDrop => "landdrop",
        }
    }

    pub fn parse(name: &str) -> (r: Result<Trigger, TriggerError>)
        ensures
            (r is Ok) <==> trigger_kind(name@) == 0,
            r matches Err(TriggerError::NeedsMana { name: n }) ==> n@ == name@ && trigger_kind(
                name@,
            ) == 1,
            r matches Err(TriggerError::Unknown { name: n }) ==> n@ == name@ && trigger_kind(
                name@,
            ) == 2,
    {
        if str_eq(name, "landdrop") {
            Ok(Trigger::LandDrop)
        } else if str_eq(name, "cast") || str_eq(name, "spell") || str_eq(name, "mana") {
            Err(TriggerError::NeedsMana { name: name.to_owned() })
        } else {
            Err(TriggerError::Unknown { name: name.to_owned() })
        }
    }
}

/// Where a looked-at card goes: a router, not a filter.
#[derive(Debug, Clone, Copy, PartialEq, Eq, Structural)]
pub enum Route {
    /// Nothing leaves the top of the library.
    Nowhere,
    /// Every looked-at card goes to the graveyard. This is mill.
    Everything,
    /// Cards matching this grouping query go to the graveyard; the rest stay
    /// on top.
    Matching(usize),
}

impl Route {
    /// Whether this route can put a card anywhere other than back on top.
    pub fn is_live(self) -> (r: bool)
        ensures
            r == !(self is Nowhere),
    {
        match self {
            Route::Nowhere => false,
            _ => true,
        }
    }
}

/// One effect, with its queries resolved to positions in a grouping.
/// `matched_by` is the group bit meaning *this card's effect is this one*.
#[derive(Debug, Clone, Copy, PartialEq, Eq, Structural)]
pub struct Effect {
    pub matched_by: usize,
    /// How many cards off the top this examines.
    pub look: u32,
    pub trigger: Trigger,
    pub route: Route,
}

} // verus!

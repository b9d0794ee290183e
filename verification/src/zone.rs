//! Which zone a question is asking about.
//!
//! "Did I find the card" is not a well-formed question; "is the card in this
//! zone by this turn" is. A zone the engine cannot model has no variant here,
//! so it is refused by name at the file boundary rather than approximated.

use vstd::prelude::*;
use crate::text::str_eq;

verus! {

/// A gameplay zone a criterion may count cards in.
#[derive(Debug, Clone, Copy, PartialEq, Eq, Hash, Structural)]
pub enum Zone {
    /// The default, and what every count in this tool has always meant.
    Hand,
    /// Askable, and empty unless an effect routes a card there. Unordered.
    Graveyard,
    /// What has not been drawn yet.
    Library,
}

/// A zone name this engine will not answer questions about.
#[derive(Debug, Clone, PartialEq, Eq)]
pub enum ZoneError {
    /// Refused by name rather than approximated: knowing a card is on the
    /// battlefield means knowing it could be cast.
    Battlefield,
    /// Not a zone this tool knows.
    Unknown { name: String },
}

/// Every zone a criteria file may name, for the message that lists them.
pub const ZONES_ACCEPTED: &'static str = "hand, graveyard, library";

/// The name a zone is written with.
pub open spec fn zone_name(z: Zone) -> Seq<char> {
    match z {
        Zone::Hand => "hand"@,
        Zone::Graveyard => "graveyard"@,
        Zone::Library => "library"@,
    }
}

/// What [`Zone::parse`] makes of a name.
pub open spec fn parse_zone(name: Seq<char>) -> Result<Zone, ZoneError> {
    if name == "hand"@ {
        Ok(Zone::Hand)
    } else if name == "graveyard"@ {
        Ok(Zone::Graveyard)
    } else if name == "library"@ {
        Ok(Zone::Library)
    } else if name == "battlefield"@ {
        Err(ZoneError::Battlefield)
    } else {
        Err(ZoneError::Unknown { name: arbitrary() })
    }
}

impl Zone {
    /// The zone a clause means when it does not say: the hand.
    pub fn default_zone() -> (z: Zone)
        ensures
            z == Zone::Hand,
    {
        Zone::Hand
    }

    pub fn as_str(self) -> (s: &'static str)
        ensures
            s@ == zone_name(self),
    {
        match self {
            Zone::Hand => "hand",
            Zone::Graveyard => "graveyard",
            Zone::Library => "library",
        }
    }

    /// Whether anything in this engine can put a card in this zone.
    pub fn is_reachable(self) -> (r: bool)
        ensures
            r == (self != Zone::Graveyard),
    {
        match self {
            Zone::Hand | Zone::Library => true,
            Zone::Graveyard => false,
        }
    }

    /// Read a zone from what a criteria file wrote.
    pub fn parse(name: &str) -> (r: Result<Zone, ZoneError>)
        ensures
            r is Ok <==> parse_zone(name@) is Ok,
            r is Ok ==> r == parse_zone(name@),
            (r matches Err(ZoneError::Battlefield)) <==> name@ == "battlefield"@,
            r matches Err(ZoneError::Unknown { name: n }) ==> n@ == name@ && parse_zone(name@) is Err
                && name@ != "battlefield"@,
    {
        proof {
            reveal_strlit("hand");
            reveal_strlit("graveyard");
            reveal_strlit("library");
            reveal_strlit("battlefield");
            assert("hand"@.len() != "battlefield"@.len());
            assert("graveyard"@.len() != "battlefield"@.len());
            assert("library"@.len() != "battlefield"@.len());
        }
        if str_eq(name, "hand") {
            Ok(Zone::Hand)
        } else if str_eq(name, "graveyard") {
            Ok(Zone::Graveyard)
        } else if str_eq(name, "library") {
            Ok(Zone::Library)
        } else if str_eq(name, "battlefield") {
            Err(ZoneError::Battlefield)
        } else {
            Err(ZoneError::Unknown { name: name.to_owned() })
        }
    }
}

} // verus!

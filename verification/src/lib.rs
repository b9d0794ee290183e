//! Exact draw questions about Magic: The Gathering decklists.
//!
//! A criterion may only ask *how many* cards matching a query it has seen,
//! never which ones, and that restriction is what keeps the answers exact:
//! cards matching the same queries are interchangeable, so they collapse into
//! groups and the questions become functions of per-group counts.
//!
//! The crate holds the parts of that which are logic: the text of queries and
//! mana costs, the legality rules a single card decides, the grouping of a
//! library, the turn schedule, the walk of one path through the effects, the
//! mana gate, and the reading of a criteria file once it has been decoded.

pub mod text;
pub mod zone;
pub mod mana;
pub mod grouping;
pub mod policy;
pub mod effect;
pub mod schedule;
pub mod board;
pub mod engine;
pub mod colors;
pub mod outside;
pub mod legality;
pub mod criteria;
pub mod sample;
pub mod query;
pub mod narrow;
pub mod cost;
pub mod report;
pub mod index;
pub mod deck;
pub mod library;
pub mod date;
pub mod matching;
pub mod script;

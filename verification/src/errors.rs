//! The error taxonomy. Every failure of the engine is attributable to exactly
//! one of these kinds; no error is silently recovered from.

use vstd::prelude::*;

verus! {

/// Everything that can go wrong in the engine or at the transport boundary.
#[derive(Debug)]
pub enum TrackError {
    /// No item (or dependency) matched the given name; carries the message
    /// text naming what was missing.
    NotFound(String),
    /// The prefix matched two or more items; carries the prefix and every match.
    AmbiguousPrefix(String, Vec<String>),
    /// The requested parent link would make an item its own ancestor.
    CycleDetected,
    /// An edge from an item to itself was requested.
    SelfReference,
    /// The exact blocking edge already exists.
    DuplicateDependency,
    /// The item is already claimed; carries the claimant.
    AlreadyClaimed(String),
    /// The item has no claimant to clear.
    NotClaimed,
    /// The item still has children that are not closed.
    HasOpenChildren,
    /// The tracker was already set up.
    AlreadyInitialized,
    /// No remote is configured.
    TransportUnavailable,
    /// The shared reference moved first; the optimistic write lost the race.
    TransportRejected,
    /// The snapshot text could not be parsed; carries a short description.
    MalformedSnapshot(String),
    /// An input/output failure outside the engine's control.
    IOFailure,
}

impl TrackError {
    /// A single human-readable line describing the failure.
    pub fn message(&self) -> String {
        match self {
            TrackError::NotFound(text) => text.clone(),
            TrackError::AmbiguousPrefix(prefix, matches) => {
                let mut m = String::new();
                m.append("ambiguous prefix '");
                m.append(prefix.as_str());
                m.append("' matches items: ");
                let mut i: usize = 0;
                while i < matches.len()
                    decreases matches.len() - i,
                {
                    if i > 0 {
                        m.append(", ");
                    }
                    m.append(matches[i].as_str());
                    i = i + 1;
                }
                m
            },
            TrackError::CycleDetected => make_message(
                "cycle detected: would create circular parent chain",
            ),
            TrackError::SelfReference => make_message("item cannot reference itself"),
            TrackError::DuplicateDependency => make_message("dependency already exists"),
            TrackError::AlreadyClaimed(who) => {
                let mut m = String::new();
                m.append("item already claimed by ");
                m.append(who.as_str());
                m
            },
            TrackError::NotClaimed => make_message("item is not claimed"),
            TrackError::HasOpenChildren => make_message("item has open children"),
            TrackError::AlreadyInitialized => make_message("already initialized"),
            TrackError::TransportUnavailable => make_message("no remote configured"),
            TrackError::TransportRejected => make_message(
                "rejected: the shared reference moved first",
            ),
            TrackError::MalformedSnapshot(detail) => {
                let mut m = String::new();
                m.append("invalid store JSON: ");
                m.append(detail.as_str());
                m
            },
            TrackError::IOFailure => make_message("input/output failure"),
        }
    }
}

/// Builds an owned message from a literal.
fn make_message(text: &str) -> (r: String)
    ensures
        r@ == text@,
{
    text.to_owned()
}

} // verus!

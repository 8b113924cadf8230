//! What the game last told the player.

use crate::text::{decimal, push_decimal};
use vstd::prelude::*;

verus! {

/// The outcome of the last action.
#[derive(Clone, Copy, PartialEq, Eq, Debug, Structural)]
pub enum Status {
    /// A new game on a known board: the fleet is to be placed.
    SetupHelp,
    /// A new game in assistant mode.
    AssistantHelp,
    /// The ship would not lie on the board.
    OffBoard,
    /// The ship would be in the way of another.
    BadSpot,
    /// A ship was placed; the next is ship `next` of `total`, of length `len`.
    Placed { next: usize, total: usize, len: usize },
    /// Not all of the remaining ships found a place.
    CannotFitRest,
    /// The placed ships were taken off the board.
    Cleared,
    /// No random fleet was found.
    CannotRandomize,
    /// The fleet is placed.
    Playing,
    /// A shot sank a ship of length `len`.
    SunkShip { len: usize },
    /// A shot hit a ship.
    Hit,
    /// A shot hit nothing.
    Miss,
    /// No ship is left after `shots` shots.
    Solved { shots: u32 },
    /// A run of hits as long as a remaining ship was marked as sunk.
    MarkedSunk { len: usize },
    /// A run of hits of a length that no remaining ship has was marked as sunk.
    MarkedNoShip { len: usize },
    /// A sunk run was turned back into hits.
    Unsunk { len: usize },
}

impl Status {
    /// The sentence that a status stands for.
    pub open spec fn sentence(self) -> Seq<char> {
        match self {
            Status::SetupHelp =>
                "Setup: click to place each ship (right-click or R to rotate), or hit Randomize."@,
            Status::AssistantHelp =>
                "Assistant mode: fire at the recommended cell, then mark the real result."@,
            Status::OffBoard => "Ship would run off the board there."@,
            Status::BadSpot => "Invalid spot — overlap or too close to another ship."@,
            Status::Placed { next, total, len } => "Placed. Next: ship "@ + decimal(next as nat)
                + "/"@ + decimal(total as nat) + " (length "@ + decimal(len as nat) + ")."@,
            Status::CannotFitRest => "Couldn't fit the rest — clear and try again."@,
            Status::Cleared => "Cleared. Place your ships."@,
            Status::CannotRandomize =>
                "Couldn't place the fleet randomly — adjust the configuration."@,
            Status::Playing => "Playing — fire at the brightest cell."@,
            Status::SunkShip { len } => "Hit — and sunk a length-"@ + decimal(len as nat)
                + " ship!"@,
            Status::Hit => "Hit!"@,
            Status::Miss => "Miss."@,
            Status::Solved { shots } => "Solved! All ships sunk in "@ + decimal(shots as nat)
                + " shots."@,
            Status::MarkedSunk { len } => "Marked a length-"@ + decimal(len as nat)
                + " ship sunk."@,
            Status::MarkedNoShip { len } => "Marked "@ + decimal(len as nat)
                + " cells sunk (no length-"@ + decimal(len as nat) + " ship in the fleet?)."@,
            Status::Unsunk { len } => "Un-sunk a length-"@ + decimal(len as nat) + " ship."@,
        }
    }

    /// The sentence to show.
    pub fn text(self) -> (r: String)
        ensures
            r@ == self.sentence(),
    {
        match self {
            Status::SetupHelp => String::from_str(
                "Setup: click to place each ship (right-click or R to rotate), or hit Randomize.",
            ),
            Status::AssistantHelp => String::from_str(
                "Assistant mode: fire at the recommended cell, then mark the real result.",
            ),
            Status::OffBoard => String::from_str("Ship would run off the board there."),
            Status::BadSpot => String::from_str(
                "Invalid spot — overlap or too close to another ship.",
            ),
            Status::Placed { next, total, len } => {
                let mut s = String::from_str("Placed. Next: ship ");
                push_fraction(&mut s, next, total, len);
                assert(s@ =~= self.sentence());
                s
            },
            Status::CannotFitRest => String::from_str(
                "Couldn't fit the rest — clear and try again.",
            ),
            Status::Cleared => String::from_str("Cleared. Place your ships."),
            Status::CannotRandomize => String::from_str(
                "Couldn't place the fleet randomly — adjust the configuration.",
            ),
            Status::Playing => String::from_str("Playing — fire at the brightest cell."),
            Status::SunkShip { len } => around("Hit — and sunk a length-", len as u64, " ship!"),
            Status::Hit => String::from_str("Hit!"),
            Status::Miss => String::from_str("Miss."),
            Status::Solved { shots } => around(
                "Solved! All ships sunk in ",
                shots as u64,
                " shots.",
            ),
            Status::MarkedSunk { len } => around("Marked a length-", len as u64, " ship sunk."),
            Status::MarkedNoShip { len } => {
                let mut s = around("Marked ", len as u64, " cells sunk (no length-");
                push_decimal(&mut s, len as u64);
                s.append(" ship in the fleet?).");
                s
            },
            Status::Unsunk { len } => around("Un-sunk a length-", len as u64, " ship."),
        }
    }
}

/// A number with text on both sides.
pub fn around(before: &str, n: u64, after: &str) -> (r: String)
    ensures
        r@ == before@ + decimal(n as nat) + after@,
{
    let mut s = String::from_str(before);
    push_decimal(&mut s, n);
    s.append(after);
    s
}

/// Appends the place of a ship in the fleet, and its length.
fn push_fraction(s: &mut String, next: usize, total: usize, len: usize)
    ensures
        final(s)@ == old(s)@ + decimal(next as nat) + "/"@ + decimal(total as nat) + " (length "@
            + decimal(len as nat) + ")."@,
{
    push_decimal(s, next as u64);
    s.append("/");
    push_decimal(s, total as u64);
    s.append(" (length ");
    push_decimal(s, len as u64);
    s.append(").");
}

/// What is to be placed next: ship `next` of `total`, of length `len`.
pub fn placing_line(next: usize, total: usize, len: usize) -> (r: String)
    ensures
        r@ == "Placing ship "@ + decimal(next as nat) + "/"@ + decimal(total as nat) + " (length "@
            + decimal(len as nat) + ")."@,
{
    let mut s = String::from_str("Placing ship ");
    push_fraction(&mut s, next, total, len);
    s
}

} // verus!

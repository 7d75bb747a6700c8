//! Search configuration: rule variant, beam width, depth budget and the
//! optional fixed opening guess.

use vstd::prelude::*;

verus! {

/// Options recognised by the search engine.
pub struct Config {
    /// Restrict every follow-up guess to words consistent with the feedback
    /// already received.
    pub hard: bool,
    /// Beam width: how many top-ranked candidates are expanded per level.
    pub breadth: usize,
    /// Maximum number of plies the search may spend.
    pub depth: usize,
    /// Restrict the guess pool to the answer pool.
    pub limit_guesses: bool,
    /// A fixed opening guess, if any.
    pub first_guess: Option<[u8; 5]>,
    /// Batch ranking mode: compute aggregate costs per opening guess instead
    /// of a full decision tree.
    pub search: bool,
}

impl Default for Config {
    /// The default configuration: easy rules, beam of 10, depth budget 6.
    fn default() -> (r: Self)
        ensures
            r.hard == false,
            r.breadth == 10,
            r.depth == 6,
            r.limit_guesses == false,
            r.first_guess is None,
            r.search == false,
    {
        Config {
            hard: false,
            breadth: 10,
            depth: 6,
            limit_guesses: false,
            first_guess: None,
            search: false,
        }
    }
}

} // verus!

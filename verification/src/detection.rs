//! The decisions of the detection loop: which feed books are comparable
//! with a venue moneyline, which venue team a feed outcome stands for, and
//! how a tracked comparison is keyed.

use vstd::prelude::*;

use crate::feed::{market_key, MarketUpdate};
use crate::text::{decimal_i64, decimal_text};
use std::collections::HashMap;

verus! {

/// Only this book type prices who wins; Asian Handicap and Over/Under books
/// reuse the same outcome names for a spread or a goals line.
pub const ODDS_TYPE: &'static str = "1X2_PARTICIPANT_RESULT";

/// A book is compared with the venue only when it is a full-match 1X2: a
/// period-scoped book ("half=1") prices who leads at the break, not who
/// wins the match.
pub open spec fn comparable(super_odds_type: Seq<char>, market_period: Option<String>) -> bool {
    super_odds_type == ODDS_TYPE@ && market_period is None
}

pub fn is_comparable(update: &MarketUpdate) -> (r: bool)
    ensures
        r == comparable(update.super_odds_type@, update.market_period),
{
    let wanted = String::from_str(ODDS_TYPE);
    update.super_odds_type == wanted && update.market_period.is_none()
}

/// What the detection loop does with one screened book.
#[derive(Debug, Clone, Copy, PartialEq, Eq, Structural)]
pub enum Gate {
    /// Not the 1X2 book: skipped.
    OtherType,
    /// A 1X2 book scoped to a period: skipped.
    PeriodScoped,
    /// A full-match 1X2 of a fixture the snapshot does not hold: skipped.
    UnknownFixture,
    /// Compared with the venue, outcome by outcome.
    Compare,
}

/// Sort one screened book: only a full-match 1X2 of a known fixture is
/// compared; the reason for any skip is kept for the log.
pub fn gate(update: &MarketUpdate, fixtures: &HashMap<i64, (String, String)>) -> (g: Gate)
    ensures
        g == (if update.super_odds_type@ != ODDS_TYPE@ {
            Gate::OtherType
        } else if update.market_period is Some {
            Gate::PeriodScoped
        } else if !fixtures@.contains_key(update.fixture_id) {
            Gate::UnknownFixture
        } else {
            Gate::Compare
        }),
        g == Gate::Compare ==> comparable(update.super_odds_type@, update.market_period),
{
    broadcast use vstd::std_specs::hash::group_hash_axioms;
    let wanted = String::from_str(ODDS_TYPE);
    if update.super_odds_type != wanted {
        Gate::OtherType
    } else if update.market_period.is_some() {
        Gate::PeriodScoped
    } else if !fixtures.contains_key(&update.fixture_id) {
        Gate::UnknownFixture
    } else {
        Gate::Compare
    }
}

/// The fixture participant a feed outcome stands for: "part1" the first,
/// "part2" the second; the draw leg has no moneyline counterpart.
pub fn team_for_outcome<'a>(outcome_id: &str, teams: &'a (String, String)) -> (t: Option<&'a String>)
    ensures
        outcome_id@ == "part1"@ ==> t == Some(&teams.0),
        outcome_id@ == "part2"@ ==> t == Some(&teams.1),
        outcome_id@ != "part1"@ && outcome_id@ != "part2"@ ==> t is None,
{
    proof {
        reveal_strlit("part1");
        reveal_strlit("part2");
        assert("part1"@[4] != "part2"@[4]);
    }
    let outcome = String::from_str(outcome_id);
    let part1 = String::from_str("part1");
    let part2 = String::from_str("part2");
    if outcome == part1 {
        Some(&teams.0)
    } else if outcome == part2 {
        Some(&teams.1)
    } else {
        None
    }
}

/// The key of a tracked comparison: fixture id and venue market id,
/// colon-separated.
pub fn match_key(fixture_id: i64, market_id: &str) -> (k: String)
    ensures
        k@ == market_key(fixture_id, market_id@),
{
    proof {
        reveal_strlit(":");
    }
    decimal_i64(fixture_id).concat(":").concat(market_id)
}

/// A period-scoped book is never compared, whatever its type.
pub proof fn lemma_period_books_are_never_compared(super_odds_type: Seq<char>, period: String)
    ensures
        !comparable(super_odds_type, Some(period)),
{
}

} // verus!

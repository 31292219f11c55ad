use mimi::detection::{gate, is_comparable, match_key, team_for_outcome, Gate, ODDS_TYPE};
use mimi::feed::{Book, Leg, MarketUpdate};

fn update(kind: &str, period: Option<&str>) -> MarketUpdate {
    MarketUpdate {
        market_id: format!("1:{kind}"),
        fixture_id: 1,
        super_odds_type: kind.into(),
        in_running: false,
        market_period: period.map(String::from),
        book: Book {
            legs: vec![Leg { name: "part1".into(), raw: 2000 }, Leg { name: "part2".into(), raw: 2000 }],
            price_scale: 1000,
        },
    }
}

#[test]
fn only_full_match_1x2_books_are_compared() {
    assert!(is_comparable(&update(ODDS_TYPE, None)));
    assert!(!is_comparable(&update(ODDS_TYPE, Some("half=1"))));
    assert!(!is_comparable(&update("ASIAN_HANDICAP", None)));
}

#[test]
fn outcomes_map_to_participants_and_draw_has_none() {
    let teams = ("Spain".to_string(), "Argentina".to_string());
    assert_eq!(team_for_outcome("part1", &teams).map(String::as_str), Some("Spain"));
    assert_eq!(team_for_outcome("part2", &teams).map(String::as_str), Some("Argentina"));
    assert!(team_for_outcome("draw", &teams).is_none());
}

#[test]
fn match_key_is_fixture_and_market() {
    assert_eq!(match_key(18257739, "POLY-2941974"), "18257739:POLY-2941974");
    assert_eq!(match_key(0, "M"), "0:M");
}

#[test]
fn gate_keeps_only_full_match_1x2_of_known_fixtures() {
    let mut fixtures = std::collections::HashMap::new();
    fixtures.insert(1i64, ("Home".to_string(), "Away".to_string()));
    assert_eq!(gate(&update(ODDS_TYPE, None), &fixtures), Gate::Compare);
    assert_eq!(gate(&update("OU", None), &fixtures), Gate::OtherType);
    assert_eq!(gate(&update(ODDS_TYPE, Some("half=1")), &fixtures), Gate::PeriodScoped);
    let empty = std::collections::HashMap::new();
    assert_eq!(gate(&update(ODDS_TYPE, None), &empty), Gate::UnknownFixture);
}

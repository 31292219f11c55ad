use mimi::mapping::{normalize, Game, Matcher};

fn game(a: (&str, &str), b: (&str, &str)) -> Game {
    Game {
        teams: vec![
            (normalize(a.0), a.0.to_string(), a.1.to_string()),
            (normalize(b.0), b.0.to_string(), b.1.to_string()),
        ],
        title: Some("Test Event".into()),
    }
}

#[test]
fn normalize_strips_punctuation_and_case() {
    assert_eq!(normalize("St. Louis Cardinals"), "stlouiscardinals");
    assert_eq!(normalize("USA"), "usa");
    assert_eq!(normalize("Man. United"), "manunited");
}

#[test]
fn resolves_exact_and_partial_team_names() {
    let m = Matcher {
        games: vec![game(("Miami Marlins", "POLY-1-0"), ("Milwaukee Brewers", "POLY-1-1"))],
    };
    let exact = m.resolve("Miami Marlins").unwrap();
    assert_eq!(exact.market_id, "POLY-1-0");
    assert_eq!(exact.side, "yes");
    assert_eq!(exact.opponent, "Milwaukee Brewers");
    assert!(m.resolve("Brewers").is_some());
    assert!(m.resolve("Toronto Blue Jays").is_none());
}

#[test]
fn exact_match_beats_an_earlier_fuzzy_match() {
    let m = Matcher {
        games: vec![
            game(("Manchester City", "M-1"), ("Norwich City", "M-2")),
            game(("City", "M-3"), ("Rovers", "M-4")),
        ],
    };
    assert_eq!(m.resolve("City").unwrap().market_id, "M-3");
}

#[test]
fn ambiguous_fuzzy_match_refuses_rather_than_guessing() {
    let m = Matcher {
        games: vec![game(("Manchester City", "M-1"), ("Norwich City", "M-2"))],
    };
    assert!(m.resolve("City FC").is_none() || m.resolve("Cit").is_none());
    assert!(m.resolve("ci").is_none(), "2-char keys must not resolve");
}

#[test]
fn normalizing_an_ascii_name_twice_changes_nothing() {
    let once = normalize("Team #9 - A&M (Home)");
    assert_eq!(once, "team9amhome");
    assert!(once.len() <= "Team #9 - A&M (Home)".len());
    assert_eq!(normalize(&once), once);
}

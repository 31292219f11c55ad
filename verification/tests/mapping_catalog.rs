use mimi::mapping::{normalize, Matcher};
use mimi::venue::{EventDto, EventMetaDto, EventsResponse, MarketDto, TeamDto};

fn team_market(id: &str, team: Option<&str>, status: &str) -> MarketDto {
    MarketDto {
        market_id: id.into(),
        status: Some(status.into()),
        pricing: None,
        team: team.map(|t| TeamDto { name: t.into(), image_url: None, color: None, abbreviation: None }),
    }
}

#[test]
fn catalog_indexes_open_two_team_events_only() {
    let resp = EventsResponse {
        data: vec![
            EventDto {
                metadata: Some(EventMetaDto { title: Some("Spain vs Argentina".into()) }),
                volume_usd: None,
                markets: vec![
                    team_market("POLY-2941974", Some("Spain"), "open"),
                    team_market("POLY-2941975", None, "open"),
                    team_market("POLY-2941976", Some("Argentina"), "open"),
                ],
            },
            EventDto {
                metadata: None,
                volume_usd: None,
                markets: vec![
                    team_market("X-1", Some("Closed FC"), "closed"),
                    team_market("X-2", Some("Open FC"), "open"),
                ],
            },
        ],
    };
    let m = Matcher::from_events(&resp);
    assert_eq!(m.game_count(), 1);
    assert_eq!(m.market_ids(), vec!["POLY-2941974".to_string(), "POLY-2941976".to_string()]);
    let r = m.resolve("Argentina").unwrap();
    assert_eq!(r.market_id, "POLY-2941976");
    assert_eq!(r.opponent, "Spain");
    assert_eq!(r.event_title.as_deref(), Some("Spain vs Argentina"));
    assert!(m.resolve("Open FC").is_none());
    assert!(m.market_ids().contains(&r.market_id));
}

#[test]
fn normalize_keeps_unicode_letters_and_digits() {
    assert_eq!(normalize("Bayern München 04"), "bayernmünchen04");
    assert_eq!(normalize("--"), "");
}

use mimi::venue::{
    find_quote, merge_listings, refreshed_snapshot, volume_usd_of, EventDto, EventMetaDto,
    EventsResponse, MarketDto, PricingDto, TeamDto, VolumeField,
};

fn market(id: &str, status: &str, yes: Option<i64>, no: Option<i64>) -> MarketDto {
    MarketDto {
        market_id: id.into(),
        status: Some(status.into()),
        pricing: Some(PricingDto { buy_yes_price_usd: yes, buy_no_price_usd: no }),
        team: Some(TeamDto {
            name: format!("Team {id}"),
            image_url: Some("img".into()),
            color: None,
            abbreviation: Some("ABC".into()),
        }),
    }
}

fn event(title: &str, volume: Option<i64>, markets: Vec<MarketDto>) -> EventDto {
    EventDto { metadata: Some(EventMetaDto { title: Some(title.into()) }), volume_usd: volume, markets }
}

fn ids(r: &EventsResponse) -> Vec<String> {
    r.data.iter().flat_map(|e| e.markets.iter().map(|m| m.market_id.clone())).collect()
}

#[test]
fn events_dedupes_market_ids_across_filters() {
    let live = EventsResponse {
        data: vec![event("A", None, vec![market("M1", "open", None, None), market("M2", "open", None, None)])],
    };
    let upcoming = EventsResponse {
        data: vec![
            event("A again", None, vec![market("M2", "open", None, None), market("M3", "open", None, None)]),
            event("B", None, vec![market("M1", "open", None, None)]),
        ],
    };
    let merged = merge_listings(&vec![live, upcoming]);
    assert_eq!(ids(&merged), vec!["M1", "M2", "M3"]);
    // The event left with no new market is dropped; the first keeps its title.
    assert_eq!(merged.data.len(), 2);
    assert_eq!(merged.data[1].metadata.as_ref().unwrap().title.as_deref(), Some("A again"));
    assert_eq!(merged.data[1].markets.len(), 1);
}

#[test]
fn merge_of_nothing_is_empty_and_keeps_last_good() {
    let merged = merge_listings(&vec![]);
    assert!(merged.data.is_empty());
    let last = EventsResponse { data: vec![event("A", None, vec![market("M1", "open", None, None)])] };
    let kept = refreshed_snapshot(merged, Some(last)).unwrap();
    assert_eq!(ids(&kept), vec!["M1"]);
    let fresh = EventsResponse { data: vec![event("B", None, vec![market("M9", "open", None, None)])] };
    assert_eq!(ids(&refreshed_snapshot(fresh, None).unwrap()), vec!["M9"]);
}

#[test]
fn quote_reads_the_requested_side_in_micro_dollars() {
    let resp = EventsResponse {
        data: vec![event("Spain vs Argentina", Some(858_355_000_000), vec![
            market("POLY-1", "open", Some(425_000), Some(580_000)),
        ])],
    };
    let q = find_quote(&resp, "POLY-1", "yes").unwrap();
    assert_eq!(q.price_micro, 425_000);
    assert_eq!(q.volume_micro, Some(858_355_000_000));
    assert_eq!(q.event_title.as_deref(), Some("Spain vs Argentina"));
    assert_eq!(q.image_url.as_deref(), Some("img"));
    assert_eq!(q.abbreviation.as_deref(), Some("ABC"));
    assert_eq!(find_quote(&resp, "POLY-1", "no").unwrap().price_micro, 580_000);
    assert!(find_quote(&resp, "POLY-1", "draw").is_none());
    assert!(find_quote(&resp, "POLY-2", "yes").is_none());
}

#[test]
fn closed_market_returns_none_not_zero() {
    let resp = EventsResponse {
        data: vec![
            event("A", None, vec![market("M1", "closed", Some(0), Some(1_000_000))]),
            event("B", None, vec![market("M1", "open", Some(400_000), None)]),
        ],
    };
    // The first market with the id decides.
    assert!(find_quote(&resp, "M1", "yes").is_none());
    assert!(find_quote(&resp, "M1", "no").is_none());
}

#[test]
fn zeroed_side_is_absent_liquidity() {
    let resp = EventsResponse { data: vec![event("A", None, vec![market("M1", "open", Some(0), Some(-3))])] };
    assert!(find_quote(&resp, "M1", "yes").is_none());
    assert!(find_quote(&resp, "M1", "no").is_none());
}

#[test]
fn volume_arrives_as_number_or_text() {
    assert_eq!(volume_usd_of(&VolumeField::Number(858_355_000_000)), Some(858_355_000_000));
    assert_eq!(volume_usd_of(&VolumeField::Text("616716000000".into())), Some(616_716_000_000));
    assert_eq!(volume_usd_of(&VolumeField::Text("+7".into())), Some(7));
    assert_eq!(volume_usd_of(&VolumeField::Text("-9223372036854775808".into())), Some(i64::MIN));
    assert_eq!(volume_usd_of(&VolumeField::Text("9223372036854775808".into())), None);
    assert_eq!(volume_usd_of(&VolumeField::Text("12.5".into())), None);
    assert_eq!(volume_usd_of(&VolumeField::Text("".into())), None);
    assert_eq!(volume_usd_of(&VolumeField::Text("-".into())), None);
    assert_eq!(volume_usd_of(&VolumeField::Null), None);
}

#[test]
fn snapshot_is_served_for_forty_five_seconds() {
    assert!(mimi::venue::cache_is_fresh(0));
    assert!(mimi::venue::cache_is_fresh(44_999));
    assert!(!mimi::venue::cache_is_fresh(45_000));
}

#[test]
fn merge_keeps_first_occurrence_order_across_three_listings() {
    let m = |id: &str| market(id, "open", None, None);
    let live = EventsResponse { data: vec![event("A", None, vec![m("M3"), m("M1")])] };
    let upcoming = EventsResponse { data: vec![event("B", None, vec![m("M1")]), event("C", None, vec![m("M2")])] };
    let trending = EventsResponse { data: vec![event("D", None, vec![m("M2"), m("M4"), m("M3")])] };
    let merged = merge_listings(&vec![live, upcoming, trending]);
    assert_eq!(ids(&merged), vec!["M3", "M1", "M2", "M4"]);
    assert!(merged.data.iter().all(|e| !e.markets.is_empty()));
    assert_eq!(merged.data.len(), 3);
}

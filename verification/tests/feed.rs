use mimi::feed::{
    fixture_index, head, keeps_stream, next_backoff_secs, next_step, FeedDecoder, FixtureRecord,
    MarketUpdate, OddsRecord, ReadOutcome, Screened, SourceStep, DEFAULT_PRICE_SCALE,
};

// Decode one SSE record the way the app does, by calls on a JSON value.
fn record_from_json(json: &str) -> Option<OddsRecord> {
    let v: serde_json::Value = serde_json::from_str(json).ok()?;
    let names = v.get("PriceNames")?.as_array()?;
    let prices = v.get("Prices")?.as_array()?;
    Some(OddsRecord {
        fixture_id: v.get("FixtureId")?.as_i64()?,
        super_odds_type: v.get("SuperOddsType")?.as_str()?.to_string(),
        in_running: v.get("InRunning")?.as_bool()?,
        market_period: v.get("MarketPeriod").and_then(|p| p.as_str()).map(String::from),
        price_names: names.iter().map(|n| n.as_str().map(String::from)).collect::<Option<Vec<_>>>()?,
        prices: prices
            .iter()
            .map(|p| p.as_i64().and_then(|x| i32::try_from(x).ok()))
            .collect::<Option<Vec<_>>>()?,
    })
}

fn record_to_update(dec: &mut FeedDecoder, json: &str) -> Option<MarketUpdate> {
    let rec = record_from_json(json)?;
    match dec.screen(&rec) {
        Screened::Update(u) => Some(u),
        _ => None,
    }
}

#[test]
fn head_never_panics_on_multibyte() {
    let body = format!("a{}", "\u{20ac}".repeat(400));
    assert!(head(&body, 300).len() <= 300);
    assert_eq!(head("short", 300), "short");
}

#[test]
fn head_cuts_back_to_a_char_boundary() {
    // "a" then three-byte euros: 300 bytes would end inside a euro sign.
    let body = format!("a{}", "\u{20ac}".repeat(400));
    let h = head(&body, 300);
    assert_eq!(h.len(), 298);
    assert!(body.starts_with(h));
    assert_eq!(head("abc", 0), "");
    assert_eq!(head("abcdef", 3), "abc");
}

#[test]
fn first_half_book_is_tagged_not_silently_full_match() {
    let mut src = FeedDecoder::new(DEFAULT_PRICE_SCALE);
    let json = r#"{"FixtureId":18257739,"SuperOddsType":"1X2_PARTICIPANT_RESULT","InRunning":false,"MarketPeriod":"half=1","PriceNames":["part1","draw","part2"],"Prices":[3327,2045,4748]}"#;
    let u = record_to_update(&mut src, json).expect("should parse");
    assert_eq!(u.market_period.as_deref(), Some("half=1"));
}

#[test]
fn partial_book_is_refused_not_renormalized() {
    let mut src = FeedDecoder::new(DEFAULT_PRICE_SCALE);
    let json = r#"{"FixtureId":7,"SuperOddsType":"1X2","InRunning":true,"PriceNames":["h","d","a"],"Prices":[2000,0,4000]}"#;
    assert!(record_to_update(&mut src, json).is_none(), "suspended leg must void the book");
}

#[test]
fn wrong_price_scale_drops_loudly() {
    let mut src = FeedDecoder::new(DEFAULT_PRICE_SCALE);
    src.price_scale = 1_000_000; // every decimal now < 1.0
    let json = r#"{"FixtureId":8,"SuperOddsType":"1X2","InRunning":true,"PriceNames":["h","a"],"Prices":[1500,3000]}"#;
    assert!(record_to_update(&mut src, json).is_none());
    assert_eq!(src.dropped, 1, "drop must be counted, not silent");
}

#[test]
fn parses_odds_record_into_market() {
    let mut src = FeedDecoder::new(DEFAULT_PRICE_SCALE);
    let json = r#"{"FixtureId":123,"SuperOddsType":"1X2","InRunning":true,"PriceNames":["home","draw","away"],"Prices":[2000,3500,4000]}"#;
    let u = record_to_update(&mut src, json).expect("should parse");
    assert_eq!(u.market_id, "123:1X2");
    assert_eq!(u.super_odds_type, "1X2");
    assert!(u.in_running, "in_running must survive into the update");
    assert_eq!(u.book.legs.len(), 3);
    assert!((u.book.legs[0].raw as f64 / u.book.price_scale as f64 - 2.0).abs() < 1e-9);
}

#[test]
fn sse_framing_yields_a_buffered_update() {
    let mut src = FeedDecoder::new(DEFAULT_PRICE_SCALE);
    src.pending.push_str("data: {\"FixtureId\":9,\"SuperOddsType\":\"1X2\",\"InRunning\":false,\"PriceNames\":[\"h\",\"a\"],\"Prices\":[1500,3000]}\n\n");
    let mut buf: Vec<MarketUpdate> = Vec::new();
    for data in src.drain_frames() {
        if let Some(u) = record_to_update(&mut src, &data) {
            buf.push(u);
        }
    }
    assert_eq!(buf.len(), 1);
    assert_eq!(buf[0].market_id, "9:1X2");
}

#[test]
fn framing_keeps_incomplete_frames_and_skips_empty_ones() {
    let mut src = FeedDecoder::new(DEFAULT_PRICE_SCALE);
    src.pending.push_str(": keepalive\n\ndata: {}\n\ndata:  {\"a\":\r\ndata:1}\r\n\nevent: x\ndata: tail");
    let records = src.drain_frames();
    assert_eq!(records, vec!["{\"a\":1}".to_string()]);
    assert_eq!(src.pending, "event: x\ndata: tail");
    assert!(src.drain_frames().is_empty());
    src.pending.push_str("\n\n");
    assert_eq!(src.drain_frames(), vec!["tail".to_string()]);
    assert_eq!(src.pending, "");
}

#[test]
fn screening_reports_first_three_drops_then_every_hundredth() {
    let mut src = FeedDecoder::new(DEFAULT_PRICE_SCALE);
    let rec = OddsRecord {
        fixture_id: 1,
        super_odds_type: "1X2".into(),
        in_running: false,
        market_period: None,
        price_names: vec!["h".into(), "a".into()],
        prices: vec![-5, 900],
    };
    let mut reports = Vec::new();
    for _ in 0..100 {
        match src.screen(&rec) {
            Screened::Dropped { rejected, legs, report } => {
                assert_eq!((rejected, legs), (2, 2));
                reports.push(report);
            }
            other => panic!("expected a drop, got {other:?}"),
        }
    }
    assert_eq!(src.dropped, 100);
    assert!(reports[0] && reports[1] && reports[2]);
    assert!(!reports[3] && !reports[98]);
    assert!(reports[99]);
}

#[test]
fn one_usable_leg_is_too_few() {
    let mut src = FeedDecoder::new(DEFAULT_PRICE_SCALE);
    let rec = OddsRecord {
        fixture_id: -4,
        super_odds_type: "X".into(),
        in_running: false,
        market_period: None,
        price_names: vec!["h".into(), "a".into()],
        prices: vec![1000],
    };
    assert!(matches!(src.screen(&rec), Screened::TooFewLegs));
    assert_eq!(src.dropped, 0);
}

#[test]
fn negative_fixture_ids_render_with_sign() {
    let mut src = FeedDecoder::new(DEFAULT_PRICE_SCALE);
    let rec = OddsRecord {
        fixture_id: -42,
        super_odds_type: "1X2".into(),
        in_running: false,
        market_period: None,
        price_names: vec!["h".into(), "a".into(), "extra".into()],
        prices: vec![1000, 5000],
    };
    match src.screen(&rec) {
        Screened::Update(u) => {
            assert_eq!(u.market_id, "-42:1X2");
            assert_eq!(u.book.legs.len(), 2);
            assert_eq!(u.book.legs[1].name, "a");
            assert_eq!(u.book.legs[1].raw, 5000);
        }
        other => panic!("expected an update, got {other:?}"),
    }
}

#[test]
fn backoff_doubles_up_to_thirty_seconds() {
    let mut s = 1;
    let mut seen = Vec::new();
    for _ in 0..7 {
        seen.push(s);
        s = next_backoff_secs(s);
    }
    assert_eq!(seen, vec![1, 2, 4, 8, 16, 30, 30]);
}

#[test]
fn later_fixture_record_replaces_earlier() {
    let recs = vec![
        FixtureRecord { fixture_id: 1, participant1: "A".into(), participant2: "B".into() },
        FixtureRecord { fixture_id: 2, participant1: "C".into(), participant2: "D".into() },
        FixtureRecord { fixture_id: 1, participant1: "E".into(), participant2: "F".into() },
    ];
    let m = fixture_index(&recs);
    assert_eq!(m.len(), 2);
    assert_eq!(m[&1], ("E".to_string(), "F".to_string()));
    assert_eq!(m[&2], ("C".to_string(), "D".to_string()));
}

#[test]
fn pending_keeps_the_tail_after_the_last_complete_frame() {
    let mut dec = FeedDecoder::new(DEFAULT_PRICE_SCALE);
    dec.pending.push_str("data: {\"a\":1}\n\n\ndata: {\"b\"");
    let records = dec.drain_frames();
    assert_eq!(records, vec!["{\"a\":1}".to_string()]);
    assert_eq!(dec.pending, "\ndata: {\"b\"");
    assert!(!dec.pending.contains("\n\n"));
}

#[test]
fn source_hands_out_buffered_updates_before_reading_or_reconnecting() {
    assert_eq!(next_step(2, false), SourceStep::Yield);
    assert_eq!(next_step(0, false), SourceStep::Reconnect);
    assert_eq!(next_step(0, true), SourceStep::Read);
    assert!(keeps_stream(ReadOutcome::Chunk));
    assert!(!keeps_stream(ReadOutcome::Failed));
    assert!(!keeps_stream(ReadOutcome::Closed));
}

//! Jupiter Predict catalog: the event/market records the venue serves, the
//! union of its filtered listings, and the priced read of one market side.

use vstd::prelude::*;

use crate::text::{parse_i64, parsed_i64, precedes};

verus! {

/// Listing filters whose union forms the venue's market universe.
pub const FILTERS: [&'static str; 3] = ["live", "upcoming", "trending"];

/// How long a venue snapshot is served before it is fetched again, in
/// milliseconds. The venue allows about five requests a minute and a
/// refresh costs one per filter, so 45 s (four a minute) is the floor.
pub const CACHE_TTL_MS: u128 = 45_000;

/// A snapshot fetched `elapsed_ms` ago is still served.
pub fn cache_is_fresh(elapsed_ms: u128) -> (fresh: bool)
    ensures
        fresh == (elapsed_ms < CACHE_TTL_MS),
{
    elapsed_ms < CACHE_TTL_MS
}

/// Micro-dollars per dollar: venue prices and notionals are integers in
/// this unit.
pub const USD_SCALE: i64 = 1_000_000;

#[derive(Debug, Clone)]
pub struct EventsResponse {
    pub data: Vec<EventDto>,
}

#[derive(Debug, Clone)]
pub struct EventDto {
    pub metadata: Option<EventMetaDto>,
    /// Event-level notional in micro-dollars.
    pub volume_usd: Option<i64>,
    pub markets: Vec<MarketDto>,
}

#[derive(Debug, Clone)]
pub struct EventMetaDto {
    pub title: Option<String>,
}

#[derive(Debug, Clone)]
pub struct MarketDto {
    pub market_id: String,
    pub status: Option<String>,
    pub pricing: Option<PricingDto>,
    pub team: Option<TeamDto>,
}

#[derive(Debug, Clone)]
pub struct TeamDto {
    pub name: String,
    pub image_url: Option<String>,
    pub color: Option<String>,
    pub abbreviation: Option<String>,
}

#[derive(Debug, Clone)]
pub struct PricingDto {
    pub buy_yes_price_usd: Option<i64>,
    pub buy_no_price_usd: Option<i64>,
}

/// The characters of an optional string.
pub open spec fn opt_chars(o: Option<String>) -> Option<Seq<char>> {
    match o {
        Some(s) => Some(s@),
        None => None,
    }
}

/// A market is open when its status is exactly `"open"`.
pub open spec fn is_open_status(status: Option<String>) -> bool {
    status matches Some(s) && s@ == "open"@
}

/// The title an event carries, if its metadata has one.
pub open spec fn event_title(e: EventDto) -> Option<Seq<char>> {
    match e.metadata {
        Some(md) => opt_chars(md.title),
        None => None,
    }
}

/// Copy of an optional string.
pub(crate) fn clone_opt(o: &Option<String>) -> (r: Option<String>)
    ensures
        r == *o,
{
    match o {
        Some(s) => Some(s.clone()),
        None => None,
    }
}

/// Whether a market status reads exactly `"open"`.
pub(crate) fn status_is_open(status: &Option<String>) -> (r: bool)
    ensures
        r == is_open_status(*status),
{
    match status {
        Some(s) => {
            let open = String::from_str("open");
            *s == open
        },
        None => false,
    }
}

/// The title of an event, copied out of its metadata.
pub(crate) fn title_of(e: &EventDto) -> (r: Option<String>)
    ensures
        opt_chars(r) == event_title(*e),
{
    match &e.metadata {
        Some(md) => clone_opt(&md.title),
        None => None,
    }
}


fn copy_team(t: &TeamDto) -> (r: TeamDto)
    ensures
        r == *t,
{
    TeamDto {
        name: t.name.clone(),
        image_url: clone_opt(&t.image_url),
        color: clone_opt(&t.color),
        abbreviation: clone_opt(&t.abbreviation),
    }
}

/// A field-for-field copy of a market record.
fn copy_market(m: &MarketDto) -> (r: MarketDto)
    ensures
        r == *m,
{
    MarketDto {
        market_id: m.market_id.clone(),
        status: clone_opt(&m.status),
        pricing: match &m.pricing {
            Some(p) => Some(PricingDto {
                buy_yes_price_usd: p.buy_yes_price_usd,
                buy_no_price_usd: p.buy_no_price_usd,
            }),
            None => None,
        },
        team: match &m.team {
            Some(t) => Some(copy_team(t)),
            None => None,
        },
    }
}

fn copy_meta(m: &Option<EventMetaDto>) -> (r: Option<EventMetaDto>)
    ensures
        r == *m,
{
    match m {
        Some(md) => Some(EventMetaDto { title: clone_opt(&md.title) }),
        None => None,
    }
}

/// An event as the merge sees it: its metadata, notional and markets.
pub struct EventView {
    pub metadata: Option<EventMetaDto>,
    pub volume_usd: Option<i64>,
    pub markets: Seq<MarketDto>,
}

impl View for EventDto {
    type V = EventView;

    open spec fn view(&self) -> EventView {
        EventView { metadata: self.metadata, volume_usd: self.volume_usd, markets: self.markets@ }
    }
}

/// The ids of a run of markets, in order.
pub open spec fn market_ids(ms: Seq<MarketDto>) -> Seq<Seq<char>> {
    ms.map_values(|m: MarketDto| m.market_id@)
}

/// The markets of `ms` whose id is neither in `seen` nor taken earlier in
/// `ms`: the first occurrence of each new id, in order.
pub open spec fn fresh_markets(ms: Seq<MarketDto>, seen: Set<Seq<char>>) -> Seq<MarketDto>
    decreases ms.len(),
{
    if ms.len() == 0 {
        Seq::empty()
    } else if seen.contains(ms[0].market_id@) {
        fresh_markets(ms.drop_first(), seen)
    } else {
        seq![ms[0]] + fresh_markets(ms.drop_first(), seen.insert(ms[0].market_id@))
    }
}

/// The union of listed events, each market id kept at its first
/// occurrence only (ids in `seen` are already taken); events left with no
/// market are dropped.
pub open spec fn merged_events(es: Seq<EventDto>, seen: Set<Seq<char>>) -> Seq<EventView>
    decreases es.len(),
{
    if es.len() == 0 {
        Seq::empty()
    } else {
        let e = es[0];
        let kept = fresh_markets(e.markets@, seen);
        let rest = merged_events(es.drop_first(), seen + market_ids(e.markets@).to_set());
        if kept.len() > 0 {
            seq![EventView { metadata: e.metadata, volume_usd: e.volume_usd, markets: kept }] + rest
        } else {
            rest
        }
    }
}

/// Every event of a run of listings, listing by listing.
pub open spec fn listed_events(rs: Seq<EventsResponse>) -> Seq<EventDto>
    decreases rs.len(),
{
    if rs.len() == 0 {
        Seq::empty()
    } else {
        rs[0].data@ + listed_events(rs.drop_first())
    }
}

fn keep_fresh(
    ms: &Vec<MarketDto>,
    seen: &mut vstd::hash_map::StringHashMap<bool>,
) -> (kept: Vec<MarketDto>)
    ensures
        kept@ == fresh_markets(ms@, old(seen)@.dom()),
        final(seen)@.dom() == old(seen)@.dom() + market_ids(ms@).to_set(),
{
    let mut kept: Vec<MarketDto> = Vec::new();
    let mut k: usize = 0;
    let ghost seen0 = seen@.dom();
    proof {
        assert(ms@.skip(0) =~= ms@);
        assert(ms@.take(0) =~= Seq::<MarketDto>::empty());
        assert(market_ids(ms@.take(0)).to_set() =~= Set::<Seq<char>>::empty());
        assert(seen0 + Set::<Seq<char>>::empty() =~= seen0);
        assert(kept@ + fresh_markets(ms@, seen0) =~= fresh_markets(ms@, seen0));
    }
    while k < ms.len()
        invariant
            k <= ms@.len(),
            fresh_markets(ms@, seen0) == kept@ + fresh_markets(ms@.skip(k as int), seen@.dom()),
            seen@.dom() == seen0 + market_ids(ms@.take(k as int)).to_set(),
        decreases ms@.len() - k,
    {
        let m = &ms[k];
        let ghost tail = ms@.skip(k as int);
        proof {
            assert(tail[0] == *m);
            assert(tail.drop_first() =~= ms@.skip(k + 1));
            assert(market_ids(ms@.take(k + 1)) =~= market_ids(ms@.take(k as int)).push(m.market_id@));
            assert(market_ids(ms@.take(k + 1)).to_set() =~= market_ids(ms@.take(k as int)).to_set().insert(
                m.market_id@,
            )) by {
                market_ids(ms@.take(k as int)).lemma_push_to_set_commute(m.market_id@);
            }
        }
        if !seen.contains_key(m.market_id.as_str()) {
            let ghost before = kept@;
            kept.push(copy_market(m));
            seen.insert(m.market_id.clone(), true);
            proof {
                assert(kept@ =~= before + seq![*m]);
                assert(seen@.dom() =~= seen0 + market_ids(ms@.take(k + 1)).to_set());
            }
        } else {
            proof {
                assert(seen@.dom() =~= seen0 + market_ids(ms@.take(k + 1)).to_set());
            }
        }
        k += 1;
    }
    proof {
        assert(ms@.take(ms@.len() as int) =~= ms@);
        assert(ms@.skip(ms@.len() as int) =~= Seq::<MarketDto>::empty());
        assert(kept@ + fresh_markets(Seq::<MarketDto>::empty(), seen@.dom()) =~= kept@);
    }
    kept
}

/// Union of several listings, deduplicated by market id: each id is kept
/// at its first occurrence, in listing order, and events left without
/// markets are dropped.
pub fn merge_listings(listings: &Vec<EventsResponse>) -> (out: EventsResponse)
    ensures
        out.data@.map_values(|e: EventDto| e@) == merged_events(
            listed_events(listings@),
            Set::empty(),
        ),
{
    let mut flat: Vec<&EventDto> = Vec::new();
    let mut r: usize = 0;
    proof {
        assert(listings@.skip(0) =~= listings@);
        assert(flat@.map_values(|e: &EventDto| *e) + listed_events(listings@) =~= listed_events(listings@));
    }
    while r < listings.len()
        invariant
            r <= listings@.len(),
            listed_events(listings@) == flat@.map_values(|e: &EventDto| *e) + listed_events(listings@.skip(r as int)),
        decreases listings@.len() - r,
    {
        let data = &listings[r].data;
        let ghost before = flat@.map_values(|e: &EventDto| *e);
        proof {
            assert(listings@.skip(r as int).drop_first() =~= listings@.skip(r + 1));
            assert(listings@.skip(r as int)[0] == listings@[r as int]);
        }
        let mut i: usize = 0;
        while i < data.len()
            invariant
                i <= data@.len(),
                r < listings@.len(),
                *data == listings@[r as int].data,
                flat@.map_values(|e: &EventDto| *e) == before + data@.take(i as int),
            decreases data@.len() - i,
        {
            let ghost old_flat = flat@;
            flat.push(&data[i]);
            proof {
                assert(flat@.map_values(|e: &EventDto| *e) =~= old_flat.map_values(|e: &EventDto| *e).push(data@[i as int]));
                assert(data@.take(i + 1) =~= data@.take(i as int).push(data@[i as int]));
                assert(flat@.map_values(|e: &EventDto| *e) =~= before + data@.take(i + 1));
            }
            i += 1;
        }
        proof {
            assert(data@.take(data@.len() as int) =~= data@);
            assert(listed_events(listings@.skip(r as int)) == data@ + listed_events(
                listings@.skip(r + 1),
            ));
            assert(before + listed_events(listings@.skip(r as int)) =~= flat@.map_values(|e: &EventDto| *e) + listed_events(
                listings@.skip(r + 1),
            ));
        }
        r += 1;
    }
    proof {
        assert(listings@.skip(listings@.len() as int) =~= Seq::<EventsResponse>::empty());
        assert(flat@.map_values(|e: &EventDto| *e) + Seq::<EventDto>::empty() =~= flat@.map_values(|e: &EventDto| *e));
    }
    let ghost events = flat@.map_values(|e: &EventDto| *e);
    let mut seen: vstd::hash_map::StringHashMap<bool> = vstd::hash_map::StringHashMap::new();
    let mut merged: Vec<EventDto> = Vec::new();
    let mut k: usize = 0;
    proof {
        assert(events.skip(0) =~= events);
        assert(seen@.dom() =~= Set::<Seq<char>>::empty());
        assert(merged@.map_values(|e: EventDto| e@) + merged_events(events, Set::empty()) =~= merged_events(events, Set::empty()));
    }
    while k < flat.len()
        invariant
            events == flat@.map_values(|e: &EventDto| *e),
            k <= events.len(),
            merged_events(events, Set::empty()) == merged@.map_values(|e: EventDto| e@)
                + merged_events(events.skip(k as int), seen@.dom()),
        decreases events.len() - k,
    {
        let e = flat[k];
        let ghost tail = events.skip(k as int);
        proof {
            assert(tail[0] == *e);
            assert(tail.drop_first() =~= events.skip(k + 1));
        }
        let ghost seen_before = seen@.dom();
        let kept = keep_fresh(&e.markets, &mut seen);
        let ghost before = merged@.map_values(|e: EventDto| e@);
        if kept.len() > 0 {
            let ev = EventDto { metadata: copy_meta(&e.metadata), volume_usd: e.volume_usd, markets: kept };
            merged.push(ev);
            proof {
                assert(merged@.map_values(|e: EventDto| e@) =~= before.push(ev@));
                assert(before.push(ev@) + merged_events(events.skip(k + 1), seen@.dom()) =~= before + (
                seq![ev@] + merged_events(events.skip(k + 1), seen@.dom())));
            }
        }
        k += 1;
    }
    proof {
        assert(events.skip(events.len() as int) =~= Seq::<EventDto>::empty());
        assert(merged@.map_values(|e: EventDto| e@) + Seq::<EventView>::empty() =~= merged@.map_values(
            |e: EventDto| e@,
        ));
    }
    EventsResponse { data: merged }
}


/// Market `k` of event `e` exists and carries this id.
pub open spec fn market_at(es: Seq<EventDto>, id: Seq<char>, e: int, k: int) -> bool {
    &&& 0 <= e < es.len()
    &&& 0 <= k < es[e].markets@.len()
    &&& es[e].markets@[k].market_id@ == id
}

/// (e, k) is the first market with this id, event by event.
pub open spec fn first_market(es: Seq<EventDto>, id: Seq<char>, e: int, k: int) -> bool {
    &&& market_at(es, id, e, k)
    &&& forall|e2: int, k2: int| #[trigger] market_at(es, id, e2, k2) ==> !precedes(e2, k2, e, k)
}

/// The buy price of one side: "yes" or "no"; any other side has none.
pub open spec fn side_price(p: PricingDto, outcome: Seq<char>) -> Option<i64> {
    if outcome == "yes"@ {
        p.buy_yes_price_usd
    } else if outcome == "no"@ {
        p.buy_no_price_usd
    } else {
        None
    }
}

/// A priced read of one market side, in micro-dollars, with the display
/// metadata a dashboard row needs.
#[derive(Debug, Clone)]
pub struct RawQuote {
    pub price_micro: i64,
    pub volume_micro: Option<i64>,
    pub event_title: Option<String>,
    pub image_url: Option<String>,
    pub color: Option<String>,
    pub abbreviation: Option<String>,
}

pub struct RawQuoteView {
    pub price_micro: i64,
    pub volume_micro: Option<i64>,
    pub event_title: Option<Seq<char>>,
    pub image_url: Option<Seq<char>>,
    pub color: Option<Seq<char>>,
    pub abbreviation: Option<Seq<char>>,
}

impl View for RawQuote {
    type V = RawQuoteView;

    open spec fn view(&self) -> RawQuoteView {
        RawQuoteView {
            price_micro: self.price_micro,
            volume_micro: self.volume_micro,
            event_title: opt_chars(self.event_title),
            image_url: opt_chars(self.image_url),
            color: opt_chars(self.color),
            abbreviation: opt_chars(self.abbreviation),
        }
    }
}

pub open spec fn opt_quote_view(q: Option<RawQuote>) -> Option<RawQuoteView> {
    match q {
        Some(v) => Some(v@),
        None => None,
    }
}

/// The quote a market side gives: the first market with the id decides; it
/// must be open (a resolved market reports a zeroed book), priced, and its
/// side price must be positive (a zeroed side is absent liquidity, not a 0%
/// price).
pub open spec fn quote_of(es: Seq<EventDto>, id: Seq<char>, outcome: Seq<char>) -> Option<RawQuoteView> {
    if exists|e: int, k: int| first_market(es, id, e, k) {
        let (e, k) = choose|e: int, k: int| first_market(es, id, e, k);
        let m = es[e].markets@[k];
        if !is_open_status(m.status) {
            None
        } else {
            match m.pricing {
                None => None,
                Some(p) => match side_price(p, outcome) {
                    None => None,
                    Some(micro) => if micro <= 0 {
                        None
                    } else {
                        Some(RawQuoteView {
                            price_micro: micro,
                            volume_micro: es[e].volume_usd,
                            event_title: event_title(es[e]),
                            image_url: match m.team { Some(t) => opt_chars(t.image_url), None => None },
                            color: match m.team { Some(t) => opt_chars(t.color), None => None },
                            abbreviation: match m.team { Some(t) => opt_chars(t.abbreviation), None => None },
                        })
                    },
                },
            }
        }
    } else {
        None
    }
}

/// Read the price of one side of a market from a snapshot.
pub fn find_quote(resp: &EventsResponse, market_id: &str, outcome_id: &str) -> (q: Option<RawQuote>)
    ensures
        opt_quote_view(q) == quote_of(resp.data@, market_id@, outcome_id@),
{
    let ghost es = resp.data@;
    let ghost id = market_id@;
    let wanted = String::from_str(market_id);
    let mut e: usize = 0;
    while e < resp.data.len()
        invariant
            es == resp.data@,
            id == market_id@,
            wanted@ == id,
            e <= es.len(),
            forall|e2: int, k2: int| #[trigger] market_at(es, id, e2, k2) ==> e2 >= e,
        decreases es.len() - e,
    {
        let ev = &resp.data[e];
        let mut k: usize = 0;
        while k < ev.markets.len()
            invariant
                es == resp.data@,
                id == market_id@,
                wanted@ == id,
                e < es.len(),
                *ev == es[e as int],
                k <= ev.markets@.len(),
                forall|e2: int, k2: int| #[trigger]
                    market_at(es, id, e2, k2) ==> e2 > e || (e2 == e && k2 >= k),
            decreases ev.markets@.len() - k,
        {
            let m = &ev.markets[k];
            if m.market_id == wanted {
                proof {
                    assert(market_at(es, id, e as int, k as int));
                    assert(first_market(es, id, e as int, k as int));
                    let (ce, ck) = choose|ce: int, ck: int| first_market(es, id, ce, ck);
                    assert(market_at(es, id, ce, ck));
                    assert(!precedes(ce, ck, e as int, k as int));
                    assert(!precedes(e as int, k as int, ce, ck));
                }
                return quote_market(ev, m, outcome_id);
            }
            k += 1;
        }
        e += 1;
    }
    proof {
        assert forall|a: int, b: int| !first_market(es, id, a, b) by {
            if first_market(es, id, a, b) {
                assert(market_at(es, id, a, b));
            }
        }
    }
    None
}

fn quote_market(ev: &EventDto, m: &MarketDto, outcome_id: &str) -> (q: Option<RawQuote>)
    ensures
        opt_quote_view(q) == (if !is_open_status(m.status) {
            None
        } else {
            match m.pricing {
                None => None,
                Some(p) => match side_price(p, outcome_id@) {
                    None => None,
                    Some(micro) => if micro <= 0 {
                        None
                    } else {
                        Some(RawQuoteView {
                            price_micro: micro,
                            volume_micro: ev.volume_usd,
                            event_title: event_title(*ev),
                            image_url: match m.team { Some(t) => opt_chars(t.image_url), None => None },
                            color: match m.team { Some(t) => opt_chars(t.color), None => None },
                            abbreviation: match m.team { Some(t) => opt_chars(t.abbreviation), None => None },
                        })
                    },
                },
            }
        }),
{
    if !status_is_open(&m.status) {
        return None;
    }
    let pricing = match &m.pricing {
        Some(p) => p,
        None => return None,
    };
    let outcome = String::from_str(outcome_id);
    let yes = String::from_str("yes");
    let no = String::from_str("no");
    let side = if outcome == yes {
        pricing.buy_yes_price_usd
    } else if outcome == no {
        pricing.buy_no_price_usd
    } else {
        None
    };
    let micro = match side {
        Some(v) => v,
        None => return None,
    };
    if micro <= 0 {
        return None;
    }
    let (image_url, color, abbreviation) = match &m.team {
        Some(t) => (clone_opt(&t.image_url), clone_opt(&t.color), clone_opt(&t.abbreviation)),
        None => (None, None, None),
    };
    Some(RawQuote {
        price_micro: micro,
        volume_micro: ev.volume_usd,
        event_title: title_of(ev),
        image_url,
        color,
        abbreviation,
    })
}


/// Every market id of a run of merged events, event by event.
pub open spec fn view_ids(vs: Seq<EventView>) -> Seq<Seq<char>>
    decreases vs.len(),
{
    if vs.len() == 0 {
        Seq::empty()
    } else {
        market_ids(vs[0].markets) + view_ids(vs.drop_first())
    }
}

proof fn lemma_no_dup_concat(a: Seq<Seq<char>>, b: Seq<Seq<char>>)
    requires
        a.no_duplicates(),
        b.no_duplicates(),
        forall|x: Seq<char>| a.contains(x) ==> !b.contains(x),
    ensures
        (a + b).no_duplicates(),
{
    let c = a + b;
    assert forall|i: int, j: int| 0 <= i < c.len() && 0 <= j < c.len() && i != j implies c[i]
        != c[j] by {
        if i < a.len() && j >= a.len() {
            assert(a.contains(c[i]));
            assert(b.contains(c[j]));
        } else if i >= a.len() && j < a.len() {
            assert(a.contains(c[j]));
            assert(b.contains(c[i]));
        }
    }
}

proof fn lemma_contains_concat(a: Seq<Seq<char>>, b: Seq<Seq<char>>, x: Seq<char>)
    ensures
        (a + b).contains(x) <==> (a.contains(x) || b.contains(x)),
{
    if (a + b).contains(x) {
        let i = choose|i: int| 0 <= i < (a + b).len() && (a + b)[i] == x;
        if i < a.len() {
            assert(a[i] == x);
        } else {
            assert(b[i - a.len()] == x);
        }
    }
    if a.contains(x) {
        let i = choose|i: int| 0 <= i < a.len() && a[i] == x;
        assert((a + b)[i] == x);
    }
    if b.contains(x) {
        let i = choose|i: int| 0 <= i < b.len() && b[i] == x;
        assert((a + b)[a.len() + i] == x);
    }
}

proof fn lemma_fresh_markets(ms: Seq<MarketDto>, seen: Set<Seq<char>>)
    ensures
        market_ids(fresh_markets(ms, seen)).no_duplicates(),
        forall|x: Seq<char>| #[trigger] market_ids(fresh_markets(ms, seen)).contains(x) ==> !seen.contains(x)
            && market_ids(ms).contains(x),
        forall|x: Seq<char>| #[trigger] market_ids(ms).contains(x) ==> seen.contains(x)
            || market_ids(fresh_markets(ms, seen)).contains(x),
    decreases ms.len(),
{
    if ms.len() == 0 {
        assert(market_ids(fresh_markets(ms, seen)) =~= Seq::<Seq<char>>::empty());
        assert(market_ids(ms) =~= Seq::<Seq<char>>::empty());
    } else {
        let tail = ms.drop_first();
        let id = ms[0].market_id@;
        assert(market_ids(ms) =~= seq![id] + market_ids(tail));
        if seen.contains(id) {
            lemma_fresh_markets(tail, seen);
            assert(fresh_markets(ms, seen) == fresh_markets(tail, seen));
            assert forall|x: Seq<char>| #[trigger] market_ids(fresh_markets(ms, seen)).contains(x) implies !seen.contains(x)
                && market_ids(ms).contains(x) by {
                lemma_contains_concat(seq![id], market_ids(tail), x);
            }
            assert forall|x: Seq<char>| #[trigger] market_ids(ms).contains(x) implies seen.contains(x)
                || market_ids(fresh_markets(ms, seen)).contains(x) by {
                lemma_contains_concat(seq![id], market_ids(tail), x);
                if x != id {
                    assert(!seq![id].contains(x));
                }
            }
        } else {
            let seen2 = seen.insert(id);
            lemma_fresh_markets(tail, seen2);
            let rest = fresh_markets(tail, seen2);
            assert(market_ids(fresh_markets(ms, seen)) =~= seq![id] + market_ids(rest));
            assert forall|x: Seq<char>| seq![id].contains(x) implies !market_ids(rest).contains(x) by {
                assert(seq![id][0] == id);
            }
            lemma_no_dup_concat(seq![id], market_ids(rest));
            assert forall|x: Seq<char>| #[trigger] market_ids(fresh_markets(ms, seen)).contains(x) implies !seen.contains(x)
                && market_ids(ms).contains(x) by {
                lemma_contains_concat(seq![id], market_ids(rest), x);
                lemma_contains_concat(seq![id], market_ids(tail), x);
                if x == id {
                    assert(seq![id][0] == id);
                }
            }
            assert forall|x: Seq<char>| #[trigger] market_ids(ms).contains(x) implies seen.contains(x)
                || market_ids(fresh_markets(ms, seen)).contains(x) by {
                lemma_contains_concat(seq![id], market_ids(tail), x);
                lemma_contains_concat(seq![id], market_ids(rest), x);
                if x == id {
                    assert(seq![id][0] == id);
                }
            }
        }
    }
}

proof fn lemma_merged_events(es: Seq<EventDto>, seen: Set<Seq<char>>)
    ensures
        view_ids(merged_events(es, seen)).no_duplicates(),
        forall|x: Seq<char>| #[trigger] view_ids(merged_events(es, seen)).contains(x) ==> !seen.contains(x),
        forall|e: int, k: int|
            0 <= e < es.len() && 0 <= k < es[e].markets@.len() ==> seen.contains(
                #[trigger] es[e].markets@[k].market_id@,
            ) || view_ids(merged_events(es, seen)).contains(es[e].markets@[k].market_id@),
    decreases es.len(),
{
    if es.len() == 0 {
        assert(view_ids(merged_events(es, seen)) =~= Seq::<Seq<char>>::empty());
    } else {
        let e0 = es[0];
        let ids0 = market_ids(e0.markets@);
        let seen2 = seen + ids0.to_set();
        let kept = fresh_markets(e0.markets@, seen);
        let tail = es.drop_first();
        let rest = merged_events(tail, seen2);
        let all = view_ids(merged_events(es, seen));
        lemma_fresh_markets(e0.markets@, seen);
        lemma_merged_events(tail, seen2);
        if kept.len() > 0 {
            let v0 = EventView { metadata: e0.metadata, volume_usd: e0.volume_usd, markets: kept };
            assert(merged_events(es, seen) == seq![v0] + rest);
            assert((seq![v0] + rest).drop_first() =~= rest);
            assert(all == market_ids(kept) + view_ids(rest));
            assert forall|x: Seq<char>| market_ids(kept).contains(x) implies !view_ids(rest).contains(x) by {
                assert(ids0.contains(x));
                assert(ids0.to_set().contains(x));
            }
            lemma_no_dup_concat(market_ids(kept), view_ids(rest));
        } else {
            assert(market_ids(kept) =~= Seq::<Seq<char>>::empty());
            assert(all == view_ids(rest));
        }
        assert(all =~= market_ids(kept) + view_ids(rest));
        assert forall|x: Seq<char>| #[trigger] all.contains(x) implies !seen.contains(x) by {
            lemma_contains_concat(market_ids(kept), view_ids(rest), x);
        }
        assert forall|e: int, k: int|
            0 <= e < es.len() && 0 <= k < es[e].markets@.len() implies seen.contains(
                #[trigger] es[e].markets@[k].market_id@,
            ) || all.contains(es[e].markets@[k].market_id@) by {
            let x = es[e].markets@[k].market_id@;
            lemma_contains_concat(market_ids(kept), view_ids(rest), x);
            if e == 0 {
                assert(ids0[k] == x);
                assert(ids0.contains(x));
            } else {
                assert(tail[e - 1] == es[e]);
                assert(tail[e - 1].markets@[k].market_id@ == x);
                if seen2.contains(x) && !seen.contains(x) {
                    assert(ids0.to_set().contains(x));
                    assert(ids0.contains(x));
                }
            }
        }
    }
}

/// No market id survives the merge twice: each listed id appears once in
/// the union, however many listings carry it.
pub proof fn lemma_merge_ids_are_unique(listings: Seq<EventsResponse>)
    ensures
        view_ids(merged_events(listed_events(listings), Set::empty())).no_duplicates(),
{
    lemma_merged_events(listed_events(listings), Set::empty());
}

/// The merge loses no market id: every id of every listed event appears in
/// the union.
pub proof fn lemma_merge_keeps_every_id(listings: Seq<EventsResponse>, e: int, k: int)
    requires
        0 <= e < listed_events(listings).len(),
        0 <= k < listed_events(listings)[e].markets@.len(),
    ensures
        view_ids(merged_events(listed_events(listings), Set::empty())).contains(
            listed_events(listings)[e].markets@[k].market_id@,
        ),
{
    lemma_merged_events(listed_events(listings), Set::empty());
}


/// Every market id of a run of listed events, event by event, repeats
/// included.
pub open spec fn listed_ids(es: Seq<EventDto>) -> Seq<Seq<char>>
    decreases es.len(),
{
    if es.len() == 0 {
        Seq::empty()
    } else {
        market_ids(es[0].markets@) + listed_ids(es.drop_first())
    }
}

/// The ids of `ids` not in `seen`, each at its first occurrence, in order.
pub open spec fn first_occurrences(ids: Seq<Seq<char>>, seen: Set<Seq<char>>) -> Seq<Seq<char>>
    decreases ids.len(),
{
    if ids.len() == 0 {
        Seq::empty()
    } else if seen.contains(ids[0]) {
        first_occurrences(ids.drop_first(), seen)
    } else {
        seq![ids[0]] + first_occurrences(ids.drop_first(), seen.insert(ids[0]))
    }
}

proof fn lemma_to_set_cons(a: Seq<Seq<char>>)
    requires
        a.len() > 0,
    ensures
        a.to_set() == a.drop_first().to_set().insert(a[0]),
{
    let t = a.drop_first();
    assert forall|x: Seq<char>| a.to_set().contains(x) <==> t.to_set().insert(a[0]).contains(x) by {
        if a.contains(x) {
            let i = choose|i: int| 0 <= i < a.len() && a[i] == x;
            if i > 0 {
                assert(t[i - 1] == x);
            }
        }
        if t.contains(x) {
            let i = choose|i: int| 0 <= i < t.len() && t[i] == x;
            assert(a[i + 1] == x);
        }
        if x == a[0] {
            assert(a.contains(x));
        }
    }
    assert(a.to_set() =~= t.to_set().insert(a[0]));
}

proof fn lemma_first_occurrences_concat(a: Seq<Seq<char>>, b: Seq<Seq<char>>, seen: Set<Seq<char>>)
    ensures
        first_occurrences(a + b, seen) == first_occurrences(a, seen) + first_occurrences(
            b,
            seen + a.to_set(),
        ),
    decreases a.len(),
{
    if a.len() == 0 {
        assert(a + b =~= b);
        assert(seen + a.to_set() =~= seen);
        assert(first_occurrences(a, seen) =~= Seq::<Seq<char>>::empty());
        assert(Seq::<Seq<char>>::empty() + first_occurrences(b, seen) =~= first_occurrences(b, seen));
    } else {
        let t = a.drop_first();
        let x = a[0];
        assert((a + b)[0] == x);
        assert((a + b).drop_first() =~= t + b);
        lemma_to_set_cons(a);
        if seen.contains(x) {
            lemma_first_occurrences_concat(t, b, seen);
            assert(seen + t.to_set() =~= seen + a.to_set());
        } else {
            lemma_first_occurrences_concat(t, b, seen.insert(x));
            assert(seen.insert(x) + t.to_set() =~= seen + a.to_set());
            assert(seq![x] + (first_occurrences(t, seen.insert(x)) + first_occurrences(
                b,
                seen + a.to_set(),
            )) =~= (seq![x] + first_occurrences(t, seen.insert(x))) + first_occurrences(
                b,
                seen + a.to_set(),
            ));
        }
    }
}

proof fn lemma_fresh_ids(ms: Seq<MarketDto>, seen: Set<Seq<char>>)
    ensures
        market_ids(fresh_markets(ms, seen)) == first_occurrences(market_ids(ms), seen),
    decreases ms.len(),
{
    if ms.len() == 0 {
        assert(market_ids(ms) =~= Seq::<Seq<char>>::empty());
        assert(market_ids(fresh_markets(ms, seen)) =~= Seq::<Seq<char>>::empty());
    } else {
        let id = ms[0].market_id@;
        let tail = ms.drop_first();
        assert(market_ids(ms)[0] == id);
        assert(market_ids(ms).drop_first() =~= market_ids(tail));
        if seen.contains(id) {
            lemma_fresh_ids(tail, seen);
        } else {
            lemma_fresh_ids(tail, seen.insert(id));
            assert(market_ids(seq![ms[0]] + fresh_markets(tail, seen.insert(id))) =~= seq![id]
                + market_ids(fresh_markets(tail, seen.insert(id))));
        }
    }
}

proof fn lemma_merged_ids(es: Seq<EventDto>, seen: Set<Seq<char>>)
    ensures
        view_ids(merged_events(es, seen)) == first_occurrences(listed_ids(es), seen),
        forall|i: int|
            0 <= i < merged_events(es, seen).len() ==> (#[trigger] merged_events(es, seen)[i]).markets.len()
                > 0,
    decreases es.len(),
{
    if es.len() == 0 {
        assert(view_ids(merged_events(es, seen)) =~= Seq::<Seq<char>>::empty());
        assert(first_occurrences(listed_ids(es), seen) =~= Seq::<Seq<char>>::empty());
    } else {
        let e0 = es[0];
        let ids0 = market_ids(e0.markets@);
        let seen2 = seen + ids0.to_set();
        let kept = fresh_markets(e0.markets@, seen);
        let tail = es.drop_first();
        let rest = merged_events(tail, seen2);
        lemma_merged_ids(tail, seen2);
        lemma_fresh_ids(e0.markets@, seen);
        lemma_first_occurrences_concat(ids0, listed_ids(tail), seen);
        if kept.len() > 0 {
            let v0 = EventView { metadata: e0.metadata, volume_usd: e0.volume_usd, markets: kept };
            assert(merged_events(es, seen) == seq![v0] + rest);
            assert((seq![v0] + rest).drop_first() =~= rest);
            assert(view_ids(merged_events(es, seen)) == market_ids(kept) + view_ids(rest));
            assert forall|i: int| 0 <= i < merged_events(es, seen).len() implies (
            #[trigger] merged_events(es, seen)[i]).markets.len() > 0 by {
                if i > 0 {
                    assert(merged_events(es, seen)[i] == rest[i - 1]);
                }
            }
        } else {
            assert(market_ids(kept) =~= Seq::<Seq<char>>::empty());
            assert(view_ids(merged_events(es, seen)) == view_ids(rest));
            assert(Seq::<Seq<char>>::empty() + first_occurrences(listed_ids(tail), seen2)
                =~= first_occurrences(listed_ids(tail), seen2));
        }
    }
}

/// The merge is the union of the listings' market ids in first-occurrence
/// order: its ids, event by event, are every listed id once, where it first
/// appears in listing order; and no merged event is left without a market.
pub proof fn lemma_merge_is_first_occurrence_union(listings: Seq<EventsResponse>)
    ensures
        view_ids(merged_events(listed_events(listings), Set::empty())) == first_occurrences(
            listed_ids(listed_events(listings)),
            Set::empty(),
        ),
        forall|i: int|
            0 <= i < merged_events(listed_events(listings), Set::empty()).len()
                ==> (#[trigger] merged_events(listed_events(listings), Set::empty())[i]).markets.len()
                > 0,
{
    lemma_merged_ids(listed_events(listings), Set::empty());
}

proof fn lemma_fresh_origin(ms: Seq<MarketDto>, seen: Set<Seq<char>>, k: int)
    requires
        0 <= k < fresh_markets(ms, seen).len(),
    ensures
        exists|j: int|
            0 <= j < ms.len() && ms[j] == fresh_markets(ms, seen)[k] && !seen.contains(
                ms[j].market_id@,
            ) && forall|j2: int| 0 <= j2 < j ==> (#[trigger] ms[j2]).market_id@ != ms[j].market_id@,
    decreases ms.len(),
{
    let tail = ms.drop_first();
    let id0 = ms[0].market_id@;
    if seen.contains(id0) {
        lemma_fresh_origin(tail, seen, k);
        let j = choose|j: int|
            0 <= j < tail.len() && tail[j] == fresh_markets(tail, seen)[k] && !seen.contains(
                tail[j].market_id@,
            ) && forall|j2: int| 0 <= j2 < j ==> tail[j2].market_id@ != tail[j].market_id@;
        assert(ms[j + 1] == tail[j]);
        assert forall|j2: int| 0 <= j2 < j + 1 implies (#[trigger] ms[j2]).market_id@ != ms[j
            + 1].market_id@ by {
            if j2 > 0 {
                assert(ms[j2] == tail[j2 - 1]);
            }
        }
    } else if k == 0 {
        assert(fresh_markets(ms, seen)[0] == ms[0]);
    } else {
        let seen2 = seen.insert(id0);
        assert(fresh_markets(ms, seen) == seq![ms[0]] + fresh_markets(tail, seen2));
        assert(fresh_markets(ms, seen)[k] == fresh_markets(tail, seen2)[k - 1]);
        lemma_fresh_origin(tail, seen2, k - 1);
        let j = choose|j: int|
            0 <= j < tail.len() && tail[j] == fresh_markets(tail, seen2)[k - 1] && !seen2.contains(
                tail[j].market_id@,
            ) && forall|j2: int| 0 <= j2 < j ==> tail[j2].market_id@ != tail[j].market_id@;
        assert(ms[j + 1] == tail[j]);
        assert forall|j2: int| 0 <= j2 < j + 1 implies (#[trigger] ms[j2]).market_id@ != ms[j
            + 1].market_id@ by {
            if j2 > 0 {
                assert(ms[j2] == tail[j2 - 1]);
            }
        }
    }
}

/// Market `j` of event `e` is where its id first occurs in `es` (and the id
/// is not in `seen`).
pub open spec fn first_listed_at(es: Seq<EventDto>, seen: Set<Seq<char>>, e: int, j: int) -> bool {
    &&& 0 <= e < es.len()
    &&& 0 <= j < es[e].markets@.len()
    &&& !seen.contains(es[e].markets@[j].market_id@)
    &&& forall|e2: int, j2: int|
        0 <= e2 < es.len() && 0 <= j2 < es[e2].markets@.len() && (e2 < e || (e2 == e && j2 < j))
            ==> #[trigger] es[e2].markets@[j2].market_id@ != es[e].markets@[j].market_id@
}

/// Market `m` is, field for field, a market of listed event `e` at the
/// first occurrence of its id.
pub open spec fn first_listed_market(es: Seq<EventDto>, seen: Set<Seq<char>>, e: int, m: MarketDto) -> bool {
    exists|j: int| #[trigger] first_listed_at(es, seen, e, j) && es[e].markets@[j] == m
}

/// Merged event `v` is listed event `e` passed through: the same metadata
/// and notional, and each of its markets, field for field, a market of `e`
/// at the first occurrence of its id.
pub open spec fn passed_through(es: Seq<EventDto>, seen: Set<Seq<char>>, v: EventView, e: int) -> bool {
    &&& 0 <= e < es.len()
    &&& v.metadata == es[e].metadata
    &&& v.volume_usd == es[e].volume_usd
    &&& forall|k: int|
        0 <= k < v.markets.len() ==> #[trigger] first_listed_market(es, seen, e, v.markets[k])
}

proof fn lemma_merged_records(es: Seq<EventDto>, seen: Set<Seq<char>>, i: int)
    requires
        0 <= i < merged_events(es, seen).len(),
    ensures
        exists|e: int| #[trigger] passed_through(es, seen, merged_events(es, seen)[i], e),
    decreases es.len(),
{
    let e0 = es[0];
    let ids0 = market_ids(e0.markets@);
    let seen2 = seen + ids0.to_set();
    let kept = fresh_markets(e0.markets@, seen);
    let tail = es.drop_first();
    let rest = merged_events(tail, seen2);
    let out = merged_events(es, seen);
    if kept.len() > 0 && i == 0 {
        let v0 = EventView { metadata: e0.metadata, volume_usd: e0.volume_usd, markets: kept };
        assert(out == seq![v0] + rest);
        assert(out[0] == v0);
        assert forall|k: int| 0 <= k < out[i].markets.len() implies #[trigger] first_listed_market(
            es,
            seen,
            0,
            out[i].markets[k],
        ) by {
            lemma_fresh_origin(e0.markets@, seen, k);
            let j = choose|j: int|
                0 <= j < e0.markets@.len() && e0.markets@[j] == kept[k] && !seen.contains(
                    e0.markets@[j].market_id@,
                ) && forall|j2: int|
                    0 <= j2 < j ==> (#[trigger] e0.markets@[j2]).market_id@ != e0.markets@[j].market_id@;
            assert(first_listed_at(es, seen, 0, j));
            assert(es[0].markets@[j] == out[i].markets[k]);
        }
        assert(passed_through(es, seen, out[i], 0));
    } else {
        let ti = if kept.len() > 0 { i - 1 } else { i };
        if kept.len() > 0 {
            let v0 = EventView { metadata: e0.metadata, volume_usd: e0.volume_usd, markets: kept };
            assert(out == seq![v0] + rest);
            assert(out[i] == rest[ti]);
        } else {
            assert(out == rest);
        }
        lemma_merged_records(tail, seen2, ti);
        let e = choose|e: int| #[trigger] passed_through(tail, seen2, rest[ti], e);
        assert(passed_through(tail, seen2, rest[ti], e));
        assert(es[e + 1] == tail[e]);
        assert forall|k: int| 0 <= k < out[i].markets.len() implies #[trigger] first_listed_market(
            es,
            seen,
            e + 1,
            out[i].markets[k],
        ) by {
            assert(rest[ti].markets[k] == out[i].markets[k]);
            assert(first_listed_market(tail, seen2, e, rest[ti].markets[k]));
            let j = choose|j: int|
                #[trigger] first_listed_at(tail, seen2, e, j) && tail[e].markets@[j]
                    == rest[ti].markets[k];
            let id = es[e + 1].markets@[j].market_id@;
            assert(!seen2.contains(id));
            assert forall|e2: int, j2: int|
                0 <= e2 < es.len() && 0 <= j2 < es[e2].markets@.len() && (e2 < e + 1 || (e2 == e
                    + 1 && j2 < j)) implies #[trigger] es[e2].markets@[j2].market_id@ != id by {
                if e2 == 0 {
                    assert(ids0[j2] == es[0].markets@[j2].market_id@);
                    assert(ids0.contains(ids0[j2]));
                    assert(ids0.to_set().contains(ids0[j2]));
                } else {
                    assert(es[e2] == tail[e2 - 1]);
                    assert(tail[e2 - 1].markets@[j2].market_id@ != tail[e].markets@[j].market_id@);
                }
            }
            assert(first_listed_at(es, seen, e + 1, j));
            assert(es[e + 1].markets@[j] == out[i].markets[k]);
        }
        assert(passed_through(es, seen, out[i], e + 1));
    }
}

/// The merge passes the venue's records through untouched: every merged
/// event carries the metadata and notional of a listed event, and each of
/// its markets is, field for field, that event's market at the first
/// occurrence of its id in listing order.
pub proof fn lemma_merge_keeps_first_records(listings: Seq<EventsResponse>, i: int)
    requires
        0 <= i < merged_events(listed_events(listings), Set::empty()).len(),
    ensures
        exists|e: int|
            #[trigger] passed_through(
                listed_events(listings),
                Set::empty(),
                merged_events(listed_events(listings), Set::empty())[i],
                e,
            ),
{
    lemma_merged_records(listed_events(listings), Set::empty(), i);
}

/// An event notional as the venue sends it: a JSON number on some events, a
/// quoted string on others, or null.
#[derive(Debug, Clone)]
pub enum VolumeField {
    Number(i64),
    Text(String),
    Null,
}

/// The notional a field carries: a number as is, a string when it parses
/// as an `i64`, and nothing otherwise.
pub fn volume_usd_of(field: &VolumeField) -> (v: Option<i64>)
    ensures
        v == match *field {
            VolumeField::Number(n) => Some(n),
            VolumeField::Text(s) => parsed_i64(s@),
            VolumeField::Null => None,
        },
{
    match field {
        VolumeField::Number(n) => Some(*n),
        VolumeField::Text(s) => parse_i64(s.as_str()),
        VolumeField::Null => None,
    }
}

/// The snapshot to serve after a refresh: the merged union, unless the
/// refresh came back empty (throttled or failed), in which case the last
/// good snapshot is kept rather than wiping the catalog.
pub fn refreshed_snapshot(merged: EventsResponse, last_good: Option<EventsResponse>) -> (snap: Option<EventsResponse>)
    ensures
        merged.data@.len() == 0 ==> snap == last_good,
        merged.data@.len() > 0 ==> snap == Some(merged),
{
    if merged.data.len() == 0 {
        last_good
    } else {
        Some(merged)
    }
}

} // verus!

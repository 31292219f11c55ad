//! Team-name matching between the sharp feed and the venue catalog.
//!
//! The catalog is built from one venue snapshot: every event whose open,
//! team-tagged markets number exactly two becomes a game. A team name
//! resolves to a market only when the answer is unambiguous: an exact match
//! anywhere in the catalog wins over any partial match, and a partial match
//! must be the only one.

use vstd::prelude::*;

use crate::text::{chars_of, contains_chars, contains_run, precedes};
use crate::venue::{
    event_title, is_open_status, opt_chars, clone_opt, status_is_open, title_of, EventDto,
    EventsResponse, MarketDto,
};

verus! {

broadcast use {vstd::string::group_string_axioms, vstd::slice::group_slice_axioms};

/// An ASCII character.
pub open spec fn is_ascii_char(c: char) -> bool {
    (c as u32) < 128
}

/// An ASCII letter or digit.
pub open spec fn is_ascii_alnum(c: char) -> bool {
    ('0' <= c && c <= '9') || ('a' <= c && c <= 'z') || ('A' <= c && c <= 'Z')
}

/// The lowercase of an ASCII character: 'A'..='Z' move to 'a'..='z', every
/// other character stays.
pub open spec fn ascii_lower(c: char) -> char {
    if 'A' <= c && c <= 'Z' {
        ((c as u32) + 32) as char
    } else {
        c
    }
}

/// What `char::is_alphanumeric` answers for a character beyond ASCII.
pub uninterp spec fn char_is_alphanumeric(c: char) -> bool;

/// The characters that `char::to_lowercase` yields for a character beyond
/// ASCII.
pub uninterp spec fn char_lowercase(c: char) -> Seq<char>;

/// What `char::is_alphanumeric` answers: on ASCII, letters and digits.
pub open spec fn alphanumeric(c: char) -> bool {
    if is_ascii_char(c) {
        is_ascii_alnum(c)
    } else {
        char_is_alphanumeric(c)
    }
}

/// What `char::to_lowercase` yields: on ASCII, the one ASCII lowercase.
pub open spec fn lowercase(c: char) -> Seq<char> {
    if is_ascii_char(c) {
        seq![ascii_lower(c)]
    } else {
        char_lowercase(c)
    }
}

/// Calls `char::is_alphanumeric` (Unicode Alphabetic or Numeric). Among
/// ASCII characters those properties hold of the letters and digits alone;
/// beyond ASCII the contract names the answer and does not restate the
/// Unicode tables.
#[verifier::external_body]
fn is_alphanumeric(c: char) -> (r: bool)
    ensures
        r == (if is_ascii_char(c) {
            is_ascii_alnum(c)
        } else {
            char_is_alphanumeric(c)
        }),
{
    c.is_alphanumeric()
}

/// Calls `char::to_lowercase` and collects what it yields. An ASCII
/// character maps to its ASCII lowercase alone (Unicode's one-to-one
/// mapping of 'A'..='Z'); beyond ASCII the contract names the result and
/// does not restate the Unicode case mapping.
#[verifier::external_body]
fn lowercase_of(c: char) -> (r: String)
    ensures
        r@ == (if is_ascii_char(c) {
            seq![ascii_lower(c)]
        } else {
            char_lowercase(c)
        }),
{
    c.to_lowercase().collect()
}

/// A name reduced to its alphanumeric characters, each lowercased.
pub open spec fn normalized(s: Seq<char>) -> Seq<char>
    decreases s.len(),
{
    if s.len() == 0 {
        Seq::empty()
    } else if alphanumeric(s.last()) {
        normalized(s.drop_last()) + lowercase(s.last())
    } else {
        normalized(s.drop_last())
    }
}

/// Normalize a team name for matching: lowercase, letters and digits only.
pub fn normalize(name: &str) -> (out: String)
    ensures
        out@ == normalized(name@),
{
    let chars = chars_of(name);
    let mut out = String::new();
    let mut i: usize = 0;
    while i < chars.len()
        invariant
            i <= chars@.len(),
            chars@ == name@,
            out@ == normalized(chars@.take(i as int)),
        decreases chars@.len() - i,
    {
        let c = chars[i];
        proof {
            assert(chars@.take(i + 1).drop_last() =~= chars@.take(i as int));
            assert(chars@.take(i + 1).last() == c);
        }
        if is_alphanumeric(c) {
            let lower = lowercase_of(c);
            out.append(lower.as_str());
        }
        i += 1;
    }
    proof {
        assert(chars@.take(chars@.len() as int) =~= chars@);
    }
    out
}

/// Every character of `s` is ASCII.
pub open spec fn all_ascii(s: Seq<char>) -> bool {
    forall|i: int| 0 <= i < s.len() ==> is_ascii_char(#[trigger] s[i])
}

/// The ASCII letters and digits of `s`, in order, each lowercased.
pub open spec fn ascii_letters_and_digits(s: Seq<char>) -> Seq<char> {
    s.filter(|c: char| is_ascii_alnum(c)).map_values(|c: char| ascii_lower(c))
}

proof fn lemma_normalized_of_ascii(s: Seq<char>)
    requires
        all_ascii(s),
    ensures
        normalized(s) == ascii_letters_and_digits(s),
        normalized(s).len() <= s.len(),
        forall|i: int| 0 <= i < normalized(s).len() ==> {
            let c = #[trigger] normalized(s)[i];
            is_ascii_char(c) && is_ascii_alnum(c) && ascii_lower(c) == c
        },
    decreases s.len(),
{
    let pred = |c: char| is_ascii_alnum(c);
    let low = |c: char| ascii_lower(c);
    reveal(Seq::filter);
    if s.len() == 0 {
        assert(s.filter(pred) =~= Seq::<char>::empty());
        assert(ascii_letters_and_digits(s) =~= Seq::<char>::empty());
    } else {
        let d = s.drop_last();
        let c = s.last();
        assert(all_ascii(d)) by {
            assert forall|i: int| 0 <= i < d.len() implies is_ascii_char(#[trigger] d[i]) by {
                assert(d[i] == s[i]);
            }
        }
        assert(is_ascii_char(c)) by {
            assert(c == s[s.len() - 1]);
        }
        lemma_normalized_of_ascii(d);
        assert(s.filter(pred) == if pred(c) {
            d.filter(pred).push(c)
        } else {
            d.filter(pred)
        });
        if is_ascii_alnum(c) {
            let l = ascii_lower(c);
            assert(is_ascii_char(l) && is_ascii_alnum(l) && ascii_lower(l) == l) by {
                if 'A' <= c && c <= 'Z' {
                    assert((c as u32) + 32 < 128);
                }
            }
            assert(d.filter(pred).push(c).map_values(low) =~= d.filter(pred).map_values(low).push(
                l,
            ));
            assert(normalized(s) =~= normalized(d).push(l));
        } else {
            assert(normalized(s) == normalized(d));
        }
    }
}

proof fn lemma_normalized_fixed(t: Seq<char>)
    requires
        forall|i: int| 0 <= i < t.len() ==> {
            let c = #[trigger] t[i];
            is_ascii_char(c) && is_ascii_alnum(c) && ascii_lower(c) == c
        },
    ensures
        normalized(t) == t,
    decreases t.len(),
{
    if t.len() > 0 {
        let d = t.drop_last();
        assert(forall|i: int| 0 <= i < d.len() ==> d[i] == t[i]);
        lemma_normalized_fixed(d);
        let c = t[t.len() - 1];
        assert(t.last() == c);
        assert(normalized(t) =~= d + seq![c]);
        assert(d + seq![c] =~= t);
    }
}

/// Normalizing an ASCII name keeps its letters and digits, in order, each
/// lowercased, and drops every other character; the result is no longer
/// than the name, and normalizing it again changes nothing.
pub proof fn lemma_normalize_ascii(name: Seq<char>)
    requires
        all_ascii(name),
    ensures
        normalized(name) == ascii_letters_and_digits(name),
        normalized(name).len() <= name.len(),
        normalized(normalized(name)) == normalized(name),
{
    lemma_normalized_of_ascii(name);
    lemma_normalized_fixed(normalized(name));
}

/// One team of a game: (normalized name, display name, market id).
pub type TeamView = (Seq<char>, Seq<char>, Seq<char>);

pub struct GameView {
    pub teams: Seq<TeamView>,
    pub title: Option<Seq<char>>,
}

/// One venue game: its team markets keyed by normalized team name.
#[derive(Debug, Clone)]
pub struct Game {
    /// (normalized name, display name, market id)
    pub teams: Vec<(String, String, String)>,
    pub title: Option<String>,
}

impl View for Game {
    type V = GameView;

    open spec fn view(&self) -> GameView {
        GameView {
            teams: self.teams@.map_values(|t: (String, String, String)| (t.0@, t.1@, t.2@)),
            title: opt_chars(self.title),
        }
    }
}

/// The display name of the first team other than `idx`, or the empty name.
pub open spec fn opponent_name(teams: Seq<TeamView>, idx: int) -> Seq<char> {
    if idx != 0 && teams.len() > 0 {
        teams[0].1
    } else if idx == 0 && teams.len() > 1 {
        teams[1].1
    } else {
        Seq::empty()
    }
}

impl Game {
    fn other(&self, idx: usize) -> (r: String)
        ensures
            r@ == opponent_name(self@.teams, idx as int),
    {
        if idx != 0 {
            if self.teams.len() > 0 {
                self.teams[0].1.clone()
            } else {
                String::new()
            }
        } else if self.teams.len() > 1 {
            self.teams[1].1.clone()
        } else {
            String::new()
        }
    }
}

pub struct VenueRefView {
    pub market_id: Seq<char>,
    pub side: Seq<char>,
    pub opponent: Seq<char>,
    pub event_title: Option<Seq<char>>,
}

/// A resolved venue side: the market to read, which price is the win
/// price, and the context a dashboard row needs.
#[derive(Debug, Clone, PartialEq)]
pub struct VenueRef {
    pub market_id: String,
    /// Always "yes" for a team's own moneyline market.
    pub side: &'static str,
    pub opponent: String,
    pub event_title: Option<String>,
}

impl View for VenueRef {
    type V = VenueRefView;

    open spec fn view(&self) -> VenueRefView {
        VenueRefView {
            market_id: self.market_id@,
            side: self.side@,
            opponent: self.opponent@,
            event_title: opt_chars(self.event_title),
        }
    }
}

pub open spec fn opt_ref_view(r: Option<VenueRef>) -> Option<VenueRefView> {
    match r {
        Some(v) => Some(v@),
        None => None,
    }
}

/// The reference to team `idx` of game `g`.
pub open spec fn venue_ref_of(g: GameView, idx: int) -> VenueRefView {
    VenueRefView {
        market_id: g.teams[idx].2,
        side: "yes"@,
        opponent: opponent_name(g.teams, idx),
        event_title: g.title,
    }
}

/// Indexed teams of one event: its open markets that carry a team, in order.
pub open spec fn indexed_teams(markets: Seq<MarketDto>) -> Seq<TeamView>
    decreases markets.len(),
{
    if markets.len() == 0 {
        Seq::empty()
    } else {
        let prev = indexed_teams(markets.drop_last());
        let m = markets.last();
        match m.team {
            Some(t) => if is_open_status(m.status) {
                prev.push((normalized(t.name@), t.name@, m.market_id@))
            } else {
                prev
            },
            None => prev,
        }
    }
}

/// The games a snapshot yields: each event with exactly two indexed teams.
pub open spec fn indexed_games(events: Seq<EventDto>) -> Seq<GameView>
    decreases events.len(),
{
    if events.len() == 0 {
        Seq::empty()
    } else {
        let prev = indexed_games(events.drop_last());
        let e = events.last();
        let teams = indexed_teams(e.markets@);
        if teams.len() == 2 {
            prev.push(GameView { teams, title: event_title(e) })
        } else {
            prev
        }
    }
}

/// Every market id of the catalog, game by game.
pub open spec fn catalog_ids(games: Seq<GameView>) -> Seq<Seq<char>>
    decreases games.len(),
{
    if games.len() == 0 {
        Seq::empty()
    } else {
        catalog_ids(games.drop_last()) + games.last().teams.map_values(|t: TeamView| t.2)
    }
}

/// Team `i` of game `g` exists and its normalized name is `key`.
pub open spec fn exact_at(games: Seq<GameView>, key: Seq<char>, g: int, i: int) -> bool {
    &&& 0 <= g < games.len()
    &&& 0 <= i < games[g].teams.len()
    &&& games[g].teams[i].0 == key
}

/// Team `i` of game `g` exists and its normalized name contains `key` or is
/// contained in it.
pub open spec fn fuzzy_at(games: Seq<GameView>, key: Seq<char>, g: int, i: int) -> bool {
    &&& 0 <= g < games.len()
    &&& 0 <= i < games[g].teams.len()
    &&& (contains_run(games[g].teams[i].0, key) || contains_run(key, games[g].teams[i].0))
}


/// (g, i) is the first exact match in catalog order.
pub open spec fn first_exact(games: Seq<GameView>, key: Seq<char>, g: int, i: int) -> bool {
    &&& exact_at(games, key, g, i)
    &&& forall|g2: int, i2: int| #[trigger] exact_at(games, key, g2, i2) ==> !precedes(g2, i2, g, i)
}

/// (g, i) is the only partial match in the whole catalog.
pub open spec fn sole_fuzzy(games: Seq<GameView>, key: Seq<char>, g: int, i: int) -> bool {
    &&& fuzzy_at(games, key, g, i)
    &&& forall|g2: int, i2: int| #[trigger] fuzzy_at(games, key, g2, i2) ==> g2 == g && i2 == i
}

/// What resolving `team` against the catalog answers: nothing for keys under
/// three bytes; else the first exact match; else the only partial match;
/// else nothing.
pub open spec fn resolved(games: Seq<GameView>, team: Seq<char>) -> Option<VenueRefView> {
    let key = normalized(team);
    if vstd::utf8::encode_utf8(key).len() < 3 {
        None
    } else if exists|g: int, i: int| first_exact(games, key, g, i) {
        let (g, i) = choose|g: int, i: int| first_exact(games, key, g, i);
        Some(venue_ref_of(games[g], i))
    } else if exists|g: int, i: int| sole_fuzzy(games, key, g, i) {
        let (g, i) = choose|g: int, i: int| sole_fuzzy(games, key, g, i);
        Some(venue_ref_of(games[g], i))
    } else {
        None
    }
}

/// The venue catalog, as games of two team markets each.
#[derive(Debug, Clone, Default)]
pub struct Matcher {
    pub games: Vec<Game>,
}

impl View for Matcher {
    type V = Seq<GameView>;

    open spec fn view(&self) -> Seq<GameView> {
        self.games@.map_values(|g: Game| g@)
    }
}

/// The indexed teams of one event's markets.
fn teams_of(markets: &Vec<MarketDto>) -> (teams: Vec<(String, String, String)>)
    ensures
        teams@.map_values(|t: (String, String, String)| (t.0@, t.1@, t.2@)) == indexed_teams(markets@),
{
    let mut teams: Vec<(String, String, String)> = Vec::new();
    let mut k: usize = 0;
    while k < markets.len()
        invariant
            k <= markets@.len(),
            teams@.map_values(|t: (String, String, String)| (t.0@, t.1@, t.2@)) == indexed_teams(
                markets@.take(k as int),
            ),
        decreases markets@.len() - k,
    {
        let m = &markets[k];
        proof {
            assert(markets@.take(k + 1).drop_last() =~= markets@.take(k as int));
            assert(markets@.take(k + 1).last() == *m);
        }
        if status_is_open(&m.status) {
            match &m.team {
                Some(t) => {
                    let entry = (normalize(t.name.as_str()), t.name.clone(), m.market_id.clone());
                    teams.push(entry);
                    proof {
                        assert(teams@.map_values(|t: (String, String, String)| (t.0@, t.1@, t.2@))
                            =~= indexed_teams(markets@.take(k + 1)));
                    }
                },
                None => {},
            }
        }
        k += 1;
    }
    proof {
        assert(markets@.take(markets@.len() as int) =~= markets@);
    }
    teams
}

impl Matcher {
    /// Index a venue snapshot: every event with exactly two open,
    /// team-tagged markets becomes a game, in snapshot order.
    pub fn from_events(resp: &EventsResponse) -> (m: Self)
        ensures
            m@ == indexed_games(resp.data@),
    {
        let mut games: Vec<Game> = Vec::new();
        let mut k: usize = 0;
        while k < resp.data.len()
            invariant
                k <= resp.data@.len(),
                games@.map_values(|g: Game| g@) == indexed_games(resp.data@.take(k as int)),
            decreases resp.data@.len() - k,
        {
            let e = &resp.data[k];
            proof {
                assert(resp.data@.take(k + 1).drop_last() =~= resp.data@.take(k as int));
                assert(resp.data@.take(k + 1).last() == *e);
            }
            let teams = teams_of(&e.markets);
            if teams.len() == 2 {
                let game = Game { teams, title: title_of(e) };
                games.push(game);
                proof {
                    assert(games@.map_values(|g: Game| g@) =~= indexed_games(
                        resp.data@.take(k + 1),
                    ));
                }
            }
            k += 1;
        }
        proof {
            assert(resp.data@.take(resp.data@.len() as int) =~= resp.data@);
        }
        Matcher { games }
    }

    fn venue_ref(&self, game: &Game, idx: usize) -> (r: VenueRef)
        requires
            idx < game.teams@.len(),
        ensures
            r@ == venue_ref_of(game@, idx as int),
    {
        VenueRef {
            market_id: game.teams[idx].2.clone(),
            side: "yes",
            opponent: game.other(idx),
            event_title: clone_opt(&game.title),
        }
    }

    /// Resolve a feed team name to a venue market. Names whose normalized
    /// key is under three bytes never resolve; an exact key match anywhere in
    /// the catalog wins; otherwise a partial match must be the only one, and
    /// an ambiguous name resolves to nothing rather than to a guess.
    pub fn resolve(&self, team: &str) -> (r: Option<VenueRef>)
        ensures
            opt_ref_view(r) == resolved(self@, team@),
    {
        let key = normalize(team);
        if key.as_str().as_bytes().len() < 3 {
            return None;
        }
        let ghost games = self@;
        let ghost k = key@;
        assert(vstd::utf8::encode_utf8(k).len() >= 3);
        let mut g: usize = 0;
        while g < self.games.len()
            invariant
                games == self@,
                k == key@,
                k == normalized(team@),
                vstd::utf8::encode_utf8(k).len() >= 3,
                g <= games.len(),
                forall|g2: int, i2: int| #[trigger] exact_at(games, k, g2, i2) ==> g2 >= g,
            decreases games.len() - g,
        {
            let game = &self.games[g];
            let mut i: usize = 0;
            while i < game.teams.len()
                invariant
                    games == self@,
                    k == key@,
                    k == normalized(team@),
                    vstd::utf8::encode_utf8(k).len() >= 3,
                    g < games.len(),
                    *game == self.games@[g as int],
                    i <= game.teams@.len(),
                    forall|g2: int, i2: int| #[trigger]
                        exact_at(games, k, g2, i2) ==> g2 > g || (g2 == g && i2 >= i),
                decreases game.teams@.len() - i,
            {
                if game.teams[i].0 == key {
                    proof {
                        assert(games[g as int] == game@);
                        assert(games[g as int].teams[i as int].0 == game.teams@[i as int].0@);
                        assert(exact_at(games, k, g as int, i as int));
                        assert(first_exact(games, k, g as int, i as int));
                        let (cg, ci) = choose|cg: int, ci: int| first_exact(games, k, cg, ci);
                        assert(exact_at(games, k, cg, ci));
                        assert(!precedes(cg, ci, g as int, i as int));
                        assert(!precedes(g as int, i as int, cg, ci));
                    }
                    return Some(self.venue_ref(game, i));
                }
                proof {
                    assert forall|g2: int, i2: int| #[trigger]
                        exact_at(games, k, g2, i2) implies g2 > g || (g2 == g && i2 >= i + 1) by {
                        if g2 == g && i2 == i {
                            assert(games[g as int] == game@);
                            assert(games[g as int].teams[i as int].0 == game.teams@[i as int].0@);
                        }
                    }
                }
                i += 1;
            }
            proof {
                assert forall|g2: int, i2: int| #[trigger]
                    exact_at(games, k, g2, i2) implies g2 >= g + 1 by {
                    if g2 == g {
                        assert(games[g as int] == game@);
                    }
                }
            }
            g += 1;
        }
        proof {
            assert forall|g2: int, i2: int| !first_exact(games, k, g2, i2) by {
                if first_exact(games, k, g2, i2) {
                    assert(exact_at(games, k, g2, i2));
                }
            }
        }
        let key_chars = chars_of(key.as_str());
        let mut hit: Option<(usize, usize)> = None;
        let mut g: usize = 0;
        while g < self.games.len()
            invariant
                games == self@,
                k == key@,
                k == normalized(team@),
                vstd::utf8::encode_utf8(k).len() >= 3,
                forall|a: int, b: int| !first_exact(games, k, a, b),
                key_chars@ == k,
                g <= games.len(),
                hit is None ==> forall|g2: int, i2: int| #[trigger]
                    fuzzy_at(games, k, g2, i2) ==> g2 >= g,
                hit matches Some((hg, hi)) ==> {
                    &&& fuzzy_at(games, k, hg as int, hi as int)
                    &&& hg < g
                    &&& forall|g2: int, i2: int| #[trigger]
                        fuzzy_at(games, k, g2, i2) && g2 < g ==> g2 == hg && i2 == hi
                },
            decreases games.len() - g,
        {
            let game = &self.games[g];
            let mut i: usize = 0;
            while i < game.teams.len()
                invariant
                    games == self@,
                    k == key@,
                    k == normalized(team@),
                    vstd::utf8::encode_utf8(k).len() >= 3,
                    forall|a: int, b: int| !first_exact(games, k, a, b),
                    key_chars@ == k,
                    g < games.len(),
                    *game == self.games@[g as int],
                    i <= game.teams@.len(),
                    hit is None ==> forall|g2: int, i2: int| #[trigger]
                        fuzzy_at(games, k, g2, i2) ==> !precedes(g2, i2, g as int, i as int),
                    hit matches Some((hg, hi)) ==> {
                        &&& fuzzy_at(games, k, hg as int, hi as int)
                        &&& precedes(hg as int, hi as int, g as int, i as int)
                        &&& forall|g2: int, i2: int| #[trigger]
                            fuzzy_at(games, k, g2, i2) && precedes(g2, i2, g as int, i as int)
                                ==> g2 == hg && i2 == hi
                    },
                decreases game.teams@.len() - i,
            {
                let cand = chars_of(game.teams[i].0.as_str());
                let matched = contains_chars(&cand, &key_chars) || contains_chars(&key_chars, &cand);
                proof {
                    assert(games[g as int] == game@);
                    assert(games[g as int].teams[i as int].0 == game.teams@[i as int].0@);
                    assert(matched == fuzzy_at(games, k, g as int, i as int));
                }
                if matched {
                    if hit.is_some() {
                        proof {
                            let (hg, hi) = hit.unwrap();
                            assert forall|a: int, b: int| !sole_fuzzy(games, k, a, b) by {
                                if sole_fuzzy(games, k, a, b) {
                                    assert(fuzzy_at(games, k, hg as int, hi as int));
                                    assert(fuzzy_at(games, k, g as int, i as int));
                                }
                            }
                        }
                        return None;
                    }
                    hit = Some((g, i));
                }
                i += 1;
            }
            g += 1;
        }
        match hit {
            Some((hg, hi)) => {
                proof {
                    assert(sole_fuzzy(games, k, hg as int, hi as int));
                    let (cg, ci) = choose|cg: int, ci: int| sole_fuzzy(games, k, cg, ci);
                    assert(fuzzy_at(games, k, cg, ci));
                }
                Some(self.venue_ref(&self.games[hg], hi))
            },
            None => {
                proof {
                    assert forall|a: int, b: int| !sole_fuzzy(games, k, a, b) by {
                        if sole_fuzzy(games, k, a, b) {
                            assert(fuzzy_at(games, k, a, b));
                        }
                    }
                }
                None
            },
        }
    }

    /// Number of indexed games.
    pub fn game_count(&self) -> (n: usize)
        ensures
            n == self@.len(),
    {
        self.games.len()
    }

    /// Every indexed market id, game by game.
    pub fn market_ids(&self) -> (ids: Vec<String>)
        ensures
            ids@.map_values(|s: String| s@) == catalog_ids(self@),
    {
        let mut ids: Vec<String> = Vec::new();
        let mut g: usize = 0;
        while g < self.games.len()
            invariant
                g <= self@.len(),
                ids@.map_values(|s: String| s@) == catalog_ids(self@.take(g as int)),
            decreases self@.len() - g,
        {
            let game = &self.games[g];
            let ghost before = ids@.map_values(|s: String| s@);
            let mut i: usize = 0;
            while i < game.teams.len()
                invariant
                    g < self@.len(),
                    *game == self.games@[g as int],
                    i <= game.teams@.len(),
                    ids@.map_values(|s: String| s@) == before + game@.teams.take(i as int).map_values(
                        |t: TeamView| t.2,
                    ),
                decreases game.teams@.len() - i,
            {
                let ghost old_ids = ids@;
                let id = game.teams[i].2.clone();
                ids.push(id);
                proof {
                    assert(game@.teams[i as int].2 == game.teams@[i as int].2@);
                    assert(ids@.map_values(|s: String| s@) =~= old_ids.map_values(|s: String| s@).push(
                        id@,
                    ));
                    assert(game@.teams.take(i as int).push(game@.teams[i as int]).map_values(
                        |t: TeamView| t.2,
                    ) =~= game@.teams.take(i as int).map_values(|t: TeamView| t.2).push(
                        game@.teams[i as int].2,
                    ));
                    assert(game@.teams.take(i + 1) =~= game@.teams.take(i as int).push(
                        game@.teams[i as int],
                    ));
                    assert(ids@.map_values(|s: String| s@) =~= before + game@.teams.take(
                        i + 1,
                    ).map_values(|t: TeamView| t.2));
                }
                i += 1;
            }
            proof {
                assert(self@.take(g + 1).drop_last() =~= self@.take(g as int));
                assert(self@.take(g + 1).last() == game@);
                assert(game@.teams.take(game@.teams.len() as int) =~= game@.teams);
            }
            g += 1;
        }
        proof {
            assert(self@.take(self@.len() as int) =~= self@);
        }
        ids
    }
}


/// A market listed by the catalog: an open, team-tagged market with this id.
pub open spec fn listed_market(m: MarketDto, id: Seq<char>) -> bool {
    &&& is_open_status(m.status)
    &&& m.team is Some
    &&& m.market_id@ == id
}

proof fn lemma_catalog_has(games: Seq<GameView>, g: int, i: int)
    requires
        0 <= g < games.len(),
        0 <= i < games[g].teams.len(),
    ensures
        catalog_ids(games).contains(games[g].teams[i].2),
    decreases games.len(),
{
    let prev = games.drop_last();
    let tail = games.last().teams.map_values(|t: TeamView| t.2);
    assert(catalog_ids(games) == catalog_ids(prev) + tail);
    if g == games.len() - 1 {
        let j = catalog_ids(prev).len() + i;
        assert(catalog_ids(games)[j] == tail[i]);
    } else {
        assert(prev[g] == games[g]);
        lemma_catalog_has(prev, g, i);
        let j = choose|j: int| 0 <= j < catalog_ids(prev).len() && catalog_ids(prev)[j]
            == games[g].teams[i].2;
        assert(catalog_ids(games)[j] == catalog_ids(prev)[j]);
    }
}

proof fn lemma_catalog_member(games: Seq<GameView>, id: Seq<char>)
    requires
        catalog_ids(games).contains(id),
    ensures
        exists|g: int, i: int|
            0 <= g < games.len() && 0 <= i < games[g].teams.len() && games[g].teams[i].2 == id,
    decreases games.len(),
{
    let prev = games.drop_last();
    let tail = games.last().teams.map_values(|t: TeamView| t.2);
    assert(catalog_ids(games) == catalog_ids(prev) + tail);
    let j = choose|j: int| 0 <= j < catalog_ids(games).len() && catalog_ids(games)[j] == id;
    if j < catalog_ids(prev).len() {
        assert(catalog_ids(prev)[j] == id);
        lemma_catalog_member(prev, id);
        let (g, i) = choose|g: int, i: int|
            0 <= g < prev.len() && 0 <= i < prev[g].teams.len() && prev[g].teams[i].2 == id;
        assert(games[g] == prev[g]);
    } else {
        let i = j - catalog_ids(prev).len();
        assert(tail[i] == id);
        assert(games[games.len() - 1].teams[i].2 == id);
    }
}

proof fn lemma_indexed_team_origin(markets: Seq<MarketDto>, i: int)
    requires
        0 <= i < indexed_teams(markets).len(),
    ensures
        exists|b: int|
            0 <= b < markets.len() && listed_market(markets[b], indexed_teams(markets)[i].2),
    decreases markets.len(),
{
    let prev = markets.drop_last();
    let m = markets.last();
    if i < indexed_teams(prev).len() {
        lemma_indexed_team_origin(prev, i);
        let b = choose|b: int| 0 <= b < prev.len() && listed_market(prev[b], indexed_teams(prev)[i].2);
        assert(markets[b] == prev[b]);
        assert(indexed_teams(markets)[i] == indexed_teams(prev)[i]);
    } else {
        assert(listed_market(markets[markets.len() - 1], indexed_teams(markets)[i].2));
    }
}

proof fn lemma_indexed_game_origin(events: Seq<EventDto>, g: int)
    requires
        0 <= g < indexed_games(events).len(),
    ensures
        exists|a: int|
            0 <= a < events.len() && indexed_games(events)[g].teams == indexed_teams(
                #[trigger] events[a].markets@,
            ),
    decreases events.len(),
{
    let prev = events.drop_last();
    if g < indexed_games(prev).len() {
        lemma_indexed_game_origin(prev, g);
        let a = choose|a: int|
            0 <= a < prev.len() && indexed_games(prev)[g].teams == indexed_teams(
                #[trigger] prev[a].markets@,
            );
        assert(events[a] == prev[a]);
        assert(indexed_games(events)[g] == indexed_games(prev)[g]);
    } else {
        let a = events.len() - 1;
        assert(indexed_games(events)[g].teams == indexed_teams(events[a].markets@));
    }
}

proof fn lemma_first_exact_exists(games: Seq<GameView>, key: Seq<char>, g: int, i: int)
    requires
        exact_at(games, key, g, i),
    ensures
        exists|a: int, b: int| first_exact(games, key, a, b),
    decreases g, i,
{
    if exists|g2: int, i2: int| exact_at(games, key, g2, i2) && precedes(g2, i2, g, i) {
        let (g2, i2) = choose|g2: int, i2: int|
            exact_at(games, key, g2, i2) && precedes(g2, i2, g, i);
        lemma_first_exact_exists(games, key, g2, i2);
    } else {
        assert(first_exact(games, key, g, i));
    }
}

/// A team name that resolves always resolves to a market the catalog lists.
pub proof fn lemma_resolved_market_is_listed(games: Seq<GameView>, team: Seq<char>)
    requires
        resolved(games, team) is Some,
    ensures
        catalog_ids(games).contains(resolved(games, team)->0.market_id),
{
    let key = normalized(team);
    if exists|g: int, i: int| first_exact(games, key, g, i) {
        let (g, i) = choose|g: int, i: int| first_exact(games, key, g, i);
        lemma_catalog_has(games, g, i);
    } else {
        let (g, i) = choose|g: int, i: int| sole_fuzzy(games, key, g, i);
        lemma_catalog_has(games, g, i);
    }
}

/// Every market id a snapshot's catalog lists is the id of an open,
/// team-tagged market of that snapshot, so the venue can price it.
pub proof fn lemma_catalog_lists_open_markets(events: Seq<EventDto>, id: Seq<char>)
    requires
        catalog_ids(indexed_games(events)).contains(id),
    ensures
        exists|a: int, b: int|
            0 <= a < events.len() && 0 <= b < events[a].markets@.len() && listed_market(
                events[a].markets@[b],
                id,
            ),
{
    let games = indexed_games(events);
    lemma_catalog_member(games, id);
    let (g, i) = choose|g: int, i: int|
        0 <= g < games.len() && 0 <= i < games[g].teams.len() && games[g].teams[i].2 == id;
    lemma_indexed_game_origin(events, g);
    let a = choose|a: int|
        0 <= a < events.len() && games[g].teams == indexed_teams(#[trigger] events[a].markets@);
    lemma_indexed_team_origin(events[a].markets@, i);
    let b = choose|b: int|
        0 <= b < events[a].markets@.len() && listed_market(
            events[a].markets@[b],
            indexed_teams(events[a].markets@)[i].2,
        );
}

/// An exact match anywhere in the catalog decides the answer: the name
/// resolves to the first team, in catalog order, whose normalized name is
/// exactly the key, whatever partial matches come earlier.
pub proof fn lemma_exact_match_wins(games: Seq<GameView>, team: Seq<char>, g: int, i: int)
    requires
        vstd::utf8::encode_utf8(normalized(team)).len() >= 3,
        exact_at(games, normalized(team), g, i),
    ensures
        exists|a: int, b: int|
            first_exact(games, normalized(team), a, b) && resolved(games, team) == Some(
                venue_ref_of(games[a], b),
            ),
{
    lemma_first_exact_exists(games, normalized(team), g, i);
}

/// With no exact match, two distinct partial matches make the name
/// ambiguous, and an ambiguous name resolves to nothing.
pub proof fn lemma_ambiguous_name_is_refused(
    games: Seq<GameView>,
    team: Seq<char>,
    g1: int,
    i1: int,
    g2: int,
    i2: int,
)
    requires
        forall|g: int, i: int| !exact_at(games, normalized(team), g, i),
        fuzzy_at(games, normalized(team), g1, i1),
        fuzzy_at(games, normalized(team), g2, i2),
        g1 != g2 || i1 != i2,
    ensures
        resolved(games, team) is None,
{
    let key = normalized(team);
    assert forall|a: int, b: int| !first_exact(games, key, a, b) by {
        if first_exact(games, key, a, b) {
            assert(exact_at(games, key, a, b));
        }
    }
    assert forall|a: int, b: int| !sole_fuzzy(games, key, a, b) by {
        if sole_fuzzy(games, key, a, b) {
            assert(fuzzy_at(games, key, g1, i1));
            assert(fuzzy_at(games, key, g2, i2));
        }
    }
}

proof fn lemma_open_team_markets_are_indexed(markets: Seq<MarketDto>, b: int)
    requires
        0 <= b < markets.len(),
        markets[b].team is Some,
        is_open_status(markets[b].status),
    ensures
        exists|i: int|
            0 <= i < indexed_teams(markets).len() && #[trigger] indexed_teams(markets)[i].2
                == markets[b].market_id@,
    decreases markets.len(),
{
    let prev = markets.drop_last();
    if b < markets.len() - 1 {
        assert(prev[b] == markets[b]);
        lemma_open_team_markets_are_indexed(prev, b);
        let i = choose|i: int|
            0 <= i < indexed_teams(prev).len() && #[trigger] indexed_teams(prev)[i].2
                == prev[b].market_id@;
        assert(indexed_teams(markets)[i] == indexed_teams(prev)[i]);
    } else {
        let n = indexed_teams(prev).len() as int;
        assert(indexed_teams(markets)[n].2 == markets[b].market_id@);
    }
}

/// `teams` are exactly the open, team-tagged markets of `ms`: two of them,
/// each such a market of `ms`, and every such market of `ms` one of them.
pub open spec fn two_team_markets(ms: Seq<MarketDto>, teams: Seq<TeamView>) -> bool {
    &&& teams.len() == 2
    &&& exists|b: int| 0 <= b < ms.len() && #[trigger] listed_market(ms[b], teams[0].2)
    &&& exists|b: int| 0 <= b < ms.len() && #[trigger] listed_market(ms[b], teams[1].2)
    &&& forall|b: int|
        0 <= b < ms.len() && (#[trigger] ms[b]).team is Some && is_open_status(ms[b].status) ==> (
        ms[b].market_id@ == teams[0].2 || ms[b].market_id@ == teams[1].2)
}

/// Every game of a snapshot's catalog is an event with exactly two teams:
/// each team is an open, team-tagged market of that event, and every open,
/// team-tagged market of the event is one of the two. An event with more
/// such markets (a futures book) is never a game.
pub proof fn lemma_games_are_two_team_events(events: Seq<EventDto>, g: int)
    requires
        0 <= g < indexed_games(events).len(),
    ensures
        indexed_games(events)[g].teams.len() == 2,
        exists|a: int|
            0 <= a < events.len() && #[trigger] two_team_markets(
                events[a].markets@,
                indexed_games(events)[g].teams,
            ),
    decreases events.len(),
{
    let prev = events.drop_last();
    if g < indexed_games(prev).len() {
        lemma_games_are_two_team_events(prev, g);
        assert(indexed_games(events)[g] == indexed_games(prev)[g]);
        let a = choose|a: int|
            0 <= a < prev.len() && #[trigger] two_team_markets(
                prev[a].markets@,
                indexed_games(prev)[g].teams,
            );
        assert(events[a] == prev[a]);
        assert(two_team_markets(events[a].markets@, indexed_games(events)[g].teams));
    } else {
        let a = events.len() - 1;
        let ms = events[a].markets@;
        let teams = indexed_teams(ms);
        assert(indexed_games(events)[g].teams == teams);
        lemma_indexed_team_origin(ms, 0);
        lemma_indexed_team_origin(ms, 1);
        assert forall|b: int|
            0 <= b < ms.len() && (#[trigger] ms[b]).team is Some && is_open_status(ms[b].status)
                implies (ms[b].market_id@ == teams[0].2 || ms[b].market_id@ == teams[1].2) by {
            lemma_open_team_markets_are_indexed(ms, b);
        }
        assert(two_team_markets(ms, teams));
    }
}

/// A name that resolves prices the team that matched: the answer is the
/// "yes" side of the own market of a team whose normalized name equals,
/// contains or is contained in the name's key, with the other team of that
/// game as opponent and the game's title.
pub proof fn lemma_resolved_is_the_matching_team(games: Seq<GameView>, team: Seq<char>)
    requires
        forall|g: int| 0 <= g < games.len() ==> (#[trigger] games[g]).teams.len() == 2,
        resolved(games, team) is Some,
    ensures
        exists|g: int, i: int|
            0 <= g < games.len() && 0 <= i < 2 && ({
                let key = normalized(team);
                let t = (#[trigger] games[g].teams[i]);
                let r = resolved(games, team)->0;
                &&& (t.0 == key || contains_run(t.0, key) || contains_run(key, t.0))
                &&& r.market_id == t.2
                &&& r.side == "yes"@
                &&& r.opponent == games[g].teams[1 - i].1
                &&& r.event_title == games[g].title
            }),
{
    let key = normalized(team);
    if exists|g: int, i: int| first_exact(games, key, g, i) {
        let (g, i) = choose|g: int, i: int| first_exact(games, key, g, i);
        assert(games[g].teams.len() == 2);
        assert(0 <= i < 2);
        let t = games[g].teams[i];
        assert(t.0 == key);
    } else {
        let (g, i) = choose|g: int, i: int| sole_fuzzy(games, key, g, i);
        assert(games[g].teams.len() == 2);
        let t = games[g].teams[i];
        assert(contains_run(t.0, key) || contains_run(key, t.0));
    }
}

/// With no exact match, the one team whose normalized name partially
/// matches the key is the team priced: its own market, against the other
/// team of its game.
pub proof fn lemma_sole_partial_match_prices_that_team(
    games: Seq<GameView>,
    team: Seq<char>,
    g: int,
    i: int,
)
    requires
        forall|a: int| 0 <= a < games.len() ==> (#[trigger] games[a]).teams.len() == 2,
        vstd::utf8::encode_utf8(normalized(team)).len() >= 3,
        forall|a: int, b: int|
            0 <= a < games.len() && 0 <= b < 2 ==> (#[trigger] games[a].teams[b]).0 != normalized(
                team,
            ),
        0 <= g < games.len(),
        0 <= i < 2,
        contains_run(games[g].teams[i].0, normalized(team)) || contains_run(
            normalized(team),
            games[g].teams[i].0,
        ),
        forall|a: int, b: int|
            0 <= a < games.len() && 0 <= b < 2 && (a != g || b != i) ==> !contains_run(
                (#[trigger] games[a].teams[b]).0,
                normalized(team),
            ) && !contains_run(normalized(team), games[a].teams[b].0),
    ensures
        resolved(games, team) is Some,
        resolved(games, team)->0.market_id == games[g].teams[i].2,
        resolved(games, team)->0.opponent == games[g].teams[1 - i].1,
{
    let key = normalized(team);
    assert forall|a: int, b: int| !first_exact(games, key, a, b) by {
        if exact_at(games, key, a, b) {
            assert(games[a].teams.len() == 2);
            assert(games[a].teams[b].0 != key);
        }
    }
    assert forall|a: int, b: int| #[trigger] fuzzy_at(games, key, a, b) implies a == g && b == i by {
        assert(games[a].teams.len() == 2);
        let t = games[a].teams[b];
    }
    assert(sole_fuzzy(games, key, g, i));
    let (cg, ci) = choose|cg: int, ci: int| sole_fuzzy(games, key, cg, ci);
    assert(fuzzy_at(games, key, cg, ci));
}

} // verus!

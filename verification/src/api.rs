//! The signal store behind the HTTP feed: a bounded, de-duplicated log of
//! fired signals and the latest comparison row per tracked match.

use vstd::prelude::*;
use vstd::hash_map::StringHashMap;
use std::collections::VecDeque;
use std::time::{Duration, SystemTime, SystemTimeError};

use crate::divergence::{side_name, Side};

verus! {

broadcast use vstd::hash_map::group_hash_map_axioms;

/// Most signals the log keeps; the oldest goes first.
pub const MAX_SIGNALS: usize = 100;

/// A persistent divergence re-fires on every stream tick; the same signal
/// is suppressed for this many milliseconds after it last fired.
pub const DEDUPE_MS: u128 = 30_000;

#[verifier::external_type_specification]
#[verifier::external_body]
pub struct ExSystemTime(std::time::SystemTime);

#[verifier::external_type_specification]
#[verifier::external_body]
pub struct ExSystemTimeError(std::time::SystemTimeError);

/// Calls `SystemTime::now`. Nothing is promised of the reading.
#[verifier::external_body]
fn system_now() -> SystemTime {
    SystemTime::now()
}

/// Calls `SystemTime::duration_since` with the Unix epoch: the time since
/// the epoch, or an error when the reading lies before it. Nothing is
/// promised of which.
#[verifier::external_body]
fn since_unix_epoch(t: &SystemTime) -> Result<Duration, SystemTimeError> {
    t.duration_since(std::time::UNIX_EPOCH)
}

/// Calls `Duration::as_millis`. The duration is opaque here; nothing is
/// stated of the count.
#[verifier::external_body]
fn whole_millis(d: &Duration) -> u128 {
    d.as_millis()
}

/// Milliseconds since the Unix epoch by the system clock, or 0 when the
/// clock reads before the epoch.
pub fn now_millis() -> u128 {
    match since_unix_epoch(&system_now()) {
        Ok(d) => whole_millis(&d),
        Err(_) => 0,
    }
}

/// The key a signal is de-duplicated by: market, outcome and side,
/// `|`-separated.
pub open spec fn signal_key_text(market_id: Seq<char>, outcome_id: Seq<char>, side: Side) -> Seq<char> {
    market_id + seq!['|'] + outcome_id + seq!['|'] + side_name(side)
}

pub fn signal_key(market_id: &str, outcome_id: &str, side: Side) -> (k: String)
    ensures
        k@ == signal_key_text(market_id@, outcome_id@, side),
{
    proof {
        reveal_strlit("|");
    }
    String::from_str(market_id).concat("|").concat(outcome_id).concat("|").concat(side.name())
}

/// `a - b`, or 0 when `b` is later.
pub open spec fn elapsed(a: u128, b: u128) -> int {
    if a >= b {
        a - b
    } else {
        0
    }
}

/// A signal with this key at time `ts` is a repeat within the cooldown of
/// the last time that key fired.
pub open spec fn within_cooldown(last_fired: Map<Seq<char>, u128>, key: Seq<char>, ts: u128) -> bool {
    last_fired.contains_key(key) && elapsed(ts, last_fired[key]) < DEDUPE_MS
}

/// The signal log after appending `rec`: bounded to `MAX_SIGNALS`, oldest
/// dropped first.
pub open spec fn appended<R>(log: Seq<R>, rec: R) -> Seq<R> {
    if log.len() >= MAX_SIGNALS {
        log.drop_first().push(rec)
    } else {
        log.push(rec)
    }
}

/// No key labels two rows.
pub open spec fn keys_unique<M>(rows: Seq<(String, M)>) -> bool {
    forall|a: int, b: int| 0 <= a < b < rows.len() ==> rows[a].0@ != rows[b].0@
}

/// Row `i` exists and is labelled `key`.
pub open spec fn row_with_key<M>(rows: Seq<(String, M)>, key: Seq<char>, i: int) -> bool {
    0 <= i < rows.len() && rows[i].0@ == key
}

/// Signal log, per-match rows, and feed health. `R` is a fired-signal
/// record, `M` a comparison row.
#[verifier::reject_recursive_types(R)]
#[verifier::reject_recursive_types(M)]
pub struct Store<R, M> {
    pub signals: VecDeque<R>,
    /// Latest row per match key; no key occurs twice.
    pub matches: Vec<(String, M)>,
    pub last_fired: StringHashMap<u128>,
    pub started_ms: u128,
    pub stream_ok: bool,
}

/// Service status as `/status` reports it.
#[derive(Debug, Clone, Copy)]
pub struct Status {
    pub ok: bool,
    pub stream_ok: bool,
    pub uptime_ms: u128,
    pub match_count: usize,
    pub signals: usize,
}

impl<R, M> Store<R, M> {
    /// The log never holds more than `MAX_SIGNALS` signals, and no match
    /// key has two rows.
    pub open spec fn wf(&self) -> bool {
        &&& self.signals@.len() <= MAX_SIGNALS
        &&& keys_unique(self.matches@)
    }

    pub fn new(started_ms: u128) -> (s: Self)
        ensures
            s.wf(),
            s.signals@.len() == 0,
            s.matches@.len() == 0,
            s.last_fired@ == Map::<Seq<char>, u128>::empty(),
            s.started_ms == started_ms,
            !s.stream_ok,
    {
        Store {
            signals: VecDeque::new(),
            matches: Vec::new(),
            last_fired: StringHashMap::new(),
            started_ms,
            stream_ok: false,
        }
    }

    /// Log a fired signal under `key` at time `ts`. A repeat of the same key
    /// within the cooldown is suppressed and changes nothing (the answer is
    /// false); otherwise the key's firing time becomes `ts` and the signal
    /// is appended, dropping the oldest once the log is full.
    pub fn record(&mut self, key: String, ts: u128, rec: R) -> (fired: bool)
        requires
            old(self).wf(),
        ensures
            final(self).wf(),
            fired == !within_cooldown(old(self).last_fired@, key@, ts),
            !fired ==> final(self).signals@ == old(self).signals@ && final(self).last_fired@
                == old(self).last_fired@,
            fired ==> final(self).signals@ == appended(old(self).signals@, rec)
                && final(self).last_fired@ == old(self).last_fired@.insert(key@, ts),
            final(self).matches@ == old(self).matches@,
            final(self).started_ms == old(self).started_ms,
            final(self).stream_ok == old(self).stream_ok,
    {
        match self.last_fired.get(key.as_str()) {
            Some(prev) => {
                if ts.saturating_sub(*prev) < DEDUPE_MS {
                    return false;
                }
            },
            None => {},
        }
        self.last_fired.insert(key, ts);
        let ghost before = self.signals@;
        if self.signals.len() >= MAX_SIGNALS {
            self.signals.pop_front();
            proof {
                assert(self.signals@ =~= before.drop_first());
            }
        }
        self.signals.push_back(rec);
        true
    }

    /// Log a signal on `side` of outcome `outcome_id` of market `market_id`
    /// at time `ts`, de-duplicated under that market, outcome and side, as
    /// `record` does for the key `signal_key` gives.
    pub fn record_signal(
        &mut self,
        market_id: &str,
        outcome_id: &str,
        side: Side,
        ts: u128,
        rec: R,
    ) -> (fired: bool)
        requires
            old(self).wf(),
        ensures
            final(self).wf(),
            fired == !within_cooldown(
                old(self).last_fired@,
                signal_key_text(market_id@, outcome_id@, side),
                ts,
            ),
            !fired ==> final(self).signals@ == old(self).signals@ && final(self).last_fired@
                == old(self).last_fired@,
            fired ==> final(self).signals@ == appended(old(self).signals@, rec)
                && final(self).last_fired@ == old(self).last_fired@.insert(
                signal_key_text(market_id@, outcome_id@, side),
                ts,
            ),
            final(self).matches@ == old(self).matches@,
            final(self).started_ms == old(self).started_ms,
            final(self).stream_ok == old(self).stream_ok,
    {
        let key = signal_key(market_id, outcome_id, side);
        self.record(key, ts, rec)
    }

    /// Keep `row` as the latest comparison for `key`: an earlier row with
    /// that key is replaced in place, otherwise the row is added.
    pub fn upsert_match(&mut self, key: String, row: M)
        requires
            old(self).wf(),
        ensures
            final(self).wf(),
            forall|i: int| #[trigger] row_with_key(old(self).matches@, key@, i)
                ==> final(self).matches@ == old(self).matches@.update(i, (key, row)),
            (forall|i: int| !#[trigger] row_with_key(old(self).matches@, key@, i))
                ==> final(self).matches@ == old(self).matches@.push((key, row)),
            final(self).signals@ == old(self).signals@,
            final(self).last_fired@ == old(self).last_fired@,
            final(self).started_ms == old(self).started_ms,
            final(self).stream_ok == old(self).stream_ok,
    {
        let ghost rows = self.matches@;
        let mut i: usize = 0;
        while i < self.matches.len()
            invariant
                rows == self.matches@,
                rows == old(self).matches@,
                keys_unique(rows),
                self.signals@ == old(self).signals@,
                self.signals@.len() <= MAX_SIGNALS,
                self.last_fired@ == old(self).last_fired@,
                self.started_ms == old(self).started_ms,
                self.stream_ok == old(self).stream_ok,
                i <= rows.len(),
                forall|j: int| 0 <= j < i ==> !#[trigger] row_with_key(rows, key@, j),
            decreases rows.len() - i,
        {
            if self.matches[i].0 == key {
                proof {
                    assert(row_with_key(rows, key@, i as int));
                    assert forall|j: int| #[trigger] row_with_key(rows, key@, j) implies j == i by {
                        if j != i {
                            assert(rows[j].0@ == rows[i as int].0@);
                        }
                    }
                }
                self.matches.set(i, (key, row));
                proof {
                    assert forall|a: int, b: int| 0 <= a < b < self.matches@.len() implies self.matches@[a].0@
                        != self.matches@[b].0@ by {
                        if a != i && b != i {
                            assert(self.matches@[a] == rows[a]);
                            assert(self.matches@[b] == rows[b]);
                        } else if a == i {
                            assert(self.matches@[b] == rows[b]);
                        } else {
                            assert(self.matches@[a] == rows[a]);
                        }
                    }
                }
                return;
            }
            i += 1;
        }
        self.matches.push((key, row));
        proof {
            assert forall|a: int, b: int| 0 <= a < b < self.matches@.len() implies self.matches@[a].0@
                != self.matches@[b].0@ by {
                if b == rows.len() {
                    assert(!row_with_key(rows, key@, a));
                }
            }
        }
    }

    pub fn set_stream_ok(&mut self, ok: bool)
        ensures
            final(self).wf() == old(self).wf(),
            final(self).stream_ok == ok,
            final(self).signals@ == old(self).signals@,
            final(self).matches@ == old(self).matches@,
            final(self).last_fired@ == old(self).last_fired@,
            final(self).started_ms == old(self).started_ms,
    {
        self.stream_ok = ok;
    }

    /// Service status at time `now`.
    pub fn status(&self, now: u128) -> (st: Status)
        ensures
            st.ok,
            st.stream_ok == self.stream_ok,
            st.uptime_ms == elapsed(now, self.started_ms),
            st.match_count == self.matches@.len(),
            st.signals == self.signals@.len(),
    {
        Status {
            ok: true,
            stream_ok: self.stream_ok,
            uptime_ms: now.saturating_sub(self.started_ms),
            match_count: self.matches.len(),
            signals: self.signals.len(),
        }
    }
}

/// Once a key fires at `t1`, the same key is suppressed at any `t2` within
/// the cooldown after it, and fires again once the cooldown has passed.
pub proof fn lemma_cooldown(last_fired: Map<Seq<char>, u128>, key: Seq<char>, t1: u128, t2: u128)
    ensures
        t1 <= t2 < t1 + DEDUPE_MS ==> within_cooldown(last_fired.insert(key, t1), key, t2),
        t2 >= t1 + DEDUPE_MS ==> !within_cooldown(last_fired.insert(key, t1), key, t2),
{
}

/// However many signals are appended, the log stays within `MAX_SIGNALS`
/// and its newest entry is the one appended last.
pub proof fn lemma_log_bounded<R>(log: Seq<R>, rec: R)
    requires
        log.len() <= MAX_SIGNALS,
    ensures
        appended(log, rec).len() <= MAX_SIGNALS,
        appended(log, rec).last() == rec,
        log.len() < MAX_SIGNALS ==> appended(log, rec).len() == log.len() + 1,
{
}

} // verus!

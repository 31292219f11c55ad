//! The sharp-line feed: SSE framing of the odds stream, screening of odds
//! records into usable books, and the reconnect schedule.

use vstd::prelude::*;
use vstd::string::StringSliceAdditionalSpecFns;

use crate::text::{chars_of, decimal_i64, decimal_text};
use crate::venue::{clone_opt, opt_chars};

verus! {

broadcast use {
    vstd::string::group_string_axioms,
    vstd::slice::group_slice_axioms,
    vstd::utf8::group_utf8_lib,
};

/// The largest character boundary of `bytes` at or below `max` (0 is always
/// one).
pub open spec fn boundary_at_or_below(bytes: Seq<u8>, max: int) -> int
    decreases max,
{
    if max <= 0 {
        0
    } else if vstd::utf8::is_char_boundary(bytes, max) {
        max
    } else {
        boundary_at_or_below(bytes, max - 1)
    }
}

proof fn lemma_boundary_bounds(bytes: Seq<u8>, max: int)
    requires
        vstd::utf8::valid_utf8(bytes),
    ensures
        0 <= boundary_at_or_below(bytes, max),
        max >= 0 ==> boundary_at_or_below(bytes, max) <= max,
        boundary_at_or_below(bytes, max) <= bytes.len(),
        vstd::utf8::is_char_boundary(bytes, boundary_at_or_below(bytes, max)),
        max >= bytes.len() ==> boundary_at_or_below(bytes, max) == bytes.len(),
    decreases max,
{
    if max <= 0 {
    } else if vstd::utf8::is_char_boundary(bytes, max) {
    } else {
        lemma_boundary_bounds(bytes, max - 1);
    }
}

/// At most `max` bytes of `s`, cut back to a character boundary so that
/// multi-byte text never splits mid-character.
pub fn head(s: &str, max: usize) -> (out: &str)
    ensures
        out.spec_bytes() == s.spec_bytes().subrange(
            0,
            boundary_at_or_below(s.spec_bytes(), max as int),
        ),
        out.spec_bytes().len() <= max,
        s.spec_bytes().len() <= max ==> out@ == s@,
        out@ == s@.take(out@.len() as int),
{
    let ghost bytes = s.spec_bytes();
    proof {
        lemma_boundary_bounds(bytes, max as int);
    }
    let len = s.as_bytes().len();
    if len <= max {
        assert(bytes.subrange(0, bytes.len() as int) =~= bytes);
        return s;
    }
    let mut end = max;
    while end > 0 && !s.is_char_boundary(end)
        invariant
            bytes == s.spec_bytes(),
            vstd::utf8::valid_utf8(bytes),
            end <= max,
            boundary_at_or_below(bytes, max as int) == boundary_at_or_below(bytes, end as int),
        decreases end,
    {
        end -= 1;
    }
    let (h, _t) = s.split_at(end);
    proof {
        assert(h.spec_bytes() =~= bytes.subrange(0, end as int));
        decode_utf8_split_prefix(s@, end as int);
        assert(vstd::utf8::decode_utf8(vstd::utf8::encode_utf8(h@)) == h@);
    }
    h
}

proof fn decode_utf8_split_prefix(chars: Seq<char>, e: int)
    requires
        vstd::utf8::is_char_boundary(vstd::utf8::encode_utf8(chars), e),
    ensures
        vstd::utf8::decode_utf8(vstd::utf8::encode_utf8(chars).subrange(0, e)) == chars.take(
            vstd::utf8::decode_utf8(vstd::utf8::encode_utf8(chars).subrange(0, e)).len() as int,
        ),
{
    let bytes = vstd::utf8::encode_utf8(chars);
    let left = vstd::utf8::decode_utf8(bytes.subrange(0, e));
    let right = vstd::utf8::decode_utf8(bytes.subrange(e, bytes.len() as int));
    assert(vstd::utf8::decode_utf8(bytes) == chars);
    assert(chars =~= left + right);
    assert(chars.take(left.len() as int) =~= left);
}


/// Scale of the feed's integer decimal odds: a raw price of 2000 is odds 2.0.
pub const DEFAULT_PRICE_SCALE: u64 = 1000;

/// One odds record of the stream: outcome names paired by index with raw
/// integer prices over the feed's price scale.
#[derive(Debug, Clone)]
pub struct OddsRecord {
    pub fixture_id: i64,
    pub super_odds_type: String,
    pub in_running: bool,
    /// Set for a period-scoped book ("half=1" prices who leads at half time).
    pub market_period: Option<String>,
    pub price_names: Vec<String>,
    pub prices: Vec<i32>,
}

/// One outcome of a usable book: its name and raw integer price.
#[derive(Debug, Clone)]
pub struct Leg {
    pub name: String,
    pub raw: i32,
}

/// A usable book: at least two legs, each of decimal odds
/// `raw / price_scale` at least 1.
#[derive(Debug, Clone)]
pub struct Book {
    pub legs: Vec<Leg>,
    pub price_scale: u64,
}

#[derive(Debug, Clone)]
pub struct MarketUpdate {
    pub market_id: String,
    pub fixture_id: i64,
    pub super_odds_type: String,
    pub in_running: bool,
    pub market_period: Option<String>,
    pub book: Book,
}

/// What screening one odds record gives.
#[derive(Debug, Clone)]
pub enum Screened {
    /// A full, usable book.
    Update(MarketUpdate),
    /// Some leg was unusable, so the whole record was refused: a partial
    /// book would renormalize over the surviving legs and fabricate
    /// divergence. `report` says whether this drop is one to log.
    Dropped { rejected: usize, legs: usize, report: bool },
    /// Every leg was usable but there were fewer than two.
    TooFewLegs,
}

/// A raw price gives decimal odds `raw / scale` that are finite and at
/// least 1.
pub open spec fn usable_price(raw: i32, scale: u64) -> bool {
    raw > 0 && scale > 0 && raw as int >= scale as int
}

/// Number of the first `n` prices that are not usable.
pub open spec fn unusable_count(prices: Seq<i32>, scale: u64, n: int) -> nat
    decreases n,
{
    if n <= 0 {
        0
    } else {
        unusable_count(prices, scale, n - 1) + if usable_price(prices[n - 1], scale) {
            0nat
        } else {
            1nat
        }
    }
}

/// No price counts as unusable exactly when every one of the first `n` is
/// at least the scale, and the scale is positive: decimal odds of at least
/// 1, however long.
pub proof fn lemma_unusable_prices_are_counted(prices: Seq<i32>, scale: u64, n: int)
    requires
        0 <= n <= prices.len(),
    ensures
        unusable_count(prices, scale, n) == 0 <==> (forall|k: int|
            0 <= k < n ==> scale > 0 && prices[k] as int >= scale as int),
        unusable_count(prices, scale, n) <= n,
    decreases n,
{
    if n > 0 {
        lemma_unusable_prices_are_counted(prices, scale, n - 1);
        if unusable_count(prices, scale, n) == 0 {
            assert forall|k: int| 0 <= k < n implies scale > 0 && prices[k] as int >= scale as int by {
                if k < n - 1 {
                } else {
                    assert(usable_price(prices[n - 1], scale));
                }
            }
        }
        if forall|k: int| 0 <= k < n ==> scale > 0 && prices[k] as int >= scale as int {
            assert(scale > 0 && prices[n - 1] as int >= scale as int);
            assert forall|k: int| 0 <= k < n - 1 implies scale > 0 && prices[k] as int >= scale as int by {
                assert(0 <= k < n);
            }
        }
    }
}

/// Number of legs a record pairs: names and prices matched by index.
pub open spec fn paired_legs(rec: OddsRecord) -> int {
    if rec.price_names@.len() <= rec.prices@.len() {
        rec.price_names@.len() as int
    } else {
        rec.prices@.len() as int
    }
}

/// The market id of a record: fixture id and book type, colon-separated.
pub open spec fn market_key(fixture_id: i64, super_odds_type: Seq<char>) -> Seq<char> {
    decimal_text(fixture_id as int) + seq![':'] + super_odds_type
}

/// Drops are logged for the first three and then every hundredth.
pub open spec fn drop_is_reported(dropped: int) -> bool {
    dropped <= 3 || dropped % 100 == 0
}

pub open spec fn leg_view(l: Leg) -> (Seq<char>, i32) {
    (l.name@, l.raw)
}

/// Decoding state of the odds stream: unframed text, the price scale, and
/// how many records have been refused.
pub struct FeedDecoder {
    pub pending: String,
    pub price_scale: u64,
    pub dropped: usize,
}

impl FeedDecoder {
    pub fn new(price_scale: u64) -> (d: Self)
        ensures
            d.pending@ == Seq::<char>::empty(),
            d.price_scale == price_scale,
            d.dropped == 0,
    {
        FeedDecoder { pending: String::new(), price_scale, dropped: 0 }
    }

    /// Turn one odds record into a usable book, pairing names with prices
    /// by index. Any unusable leg (a suspended price, or odds below 1 at the
    /// current scale) refuses the whole record and counts the drop.
    pub fn screen(&mut self, rec: &OddsRecord) -> (out: Screened)
        requires
            old(self).dropped < usize::MAX,
        ensures
            final(self).pending == old(self).pending,
            final(self).price_scale == old(self).price_scale,
            ({
                let scale = old(self).price_scale;
                let n = paired_legs(*rec);
                if unusable_count(rec.prices@, scale, n) > 0 {
                    &&& final(self).dropped == old(self).dropped + 1
                    &&& out == Screened::Dropped {
                        rejected: unusable_count(rec.prices@, scale, n) as usize,
                        legs: n as usize,
                        report: drop_is_reported(final(self).dropped as int),
                    }
                } else if n < 2 {
                    &&& final(self).dropped == old(self).dropped
                    &&& out is TooFewLegs
                } else {
                    &&& final(self).dropped == old(self).dropped
                    &&& out matches Screened::Update(u) && {
                        &&& u.market_id@ == market_key(rec.fixture_id, rec.super_odds_type@)
                        &&& u.fixture_id == rec.fixture_id
                        &&& u.super_odds_type@ == rec.super_odds_type@
                        &&& u.in_running == rec.in_running
                        &&& opt_chars(u.market_period) == opt_chars(rec.market_period)
                        &&& u.book.price_scale == scale
                        &&& u.book.legs@.len() == n
                        &&& forall|k: int| 0 <= k < n ==> #[trigger] leg_view(u.book.legs@[k]) == (
                            rec.price_names@[k]@,
                            rec.prices@[k],
                        )
                    }
                }
            }),
            (paired_legs(*rec) >= 2 && forall|k: int|
                0 <= k < paired_legs(*rec) ==> old(self).price_scale > 0 && rec.prices@[k] as int
                    >= old(self).price_scale as int) ==> out is Update && final(self).dropped
                == old(self).dropped,
            (exists|k: int|
                0 <= k < paired_legs(*rec) && (old(self).price_scale == 0 || (rec.prices@[k] as int)
                    < old(self).price_scale as int)) ==> out is Dropped && final(self).dropped
                == old(self).dropped + 1,
    {
        proof {
            lemma_unusable_prices_are_counted(rec.prices@, self.price_scale, paired_legs(*rec));
        }
        let scale = self.price_scale;
        let n = if rec.price_names.len() <= rec.prices.len() {
            rec.price_names.len()
        } else {
            rec.prices.len()
        };
        let mut legs: Vec<Leg> = Vec::new();
        let mut rejected: usize = 0;
        let mut k: usize = 0;
        while k < n
            invariant
                n == paired_legs(*rec),
                n <= rec.price_names@.len(),
                n <= rec.prices@.len(),
                k <= n,
                rejected == unusable_count(rec.prices@, scale, k as int),
                rejected <= k,
                rejected == 0 ==> legs@.len() == k,
                rejected == 0 ==> forall|j: int| 0 <= j < k ==> #[trigger] leg_view(legs@[j]) == (
                    rec.price_names@[j]@,
                    rec.prices@[j],
                ),
            decreases n - k,
        {
            let raw = rec.prices[k];
            if raw <= 0 {
                rejected += 1;
            } else if scale > 0 && raw as u64 >= scale {
                legs.push(Leg { name: rec.price_names[k].clone(), raw });
            } else {
                rejected += 1;
            }
            k += 1;
        }
        if rejected > 0 {
            self.dropped = self.dropped + 1;
            let report = self.dropped <= 3 || self.dropped % 100 == 0;
            return Screened::Dropped { rejected, legs: n, report };
        }
        if n < 2 {
            return Screened::TooFewLegs;
        }
        let market_id = decimal_i64(rec.fixture_id).concat(":").concat(rec.super_odds_type.as_str());
        proof {
            reveal_strlit(":");
        }
        Screened::Update(MarketUpdate {
            market_id,
            fixture_id: rec.fixture_id,
            super_odds_type: rec.super_odds_type.clone(),
            in_running: rec.in_running,
            market_period: clone_opt(&rec.market_period),
            book: Book { legs, price_scale: scale },
        })
    }
}


/// What `char::is_whitespace` answers for a character beyond ASCII.
pub uninterp spec fn char_is_whitespace(c: char) -> bool;

/// An ASCII character with the Unicode White_Space property: tab, line
/// feed, vertical tab, form feed, carriage return or space.
pub open spec fn is_ascii_white_space(c: char) -> bool {
    ('\t' <= c && c <= '\r') || c == ' '
}

/// What `char::is_whitespace` answers.
pub open spec fn whitespace(c: char) -> bool {
    if (c as u32) < 128 {
        is_ascii_white_space(c)
    } else {
        char_is_whitespace(c)
    }
}

/// Calls `char::is_whitespace` (Unicode White_Space). Among ASCII
/// characters the property holds of U+0009 to U+000D and the space alone;
/// beyond ASCII the contract names the answer and does not restate the
/// Unicode table.
#[verifier::external_body]
fn is_whitespace(c: char) -> (r: bool)
    ensures
        r == (if (c as u32) < 128 {
            is_ascii_white_space(c)
        } else {
            char_is_whitespace(c)
        }),
{
    c.is_whitespace()
}

/// Offset of the first frame break (a blank line, "\n\n") in `s`, or
/// `s.len()` when `s` holds none.
pub open spec fn break_at(s: Seq<char>) -> int
    decreases s.len(),
{
    if s.len() < 2 {
        s.len() as int
    } else if s[0] == '\n' && s[1] == '\n' {
        0
    } else {
        1 + break_at(s.drop_first())
    }
}

/// The complete frames at the front of `s`, in order, each ending with the
/// blank line that closes it.
pub open spec fn frames(s: Seq<char>) -> Seq<Seq<char>>
    decreases s.len(),
{
    let b = break_at(s);
    if 0 <= b && b + 2 <= s.len() {
        seq![s.take(b + 2)] + frames(s.skip(b + 2))
    } else {
        Seq::empty()
    }
}

/// What stays unframed once every complete frame of `s` is taken.
pub open spec fn unframed(s: Seq<char>) -> Seq<char>
    decreases s.len(),
{
    let b = break_at(s);
    if 0 <= b && b + 2 <= s.len() {
        unframed(s.skip(b + 2))
    } else {
        s
    }
}

/// Offset of the first line feed in `s`, or `s.len()`.
pub open spec fn line_end(s: Seq<char>) -> int
    decreases s.len(),
{
    if s.len() == 0 {
        0
    } else if s[0] == '\n' {
        0
    } else {
        1 + line_end(s.drop_first())
    }
}

/// A line without its carriage return, as `str::lines` yields it.
pub open spec fn strip_cr(line: Seq<char>) -> Seq<char> {
    if line.len() > 0 && line.last() == '\r' {
        line.drop_last()
    } else {
        line
    }
}

/// `s` without its leading whitespace, as `str::trim_start` gives it.
pub open spec fn trim_start(s: Seq<char>) -> Seq<char>
    decreases s.len(),
{
    if s.len() > 0 && whitespace(s[0]) {
        trim_start(s.drop_first())
    } else {
        s
    }
}

/// The data a line contributes: the text after a `data:` prefix, without
/// leading whitespace; nothing for any other line.
pub open spec fn line_payload(line: Seq<char>) -> Seq<char> {
    if line.len() >= 5 && line.take(5) == seq!['d', 'a', 't', 'a', ':'] {
        trim_start(line.skip(5))
    } else {
        Seq::empty()
    }
}

/// The data of a frame: the payloads of its lines, concatenated.
pub open spec fn frame_data(s: Seq<char>) -> Seq<char>
    decreases s.len(),
{
    if s.len() == 0 {
        Seq::empty()
    } else {
        let e = line_end(s);
        let here = line_payload(strip_cr(s.take(e)));
        if 0 <= e && e < s.len() {
            here + frame_data(s.skip(e + 1))
        } else {
            here
        }
    }
}

/// A frame's data is a record worth decoding: neither empty nor `{}`.
pub open spec fn is_record(d: Seq<char>) -> bool {
    d.len() > 0 && d != seq!['{', '}']
}

/// The records carried by a run of frames, in order.
pub open spec fn frame_records(fs: Seq<Seq<char>>) -> Seq<Seq<char>>
    decreases fs.len(),
{
    if fs.len() == 0 {
        Seq::empty()
    } else {
        let d = frame_data(fs[0]);
        if is_record(d) {
            seq![d] + frame_records(fs.drop_first())
        } else {
            frame_records(fs.drop_first())
        }
    }
}

proof fn lemma_break_at_bounds(s: Seq<char>)
    ensures
        0 <= break_at(s) <= s.len(),
        break_at(s) < s.len() ==> break_at(s) + 2 <= s.len(),
    decreases s.len(),
{
    if s.len() >= 2 && !(s[0] == '\n' && s[1] == '\n') {
        lemma_break_at_bounds(s.drop_first());
    }
}

proof fn lemma_line_end_bounds(s: Seq<char>)
    ensures
        0 <= line_end(s) <= s.len(),
    decreases s.len(),
{
    if s.len() > 0 && s[0] != '\n' {
        lemma_line_end_bounds(s.drop_first());
    }
}

/// Absolute offset of the first frame break at or after `from`, or the
/// length of `p` when none follows.
fn find_break(p: &Vec<char>, from: usize) -> (r: usize)
    requires
        from <= p@.len(),
    ensures
        r == from + break_at(p@.skip(from as int)),
{
    let len = p.len();
    let mut i = from;
    while len > 0 && i < len - 1 && !(p[i] == '\n' && p[i + 1] == '\n')
        invariant
            from <= i <= len,
            len == p@.len(),
            break_at(p@.skip(from as int)) == (i - from) + break_at(p@.skip(i as int)),
        decreases len - i,
    {
        assert(p@.skip(i as int).drop_first() =~= p@.skip(i + 1));
        i += 1;
    }
    if len > 0 && i < len - 1 {
        i
    } else {
        len
    }
}

/// Absolute offset of the first line feed in `p[from..to]`, or `to`.
fn find_line_end(p: &Vec<char>, from: usize, to: usize) -> (r: usize)
    requires
        from <= to <= p@.len(),
    ensures
        r == from + line_end(p@.subrange(from as int, to as int)),
{
    let mut i = from;
    while i < to && p[i] != '\n'
        invariant
            from <= i <= to,
            to <= p@.len(),
            line_end(p@.subrange(from as int, to as int)) == (i - from) + line_end(
                p@.subrange(i as int, to as int),
            ),
        decreases to - i,
    {
        assert(p@.subrange(i as int, to as int).drop_first() =~= p@.subrange(i + 1, to as int));
        i += 1;
    }
    i
}

/// Absolute offset of the first non-whitespace character in `p[from..to]`,
/// or `to`.
fn skip_whitespace(p: &Vec<char>, from: usize, to: usize) -> (r: usize)
    requires
        from <= to <= p@.len(),
    ensures
        from <= r <= to,
        p@.subrange(r as int, to as int) == trim_start(p@.subrange(from as int, to as int)),
{
    let mut i = from;
    while i < to && is_whitespace(p[i])
        invariant
            from <= i <= to,
            to <= p@.len(),
            trim_start(p@.subrange(from as int, to as int)) == trim_start(
                p@.subrange(i as int, to as int),
            ),
        decreases to - i,
    {
        assert(p@.subrange(i as int, to as int).drop_first() =~= p@.subrange(i + 1, to as int));
        i += 1;
    }
    i
}

/// The data of the frame `text[from..to]`, where `p` holds the characters
/// of `text`.
fn frame_payload(text: &str, p: &Vec<char>, from: usize, to: usize) -> (d: String)
    requires
        p@ == text@,
        from <= to <= p@.len(),
    ensures
        d@ == frame_data(p@.subrange(from as int, to as int)),
{
    let mut data = String::new();
    let mut i = from;
    loop
        invariant
            p@ == text@,
            from <= i <= to,
            to <= p@.len(),
            frame_data(p@.subrange(from as int, to as int)) == data@ + frame_data(
                p@.subrange(i as int, to as int),
            ),
        decreases to - i,
    {
        if i == to {
            assert(data@ + frame_data(p@.subrange(i as int, to as int)) =~= data@);
            return data;
        }
        let ghost rest = p@.subrange(i as int, to as int);
        let e = find_line_end(p, i, to);
        proof {
            lemma_line_end_bounds(rest);
            assert(rest.take(e - i) =~= p@.subrange(i as int, e as int));
        }
        let mut le = e;
        if le > i && p[le - 1] == '\r' {
            le = le - 1;
        }
        proof {
            assert(strip_cr(rest.take(e - i)) =~= p@.subrange(i as int, le as int));
        }
        let ghost line = p@.subrange(i as int, le as int);
        let mut here = String::new();
        if le - i >= 5 && p[i] == 'd' && p[i + 1] == 'a' && p[i + 2] == 't' && p[i + 3] == 'a'
            && p[i + 4] == ':' {
            let j = skip_whitespace(p, i + 5, le);
            proof {
                assert(line.take(5) =~= seq!['d', 'a', 't', 'a', ':']);
                assert(line.skip(5) =~= p@.subrange(i + 5, le as int));
            }
            here = String::from_str(text.substring_char(j, le));
        } else {
            proof {
                if line.len() >= 5 && line.take(5) == seq!['d', 'a', 't', 'a', ':'] {
                    assert(line.take(5)[0] == p@[i as int]);
                    assert(line.take(5)[1] == p@[i + 1]);
                    assert(line.take(5)[2] == p@[i + 2]);
                    assert(line.take(5)[3] == p@[i + 3]);
                    assert(line.take(5)[4] == p@[i + 4]);
                }
            }
        }
        let ghost before = data@;
        data.append(here.as_str());
        proof {
            assert(here@ == line_payload(line));
        }
        if e < to {
            proof {
                assert(rest.skip(e - i + 1) =~= p@.subrange(e + 1, to as int));
                assert(data@ + frame_data(p@.subrange(e + 1, to as int)) =~= before + (here@
                    + frame_data(p@.subrange(e + 1, to as int))));
            }
            i = e + 1;
        } else {
            proof {
                assert(frame_data(rest) == here@);
                assert(p@.subrange(to as int, to as int) =~= Seq::<char>::empty());
                assert(data@ + frame_data(p@.subrange(to as int, to as int)) =~= data@);
            }
            i = to;
        }
    }
}

impl FeedDecoder {
    /// Take every complete frame off the unframed text and return the
    /// records they carry, in order; frames whose data is empty or `{}` carry
    /// none. An incomplete trailing frame stays unframed.
    pub fn drain_frames(&mut self) -> (records: Vec<String>)
        ensures
            records@.map_values(|r: String| r@) == frame_records(frames(old(self).pending@)),
            final(self).pending@ == unframed(old(self).pending@),
            final(self).price_scale == old(self).price_scale,
            final(self).dropped == old(self).dropped,
    {
        let p = chars_of(self.pending.as_str());
        let ghost whole = p@;
        let mut records: Vec<String> = Vec::new();
        let mut pos: usize = 0;
        proof {
            assert(whole.skip(0) =~= whole);
            assert(records@.map_values(|r: String| r@) + frame_records(frames(whole)) =~= frame_records(
                frames(whole),
            ));
        }
        loop
            invariant
                p@ == whole,
                whole == self.pending@,
                whole == old(self).pending@,
                self.price_scale == old(self).price_scale,
                self.dropped == old(self).dropped,
                pos <= whole.len(),
                frame_records(frames(whole)) == records@.map_values(|r: String| r@)
                    + frame_records(frames(whole.skip(pos as int))),
                unframed(whole) == unframed(whole.skip(pos as int)),
            decreases whole.len() - pos,
        {
            let b = find_break(&p, pos);
            let ghost rest = whole.skip(pos as int);
            proof {
                lemma_break_at_bounds(rest);
            }
            if b >= p.len() {
                proof {
                    assert(frames(rest) =~= Seq::<Seq<char>>::empty());
                    assert(unframed(rest) == rest);
                    assert(records@.map_values(|r: String| r@) + frame_records(
                        Seq::<Seq<char>>::empty(),
                    ) =~= records@.map_values(|r: String| r@));
                }
                let left = String::from_str(self.pending.as_str().substring_char(pos, p.len()));
                proof {
                    assert(left@ =~= rest);
                    assert(frame_records(frames(whole)) == records@.map_values(|r: String| r@));
                    assert(unframed(whole) == rest);
                }
                self.pending = left;
                return records;
            }
            let end = b + 2;
            let d = frame_payload(self.pending.as_str(), &p, pos, end);
            proof {
                assert(rest.take(end - pos) =~= whole.subrange(pos as int, end as int));
                assert(rest.skip(end - pos) =~= whole.skip(end as int));
                assert(frames(rest) == seq![whole.subrange(pos as int, end as int)] + frames(
                    whole.skip(end as int),
                ));
                assert((seq![whole.subrange(pos as int, end as int)] + frames(
                    whole.skip(end as int),
                )).drop_first() =~= frames(whole.skip(end as int)));
            }
            let ghost before = records@.map_values(|r: String| r@);
            if d.as_str().unicode_len() != 0 && !is_empty_object(&d) {
                records.push(d);
                proof {
                    assert(records@.map_values(|r: String| r@) =~= before.push(d@));
                    assert(before + frame_records(frames(rest)) =~= records@.map_values(
                        |r: String| r@,
                    ) + frame_records(frames(whole.skip(end as int))));
                }
            }
            pos = end;
        }
    }
}

fn is_empty_object(d: &String) -> (r: bool)
    ensures
        r == (d@ == seq!['{', '}']),
{
    proof {
        reveal_strlit("{}");
    }
    let braces = String::from_str("{}");
    assert("{}"@ =~= seq!['{', '}']);
    *d == braces
}


/// First wait before reconnecting a dropped odds stream, in seconds.
pub const INITIAL_BACKOFF_SECS: u64 = 1;

/// Longest wait between reconnect attempts, in seconds.
pub const MAX_BACKOFF_SECS: u64 = 30;

/// The wait after `secs`: doubled, capped at `MAX_BACKOFF_SECS`.
pub fn next_backoff_secs(secs: u64) -> (next: u64)
    requires
        secs <= u64::MAX / 2,
    ensures
        next == if 2 * secs <= MAX_BACKOFF_SECS { 2 * secs } else { MAX_BACKOFF_SECS as int },
{
    let doubled = secs * 2;
    if doubled <= MAX_BACKOFF_SECS {
        doubled
    } else {
        MAX_BACKOFF_SECS
    }
}

/// What the odds source does next.
#[derive(Debug, Clone, Copy, PartialEq, Eq, Structural)]
pub enum SourceStep {
    /// Hand out the oldest decoded update.
    Yield,
    /// No stream is open: reconnect with backoff, then frame afresh.
    Reconnect,
    /// Read the next chunk of the open stream.
    Read,
}

/// A decoded update that is waiting goes out first; with none waiting and
/// no stream open the source reconnects; otherwise it reads.
pub fn next_step(buffered: usize, connected: bool) -> (step: SourceStep)
    ensures
        step == (if buffered > 0 {
            SourceStep::Yield
        } else if !connected {
            SourceStep::Reconnect
        } else {
            SourceStep::Read
        }),
{
    if buffered > 0 {
        SourceStep::Yield
    } else if !connected {
        SourceStep::Reconnect
    } else {
        SourceStep::Read
    }
}

/// How one read of the stream ended.
#[derive(Debug, Clone, Copy, PartialEq, Eq, Structural)]
pub enum ReadOutcome {
    /// A chunk of text arrived.
    Chunk,
    /// The read failed.
    Failed,
    /// The server closed the stream.
    Closed,
}

/// The stream stays open only while chunks arrive; a failed read or a
/// close drops it, so the next step reconnects.
pub fn keeps_stream(outcome: ReadOutcome) -> (keep: bool)
    ensures
        keep == (outcome == ReadOutcome::Chunk),
{
    match outcome {
        ReadOutcome::Chunk => true,
        _ => false,
    }
}

/// A fixture of the feed's snapshot: its id and its two participants.
#[derive(Debug, Clone)]
pub struct FixtureRecord {
    pub fixture_id: i64,
    pub participant1: String,
    pub participant2: String,
}

/// Fixture id to (participant 1, participant 2), a later record for the
/// same id replacing an earlier one.
pub open spec fn fixture_map(records: Seq<FixtureRecord>) -> Map<i64, (String, String)>
    decreases records.len(),
{
    if records.len() == 0 {
        Map::empty()
    } else {
        let f = records.last();
        fixture_map(records.drop_last()).insert(f.fixture_id, (f.participant1, f.participant2))
    }
}

/// Index a fixture snapshot by fixture id.
pub fn fixture_index(records: &Vec<FixtureRecord>) -> (m: std::collections::HashMap<i64, (String, String)>)
    ensures
        m@ == fixture_map(records@),
{
    broadcast use vstd::std_specs::hash::group_hash_axioms;
    let mut m: std::collections::HashMap<i64, (String, String)> = std::collections::HashMap::new();
    let mut k: usize = 0;
    while k < records.len()
        invariant
            k <= records@.len(),
            m@ == fixture_map(records@.take(k as int)),
        decreases records@.len() - k,
    {
        let f = &records[k];
        proof {
            assert(records@.take(k + 1).drop_last() =~= records@.take(k as int));
            assert(records@.take(k + 1).last() == *f);
        }
        m.insert(f.fixture_id, (f.participant1.clone(), f.participant2.clone()));
        k += 1;
    }
    proof {
        assert(records@.take(records@.len() as int) =~= records@);
    }
    m
}


/// Frames laid end to end.
pub open spec fn joined(fs: Seq<Seq<char>>) -> Seq<char>
    decreases fs.len(),
{
    if fs.len() == 0 {
        Seq::empty()
    } else {
        fs[0] + joined(fs.drop_first())
    }
}

/// Framing loses and invents nothing: the complete frames followed by the
/// unframed rest are exactly the text, and the rest holds no frame break,
/// so every complete frame is taken.
pub proof fn lemma_framing_is_exact(s: Seq<char>)
    ensures
        joined(frames(s)) + unframed(s) == s,
        break_at(unframed(s)) == unframed(s).len(),
    decreases s.len(),
{
    let b = break_at(s);
    lemma_break_at_bounds(s);
    if 0 <= b && b + 2 <= s.len() {
        let rest = s.skip(b + 2);
        lemma_framing_is_exact(rest);
        let fs = frames(s);
        assert(fs == seq![s.take(b + 2)] + frames(rest));
        assert(fs.drop_first() =~= frames(rest));
        assert(fs[0] == s.take(b + 2));
        assert(joined(fs) == s.take(b + 2) + joined(frames(rest)));
        assert(s.take(b + 2) + (joined(frames(rest)) + unframed(rest)) =~= s);
    } else {
        assert(frames(s) =~= Seq::<Seq<char>>::empty());
        assert(joined(frames(s)) + s =~= s);
    }
}

proof fn lemma_no_break_inside(s: Seq<char>)
    requires
        break_at(s) == s.len(),
    ensures
        forall|i: int| 0 <= i < s.len() - 1 ==> !(#[trigger] s[i] == '\n' && s[i + 1] == '\n'),
    decreases s.len(),
{
    if s.len() >= 2 {
        let t = s.drop_first();
        lemma_no_break_inside(t);
        assert forall|i: int| 0 <= i < s.len() - 1 implies !(#[trigger] s[i] == '\n' && s[i + 1]
            == '\n') by {
            if i > 0 {
                assert(s[i] == t[i - 1] && s[i + 1] == t[i]);
            }
        }
    }
}

/// What stays pending after draining holds no blank line ("\n\n"), and is
/// the whole text when the text holds none.
pub proof fn lemma_unframed_holds_no_break(s: Seq<char>)
    ensures
        forall|i: int|
            0 <= i < unframed(s).len() - 1 ==> !(#[trigger] unframed(s)[i] == '\n' && unframed(
                s,
            )[i + 1] == '\n'),
        break_at(s) == s.len() ==> unframed(s) == s,
{
    lemma_framing_is_exact(s);
    lemma_break_at_bounds(s);
    lemma_no_break_inside(unframed(s));
}

/// A `data: ` line carries the text after the prefix and its single space,
/// when that text does not itself start with whitespace.
pub proof fn lemma_data_line_payload(rest: Seq<char>)
    requires
        rest.len() == 0 || !whitespace(rest[0]),
    ensures
        line_payload(seq!['d', 'a', 't', 'a', ':', ' '] + rest) == rest,
{
    let line = seq!['d', 'a', 't', 'a', ':', ' '] + rest;
    assert(line.take(5) =~= seq!['d', 'a', 't', 'a', ':']);
    let after = line.skip(5);
    assert(after =~= seq![' '] + rest);
    assert(after[0] == ' ');
    assert(after.drop_first() =~= rest);
    assert(trim_start(after) == trim_start(rest));
}

/// One frame carries one record, its data, exactly when that data is
/// neither empty nor `{}`; otherwise it carries none.
pub proof fn lemma_one_frame_records(f: Seq<char>)
    ensures
        frame_records(seq![f]) == (if frame_data(f).len() > 0 && frame_data(f) != seq!['{', '}'] {
            seq![frame_data(f)]
        } else {
            Seq::<Seq<char>>::empty()
        }),
{
    assert(seq![f].drop_first() =~= Seq::<Seq<char>>::empty());
    assert(seq![f][0] == f);
    assert(frame_records(Seq::<Seq<char>>::empty()) =~= Seq::<Seq<char>>::empty());
    assert(seq![frame_data(f)] + Seq::<Seq<char>>::empty() =~= seq![frame_data(f)]);
}

/// The records of two runs of frames, one after the other, are the records
/// of the first run followed by those of the second: no frame's record is
/// lost or reordered, however many frames arrive together.
pub proof fn lemma_frame_records_append(a: Seq<Seq<char>>, b: Seq<Seq<char>>)
    ensures
        frame_records(a + b) == frame_records(a) + frame_records(b),
    decreases a.len(),
{
    if a.len() == 0 {
        assert(a + b =~= b);
        assert(frame_records(a) + frame_records(b) =~= frame_records(b));
    } else {
        assert((a + b)[0] == a[0]);
        assert((a + b).drop_first() =~= a.drop_first() + b);
        lemma_frame_records_append(a.drop_first(), b);
        let d = frame_data(a[0]);
        if is_record(d) {
            assert(seq![d] + (frame_records(a.drop_first()) + frame_records(b)) =~= (seq![d]
                + frame_records(a.drop_first())) + frame_records(b));
        }
    }
}

} // verus!

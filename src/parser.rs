use vstd::prelude::*;
use crate::quote::{Ask, Asks, Bid, Bids, QuotePacket, TimeOfDay};

verus! {

/// Length in bytes of one quote record.
pub const RECORD_LEN: usize = 214;

/// Number of price levels on each side of a record.
pub const LEVELS: usize = 5;

/// What `std::str::from_utf8` makes of a byte sequence: the text when it is
/// valid UTF-8, nothing otherwise.
pub uninterp spec fn utf8_text(b: Seq<u8>) -> Option<Seq<char>>;

/// Relies on `std::str::from_utf8`: it accepts exactly the valid UTF-8
/// sequences and decodes them.
#[verifier::external_body]
fn text_of(b: &[u8]) -> (r: Option<String>)
    ensures
        r is Some <==> utf8_text(b@) is Some,
        r matches Some(t) ==> t@ == utf8_text(b@)->0,
{
    match std::str::from_utf8(b) {
        Ok(s) => Some(s.to_string()),
        Err(_) => None,
    }
}

/// Relies on chrono's `NaiveTime::from_hms_milli_opt`, read back through
/// `NaiveTime::signed_duration_since(NaiveTime::MIN)` and
/// `TimeDelta::num_milliseconds`: a valid clock reading becomes its
/// milliseconds since midnight, an invalid one is refused.
#[verifier::external_body]
fn clock_millis(hour: u32, min: u32, sec: u32, milli: u32) -> (r: Option<i64>)
    requires
        milli < 1000,
    ensures
        r is Some <==> (hour < 24 && min < 60 && sec < 60),
        r matches Some(v) ==> v == hour * 3_600_000 + min * 60_000 + sec * 1000 + milli,
{
    match chrono::NaiveTime::from_hms_milli_opt(hour, min, sec, milli) {
        Some(t) => Some(t.signed_duration_since(chrono::NaiveTime::MIN).num_milliseconds()),
        None => None,
    }
}

pub open spec fn pow10(n: nat) -> nat
    decreases n,
{
    if n == 0 {
        1
    } else {
        10 * pow10((n - 1) as nat)
    }
}

proof fn lemma_pow10_mono(a: nat, b: nat)
    requires
        a <= b,
    ensures
        pow10(a) <= pow10(b),
    decreases b - a,
{
    if a < b {
        lemma_pow10_mono(a, (b - 1) as nat);
    }
}

pub open spec fn is_digit(b: u8) -> bool {
    48 <= b <= 57
}

pub open spec fn all_digits(s: Seq<u8>) -> bool {
    forall|i: int| 0 <= i < s.len() ==> is_digit(#[trigger] s[i])
}

/// The number that a string of decimal digits denotes.
pub open spec fn digits_value(s: Seq<u8>) -> nat
    decreases s.len(),
{
    if s.len() == 0 {
        0
    } else {
        digits_value(s.drop_last()) * 10 + (s.last() - 48) as nat
    }
}

proof fn lemma_digits_bound(s: Seq<u8>)
    requires
        all_digits(s),
    ensures
        digits_value(s) < pow10(s.len()),
    decreases s.len(),
{
    if s.len() > 0 {
        let t = s.drop_last();
        assert(all_digits(t)) by {
            assert forall|i: int| 0 <= i < t.len() implies is_digit(#[trigger] t[i]) by {
                assert(is_digit(s[i]));
            }
        }
        lemma_digits_bound(t);
        assert(is_digit(s[s.len() - 1]));
        let v = digits_value(t);
        let p = pow10(t.len());
        let d = (s.last() - 48) as nat;
        assert(v * 10 + d < 10 * p) by (nonlinear_arith)
            requires v < p, d <= 9;
    }
}

/// The digits of a number field, after an optional leading `+`.
pub open spec fn unsigned_digits(s: Seq<u8>) -> Seq<u8> {
    if s.len() > 0 && s[0] == 43 {
        s.drop_first()
    } else {
        s
    }
}

/// A number field holds an optional `+` and then one or more decimal digits.
pub open spec fn number_ok(s: Seq<u8>) -> bool {
    unsigned_digits(s).len() > 0 && all_digits(unsigned_digits(s))
}

pub open spec fn number_value(s: Seq<u8>) -> nat {
    digits_value(unsigned_digits(s))
}

/// The field of `len` bytes at `at`.
pub open spec fn field(s: Seq<u8>, at: int, len: int) -> Seq<u8> {
    s.subrange(at, at + len)
}

/// Reads the unsigned number field of `len` bytes at `at`.
fn parse_u32(input: &[u8], at: usize, len: usize) -> (r: Option<u32>)
    requires
        at + len <= input@.len(),
        1 <= len <= 7,
    ensures
        r is Some <==> number_ok(field(input@, at as int, len as int)),
        r matches Some(v) ==> v == number_value(field(input@, at as int, len as int)),
{
    let ghost f = field(input@, at as int, len as int);
    let n = input.len();
    let end = at + len;
    let start: usize = if input[at] == 43u8 { at + 1 } else { at };
    proof {
        assert(unsigned_digits(f) =~= input@.subrange(start as int, end as int));
    }
    if start == end {
        return None;
    }
    let mut i: usize = start;
    let mut v: u32 = 0;
    while i < end
        invariant
            start <= i <= end,
            end <= input@.len(),
            end - start <= 7,
            unsigned_digits(f) == input@.subrange(start as int, end as int),
            f == field(input@, at as int, len as int),
            all_digits(input@.subrange(start as int, i as int)),
            v == digits_value(input@.subrange(start as int, i as int)),
            v < pow10((i - start) as nat),
        decreases end - i,
    {
        let b = input[i];
        if b < 48u8 || b > 57u8 {
            proof {
                assert(input@.subrange(start as int, end as int)[i - start] == b);
                assert(!is_digit(unsigned_digits(f)[i - start]));
            }
            return None;
        }
        proof {
            let k = (i - start) as nat;
            lemma_pow10_mono(k + 1, 7);
            reveal_with_fuel(pow10, 8);
            assert(pow10(7) == 10_000_000);
            let p = pow10(k);
            assert(v * 10 + (b - 48) < 10 * p) by (nonlinear_arith)
                requires v < p, b - 48 <= 9;
            assert(input@.subrange(start as int, i + 1).drop_last() =~= input@.subrange(
                start as int,
                i as int,
            ));
        }
        v = v * 10 + (b - 48u8) as u32;
        i = i + 1;
    }
    Some(v)
}

/// The bid level `i` of a record: a five byte price and a seven byte volume.
pub open spec fn bid_level_ok(s: Seq<u8>, i: int) -> bool {
    number_ok(field(s, 29 + 12 * i, 5)) && number_ok(field(s, 34 + 12 * i, 7))
}

pub open spec fn bid_at(s: Seq<u8>, i: int) -> Bid {
    Bid {
        price: number_value(field(s, 29 + 12 * i, 5)) as u32,
        volume: number_value(field(s, 34 + 12 * i, 7)) as u32,
    }
}

/// The ask level `i` of a record, laid out as the bid levels are.
pub open spec fn ask_level_ok(s: Seq<u8>, i: int) -> bool {
    number_ok(field(s, 96 + 12 * i, 5)) && number_ok(field(s, 101 + 12 * i, 7))
}

pub open spec fn ask_at(s: Seq<u8>, i: int) -> Ask {
    Ask {
        price: number_value(field(s, 96 + 12 * i, 5)) as u32,
        volume: number_value(field(s, 101 + 12 * i, 7)) as u32,
    }
}

/// The four byte count of best quotes at position `i` of the run at `base`.
pub open spec fn count_ok(s: Seq<u8>, base: int, i: int) -> bool {
    number_ok(field(s, base + 4 * i, 4))
}

/// The accept time field: hours, minutes, seconds and milliseconds, two
/// digits each.
pub open spec fn time_part(s: Seq<u8>, i: int) -> Seq<u8> {
    field(s, 206 + 2 * i, 2)
}

pub open spec fn time_ok(s: Seq<u8>) -> bool {
    &&& forall|i: int| 0 <= i < 4 ==> number_ok(#[trigger] time_part(s, i))
    &&& number_value(time_part(s, 0)) < 24
    &&& number_value(time_part(s, 1)) < 60
    &&& number_value(time_part(s, 2)) < 60
}

pub open spec fn record_time(s: Seq<u8>) -> int {
    (number_value(time_part(s, 0)) * 3_600_000 + number_value(time_part(s, 1)) * 60_000
        + number_value(time_part(s, 2)) * 1000 + number_value(time_part(s, 3))) as int
}

/// The record tag `B6034`.
pub open spec fn record_tag() -> Seq<u8> {
    seq![66u8, 54u8, 48u8, 51u8, 52u8]
}

/// `s` starts with a well-formed quote record.
pub open spec fn record_ok(s: Seq<u8>) -> bool {
    &&& s.len() >= 214
    &&& field(s, 0, 5) == record_tag()
    &&& utf8_text(field(s, 5, 12)) is Some
    &&& forall|i: int| 0 <= i < 5 ==> #[trigger] bid_level_ok(s, i)
    &&& forall|i: int| 0 <= i < 5 ==> #[trigger] ask_level_ok(s, i)
    &&& forall|i: int| 0 <= i < 5 ==> #[trigger] count_ok(s, 161, i)
    &&& forall|i: int| 0 <= i < 5 ==> #[trigger] count_ok(s, 186, i)
    &&& time_ok(s)
}

/// `q` is the quote that the record at the start of `s` holds, captured at
/// `packet_time`.
pub open spec fn decodes_to(q: QuotePacket, s: Seq<u8>, packet_time: TimeOfDay) -> bool {
    &&& q.issue_code@ == utf8_text(field(s, 5, 12))->0
    &&& q.bids.0@ == Seq::new(5, |i: int| bid_at(s, i))
    &&& q.asks.0@ == Seq::new(5, |i: int| ask_at(s, i))
    &&& q.accept_time.millis == record_time(s)
    &&& q.packet_time == packet_time
}

/// The input does not start with a well-formed quote record.
#[derive(Clone, Copy, Debug, PartialEq, Eq, Structural)]
pub struct DecodeError;

/// Reads one bid level: a price then a volume.
fn bid_parser(input: &[u8], i: usize) -> (r: Option<Bid>)
    requires
        input@.len() >= RECORD_LEN,
        i < LEVELS,
    ensures
        r is Some <==> bid_level_ok(input@, i as int),
        r matches Some(b) ==> b == bid_at(input@, i as int),
{
    let price = parse_u32(input, 29 + 12 * i, 5);
    let volume = parse_u32(input, 34 + 12 * i, 7);
    match (price, volume) {
        (Some(price), Some(volume)) => Some(Bid { price, volume }),
        _ => None,
    }
}

/// Reads one ask level: a price then a volume.
fn ask_parser(input: &[u8], i: usize) -> (r: Option<Ask>)
    requires
        input@.len() >= RECORD_LEN,
        i < LEVELS,
    ensures
        r is Some <==> ask_level_ok(input@, i as int),
        r matches Some(a) ==> a == ask_at(input@, i as int),
{
    let price = parse_u32(input, 96 + 12 * i, 5);
    let volume = parse_u32(input, 101 + 12 * i, 7);
    match (price, volume) {
        (Some(price), Some(volume)) => Some(Ask { price, volume }),
        _ => None,
    }
}

/// Reads the bid levels of a record.
fn collect_bids(input: &[u8]) -> (r: Option<Vec<Bid>>)
    requires
        input@.len() >= RECORD_LEN,
    ensures
        r is Some <==> forall|i: int| 0 <= i < 5 ==> #[trigger] bid_level_ok(input@, i),
        r matches Some(v) ==> v@ == Seq::new(5, |i: int| bid_at(input@, i)),
{
    let mut bids: Vec<Bid> = Vec::new();
    let mut i: usize = 0;
    while i < LEVELS
        invariant
            i <= LEVELS,
            input@.len() >= RECORD_LEN,
            bids@ == Seq::new(i as nat, |k: int| bid_at(input@, k)),
            forall|k: int| 0 <= k < i ==> #[trigger] bid_level_ok(input@, k),
        decreases LEVELS - i,
    {
        match bid_parser(input, i) {
            Some(b) => bids.push(b),
            None => return None,
        }
        i = i + 1;
        assert(bids@ =~= Seq::new(i as nat, |k: int| bid_at(input@, k)));
    }
    Some(bids)
}

/// Reads the ask levels of a record.
fn collect_asks(input: &[u8]) -> (r: Option<Vec<Ask>>)
    requires
        input@.len() >= RECORD_LEN,
    ensures
        r is Some <==> forall|i: int| 0 <= i < 5 ==> #[trigger] ask_level_ok(input@, i),
        r matches Some(v) ==> v@ == Seq::new(5, |i: int| ask_at(input@, i)),
{
    let mut asks: Vec<Ask> = Vec::new();
    let mut i: usize = 0;
    while i < LEVELS
        invariant
            i <= LEVELS,
            input@.len() >= RECORD_LEN,
            asks@ == Seq::new(i as nat, |k: int| ask_at(input@, k)),
            forall|k: int| 0 <= k < i ==> #[trigger] ask_level_ok(input@, k),
        decreases LEVELS - i,
    {
        match ask_parser(input, i) {
            Some(a) => asks.push(a),
            None => return None,
        }
        i = i + 1;
        assert(asks@ =~= Seq::new(i as nat, |k: int| ask_at(input@, k)));
    }
    Some(asks)
}

/// Checks the five counts of best quotes of the run at `base`.
fn number_of_best_parser(input: &[u8], base: usize) -> (r: bool)
    requires
        input@.len() >= RECORD_LEN,
        base == 161 || base == 186,
    ensures
        r <==> forall|i: int| 0 <= i < 5 ==> #[trigger] count_ok(input@, base as int, i),
{
    let mut i: usize = 0;
    while i < LEVELS
        invariant
            i <= LEVELS,
            input@.len() >= RECORD_LEN,
            base == 161 || base == 186,
            forall|k: int| 0 <= k < i ==> #[trigger] count_ok(input@, base as int, k),
        decreases LEVELS - i,
    {
        if parse_u32(input, base + 4 * i, 4).is_none() {
            assert(!count_ok(input@, base as int, i as int));
            return false;
        }
        i = i + 1;
    }
    true
}

/// Reads the accept time of a record.
fn time_parser(input: &[u8]) -> (r: Option<TimeOfDay>)
    requires
        input@.len() >= RECORD_LEN,
    ensures
        r is Some <==> time_ok(input@),
        r matches Some(t) ==> t.millis == record_time(input@),
{
    let hours = parse_u32(input, 206, 2);
    let minutes = parse_u32(input, 208, 2);
    let seconds = parse_u32(input, 210, 2);
    let millis = parse_u32(input, 212, 2);
    proof {
        assert(time_part(input@, 0) == field(input@, 206, 2));
        assert(time_part(input@, 1) == field(input@, 208, 2));
        assert(time_part(input@, 2) == field(input@, 210, 2));
        assert(time_part(input@, 3) == field(input@, 212, 2));
    }
    match (hours, minutes, seconds, millis) {
        (Some(h), Some(m), Some(s), Some(ms)) => {
            proof {
                let d = unsigned_digits(field(input@, 212, 2));
                lemma_digits_bound(d);
                lemma_pow10_mono(d.len(), 2);
                reveal_with_fuel(pow10, 3);
            }
            match clock_millis(h, m, s, ms) {
                Some(v) => Some(TimeOfDay { millis: v as u32 }),
                None => None,
            }
        },
        _ => None,
    }
}

/// Decodes the quote record at the start of `input`, captured at
/// `packet_time`, and returns the bytes after it with the quote.
pub fn content_parser(input: &[u8], packet_time: TimeOfDay) -> (r: Result<
    (&[u8], QuotePacket),
    DecodeError,
>)
    ensures
        r is Ok <==> record_ok(input@),
        r matches Ok((rest, q)) ==> {
            &&& rest@ == input@.subrange(RECORD_LEN as int, input@.len() as int)
            &&& decodes_to(q, input@, packet_time)
        },
{
    if input.len() < RECORD_LEN {
        return Err(DecodeError);
    }
    let tag_ok = input[0] == 66u8 && input[1] == 54u8 && input[2] == 48u8 && input[3] == 51u8
        && input[4] == 52u8;
    proof {
        assert(tag_ok <==> field(input@, 0, 5) =~= record_tag());
    }
    if !tag_ok {
        return Err(DecodeError);
    }
    let issue = match text_of(&input[5..17]) {
        Some(t) => t,
        None => return Err(DecodeError),
    };
    let bids = match collect_bids(input) {
        Some(b) => b,
        None => return Err(DecodeError),
    };
    let asks = match collect_asks(input) {
        Some(a) => a,
        None => return Err(DecodeError),
    };
    if !number_of_best_parser(input, 161) || !number_of_best_parser(input, 186) {
        return Err(DecodeError);
    }
    let accept_time = match time_parser(input) {
        Some(t) => t,
        None => return Err(DecodeError),
    };
    let rest = &input[RECORD_LEN..input.len()];
    Ok((rest, QuotePacket { issue_code: issue, bids: Bids(bids), asks: Asks(asks), accept_time, packet_time }))
}

} // verus!

use vstd::prelude::*;

verus! {

/// A time of day, as milliseconds since midnight.
#[derive(Clone, Copy, Debug, PartialEq, Eq, Structural, PartialOrd, Ord, Hash)]
pub struct TimeOfDay {
    pub millis: u32,
}

/// One price level on the bid side.
#[derive(Clone, Copy, Debug, PartialEq, Eq, Structural, Hash)]
pub struct Bid {
    pub price: u32,
    pub volume: u32,
}

/// One price level on the ask side.
#[derive(Clone, Copy, Debug, PartialEq, Eq, Structural, Hash)]
pub struct Ask {
    pub price: u32,
    pub volume: u32,
}

/// The bid levels of a quote, best first.
#[derive(Debug)]
pub struct Bids(pub Vec<Bid>);

/// The ask levels of a quote, best first.
#[derive(Debug)]
pub struct Asks(pub Vec<Ask>);

/// A decoded quote together with the time its packet was captured.
///
/// `accept_time` is the business time that decides output order;
/// `packet_time` is the arrival time of the packet that carried it.
#[derive(Debug)]
pub struct QuotePacket {
    pub issue_code: String,
    pub bids: Bids,
    pub asks: Asks,
    pub accept_time: TimeOfDay,
    pub packet_time: TimeOfDay,
}

impl Default for Bid {
    fn default() -> (r: Self)
        ensures
            r.price == 0 && r.volume == 0,
    {
        Bid { price: 0, volume: 0 }
    }
}

impl Default for Ask {
    fn default() -> (r: Self)
        ensures
            r.price == 0 && r.volume == 0,
    {
        Ask { price: 0, volume: 0 }
    }
}

/// Quotes compare by accept time alone.
impl PartialEq for QuotePacket {
    fn eq(&self, other: &QuotePacket) -> (r: bool) {
        self.accept_time.millis == other.accept_time.millis
    }
}

impl vstd::std_specs::cmp::PartialEqSpecImpl for QuotePacket {
    open spec fn obeys_eq_spec() -> bool {
        true
    }

    open spec fn eq_spec(&self, other: &QuotePacket) -> bool {
        self.accept_time.millis == other.accept_time.millis
    }
}

impl Eq for QuotePacket {
}

/// Quotes are ordered by accept time alone.
impl PartialOrd for QuotePacket {
    fn partial_cmp(&self, other: &QuotePacket) -> (r: Option<std::cmp::Ordering>) {
        if self.accept_time.millis < other.accept_time.millis {
            Some(std::cmp::Ordering::Less)
        } else if self.accept_time.millis > other.accept_time.millis {
            Some(std::cmp::Ordering::Greater)
        } else {
            Some(std::cmp::Ordering::Equal)
        }
    }
}

impl vstd::std_specs::cmp::PartialOrdSpecImpl for QuotePacket {
    open spec fn obeys_partial_cmp_spec() -> bool {
        true
    }

    open spec fn partial_cmp_spec(&self, other: &QuotePacket) -> Option<std::cmp::Ordering> {
        if self.accept_time.millis < other.accept_time.millis {
            Some(std::cmp::Ordering::Less)
        } else if self.accept_time.millis > other.accept_time.millis {
            Some(std::cmp::Ordering::Greater)
        } else {
            Some(std::cmp::Ordering::Equal)
        }
    }
}

/// Business key of a quote.
pub open spec fn accept_key(q: QuotePacket) -> int {
    q.accept_time.millis as int
}

/// Arrival key of a quote.
pub open spec fn packet_key(q: QuotePacket) -> int {
    q.packet_time.millis as int
}

/// The business keys of a sequence of quotes, in order.
pub open spec fn accept_keys(s: Seq<QuotePacket>) -> Seq<u32> {
    s.map_values(|q: QuotePacket| q.accept_time.millis)
}

} // verus!

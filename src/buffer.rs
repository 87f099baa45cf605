use vstd::prelude::*;
use vstd::multiset::Multiset;
use vstd::seq_lib::{to_multiset_insert, to_multiset_remove};
use crate::quote::{accept_key, packet_key, QuotePacket, TimeOfDay};

verus! {

broadcast use vstd::seq_lib::group_to_multiset_ensures, vstd::multiset::group_multiset_axioms;

/// Ascending order of times.
pub open spec fn ascending(s: Seq<TimeOfDay>) -> bool {
    forall|i: int, j: int| 0 <= i < j < s.len() ==> s[i].millis <= s[j].millis
}

/// `t` is the smallest time held in `m`.
pub open spec fn is_least_time(m: Multiset<TimeOfDay>, t: TimeOfDay) -> bool {
    m.contains(t) && forall|x: TimeOfDay| m.contains(x) ==> t.millis <= x.millis
}

/// `t` is the largest time held in `m`.
pub open spec fn is_greatest_time(m: Multiset<TimeOfDay>, t: TimeOfDay) -> bool {
    m.contains(t) && forall|x: TimeOfDay| m.contains(x) ==> x.millis <= t.millis
}

/// Inserts `t` into an ascending vector, after the times equal to it.
fn insert_ascending(v: &mut Vec<TimeOfDay>, t: TimeOfDay)
    requires
        ascending(old(v)@),
    ensures
        ascending(final(v)@),
        final(v)@.to_multiset() == old(v)@.to_multiset().insert(t),
{
    let mut i: usize = 0;
    while i < v.len() && v[i].millis <= t.millis
        invariant
            i <= v.len(),
            forall|k: int| 0 <= k < i ==> v@[k].millis <= t.millis,
        decreases v.len() - i,
    {
        i = i + 1;
    }
    proof {
        v@.insert_ensures(i as int, t);
    }
    let ghost before = v@;
    v.insert(i, t);
    proof {
        assert(i < before.len() ==> t.millis < before[i as int].millis);
        assert forall|a: int, b: int| 0 <= a < b < v@.len() implies v@[a].millis <= v@[b].millis by {
            if a < i && b > i {
                assert(before[a].millis <= t.millis);
            } else if a == i && b > i {
                assert(t.millis < before[i as int].millis);
                assert(before[i as int].millis <= before[b - 1].millis);
            }
        }
        to_multiset_insert(before, i as int, t);
    }
}

/// Removes one occurrence of `t` from an ascending vector, if it holds one.
fn remove_one(v: &mut Vec<TimeOfDay>, t: TimeOfDay)
    requires
        ascending(old(v)@),
    ensures
        ascending(final(v)@),
        final(v)@.to_multiset() == old(v)@.to_multiset().remove(t),
{
    let mut i: usize = 0;
    while i < v.len() && v[i] != t
        invariant
            i <= v.len(),
            forall|k: int| 0 <= k < i ==> v@[k] != t,
        decreases v.len() - i,
    {
        i = i + 1;
    }
    if i < v.len() {
        let ghost before = v@;
        v.remove(i);
        assert forall|a: int, b: int| 0 <= a < b < v@.len() implies v@[a].millis <= v@[b].millis by {
            if a >= i {
                assert(before[a + 1].millis <= before[b + 1].millis);
            } else if b >= i {
                assert(before[a].millis <= before[b + 1].millis);
            }
        }
    } else {
        assert(!v@.contains(t));
        assert(v@.to_multiset().remove(t) =~= v@.to_multiset());
    }
}

/// The lowest accept time and the highest packet time over the quotes that
/// are buffered, each kept as an ascending multiset of times.
pub struct AcceptArrivedGap {
    packet: Vec<TimeOfDay>,
    accept: Vec<TimeOfDay>,
}

impl AcceptArrivedGap {
    /// The packet times tracked.
    pub closed spec fn packets(&self) -> Multiset<TimeOfDay> {
        self.packet@.to_multiset()
    }

    /// The accept times tracked.
    pub closed spec fn accepts(&self) -> Multiset<TimeOfDay> {
        self.accept@.to_multiset()
    }

    pub closed spec fn wf(&self) -> bool {
        ascending(self.packet@) && ascending(self.accept@)
    }

    pub fn new() -> (r: Self)
        ensures
            r.wf(),
            r.packets() =~= Multiset::empty(),
            r.accepts() =~= Multiset::empty(),
    {
        AcceptArrivedGap { packet: Vec::new(), accept: Vec::new() }
    }

    /// Records one occurrence of each time.
    pub fn insert(&mut self, packet_value: TimeOfDay, accept_value: TimeOfDay)
        requires
            old(self).wf(),
        ensures
            final(self).wf(),
            final(self).packets() == old(self).packets().insert(packet_value),
            final(self).accepts() == old(self).accepts().insert(accept_value),
    {
        insert_ascending(&mut self.packet, packet_value);
        insert_ascending(&mut self.accept, accept_value);
    }

    /// Removes one occurrence of each time; other equal times stay tracked.
    pub fn remove(&mut self, packet_value: TimeOfDay, accept_value: TimeOfDay)
        requires
            old(self).wf(),
        ensures
            final(self).wf(),
            final(self).packets() == old(self).packets().remove(packet_value),
            final(self).accepts() == old(self).accepts().remove(accept_value),
    {
        remove_one(&mut self.packet, packet_value);
        remove_one(&mut self.accept, accept_value);
    }

    /// The lowest accept time tracked, if any.
    pub fn look_accept(&self) -> (r: Option<TimeOfDay>)
        requires
            self.wf(),
        ensures
            r is None <==> self.accepts().len() == 0,
            r matches Some(t) ==> is_least_time(self.accepts(), t),
    {
        if self.accept.len() == 0 {
            None
        } else {
            let t = self.accept[0];
            assert(self.accept@.contains(t));
            assert forall|x: TimeOfDay| self.accepts().contains(x) implies t.millis <= x.millis by {
                assert(self.accept@.contains(x));
                let k = choose|k: int| 0 <= k < self.accept@.len() && self.accept@[k] == x;
                if k > 0 {
                    assert(self.accept@[0].millis <= self.accept@[k].millis);
                }
            }
            Some(t)
        }
    }

    /// The highest packet time tracked, if any.
    pub fn look_packet(&self) -> (r: Option<TimeOfDay>)
        requires
            self.wf(),
        ensures
            r is None <==> self.packets().len() == 0,
            r matches Some(t) ==> is_greatest_time(self.packets(), t),
    {
        let n = self.packet.len();
        if n == 0 {
            None
        } else {
            let t = self.packet[n - 1];
            assert(self.packet@.contains(t));
            assert forall|x: TimeOfDay| self.packets().contains(x) implies x.millis <= t.millis by {
                assert(self.packet@.contains(x));
                let k = choose|k: int| 0 <= k < self.packet@.len() && self.packet@[k] == x;
                if k < n - 1 {
                    assert(self.packet@[k].millis <= self.packet@[n - 1].millis);
                }
            }
            Some(t)
        }
    }
}

/// `k` is the lowest accept key in `m`.
pub open spec fn is_least_accept(m: Multiset<QuotePacket>, k: int) -> bool {
    &&& exists|q: QuotePacket| m.contains(q) && accept_key(q) == k
    &&& forall|q: QuotePacket| m.contains(q) ==> k <= accept_key(q)
}

/// `k` is the highest packet key in `m`.
pub open spec fn is_greatest_packet(m: Multiset<QuotePacket>, k: int) -> bool {
    &&& exists|q: QuotePacket| m.contains(q) && packet_key(q) == k
    &&& forall|q: QuotePacket| m.contains(q) ==> packet_key(q) <= k
}

/// `d` is the diameter of `m`: its highest packet key minus its lowest accept key.
pub open spec fn is_diameter(m: Multiset<QuotePacket>, d: int) -> bool {
    exists|a: int, p: int| is_least_accept(m, a) && is_greatest_packet(m, p) && d == p - a
}

/// The lowest quote of `m` may leave: `m` is not empty and its diameter
/// exceeds `gap` or is negative.
pub open spec fn release_ok(m: Multiset<QuotePacket>, gap: int) -> bool {
    m.len() > 0 && exists|d: int| is_diameter(m, d) && (d > gap || d < 0)
}

/// A multiset has at most one diameter.
pub proof fn lemma_diameter_unique(m: Multiset<QuotePacket>, d1: int, d2: int)
    requires
        is_diameter(m, d1),
        is_diameter(m, d2),
    ensures
        d1 == d2,
{
    let (a1, p1) = choose|a: int, p: int| is_least_accept(m, a) && is_greatest_packet(m, p) && d1 == p - a;
    let (a2, p2) = choose|a: int, p: int| is_least_accept(m, a) && is_greatest_packet(m, p) && d2 == p - a;
    let qa1 = choose|q: QuotePacket| m.contains(q) && accept_key(q) == a1;
    let qa2 = choose|q: QuotePacket| m.contains(q) && accept_key(q) == a2;
    let qp1 = choose|q: QuotePacket| m.contains(q) && packet_key(q) == p1;
    let qp2 = choose|q: QuotePacket| m.contains(q) && packet_key(q) == p2;
    assert(a1 <= accept_key(qa2) && a2 <= accept_key(qa1));
    assert(packet_key(qp2) <= p1 && packet_key(qp1) <= p2);
}

/// A buffer whose diameter is negative may release its lowest quote,
/// whatever the gap.
pub proof fn lemma_escape_valve(m: Multiset<QuotePacket>, d: int, gap: int)
    requires
        m.len() > 0,
        is_diameter(m, d),
        d < 0,
    ensures
        release_ok(m, gap),
{
}

/// A buffer whose diameter exceeds the gap may release its lowest quote.
pub proof fn lemma_latency_bound(m: Multiset<QuotePacket>, d: int, gap: int)
    requires
        m.len() > 0,
        is_diameter(m, d),
        d > gap,
    ensures
        release_ok(m, gap),
{
}

/// Tracking a time twice and removing it once leaves one more occurrence of
/// it than there was before: equal times are counted, not merged.
pub proof fn lemma_duplicate_survives(m: Multiset<TimeOfDay>, t: TimeOfDay)
    ensures
        m.insert(t).insert(t).remove(t).count(t) == m.count(t) + 1,
        m.insert(t).insert(t).remove(t).contains(t),
{
}

/// Accept times of a sequence of quotes.
pub open spec fn accept_times(s: Seq<QuotePacket>) -> Seq<TimeOfDay> {
    s.map_values(|q: QuotePacket| q.accept_time)
}

/// Packet times of a sequence of quotes.
pub open spec fn packet_times(s: Seq<QuotePacket>) -> Seq<TimeOfDay> {
    s.map_values(|q: QuotePacket| q.packet_time)
}

/// A priority collection of quotes ordered by accept time, paired with the
/// tracker of its lowest accept time and highest packet time.
pub struct Buffer {
    // descending by accept time, so that the lowest is last
    queue: Vec<QuotePacket>,
    timestamps: AcceptArrivedGap,
}

impl Buffer {
    /// The quotes buffered.
    pub closed spec fn quotes(&self) -> Multiset<QuotePacket> {
        self.queue@.to_multiset()
    }

    pub closed spec fn wf(&self) -> bool {
        &&& forall|i: int, j: int|
            0 <= i < j < self.queue@.len() ==> accept_key(self.queue@[j]) <= accept_key(
                self.queue@[i],
            )
        &&& self.timestamps.wf()
        &&& self.timestamps.accepts() == accept_times(self.queue@).to_multiset()
        &&& self.timestamps.packets() == packet_times(self.queue@).to_multiset()
    }

    pub fn new() -> (r: Self)
        ensures
            r.wf(),
            r.quotes() =~= Multiset::empty(),
    {
        let r = Buffer { queue: Vec::new(), timestamps: AcceptArrivedGap::new() };
        assert(accept_times(r.queue@) =~= Seq::empty());
        assert(packet_times(r.queue@) =~= Seq::empty());
        assert(accept_times(r.queue@).to_multiset() =~= Multiset::empty());
        assert(packet_times(r.queue@).to_multiset() =~= Multiset::empty());
        r
    }

    /// Adds a quote.
    pub fn insert(&mut self, quote: QuotePacket)
        requires
            old(self).wf(),
        ensures
            final(self).wf(),
            final(self).quotes() == old(self).quotes().insert(quote),
    {
        self.timestamps.insert(quote.packet_time, quote.accept_time);
        let mut i: usize = 0;
        while i < self.queue.len() && self.queue[i].accept_time.millis > quote.accept_time.millis
            invariant
                i <= self.queue.len(),
                forall|k: int| 0 <= k < i ==> accept_key(quote) < accept_key(self.queue@[k]),
            decreases self.queue.len() - i,
        {
            i = i + 1;
        }
        let ghost before = self.queue@;
        let ghost t = quote;
        proof {
            before.insert_ensures(i as int, t);
        }
        self.queue.insert(i, quote);
        proof {
            let after = self.queue@;
            assert forall|a: int, b: int| 0 <= a < b < after.len() implies accept_key(after[b])
                <= accept_key(after[a]) by {
                if a < i && b > i {
                    assert(accept_key(before[b - 1]) <= accept_key(before[a]));
                } else if a == i && b > i {
                    assert(i < before.len());
                    assert(accept_key(before[b - 1]) <= accept_key(before[i as int]));
                }
            }
            to_multiset_insert(before, i as int, t);
            let ba = accept_times(before);
            let bp = packet_times(before);
            ba.insert_ensures(i as int, t.accept_time);
            bp.insert_ensures(i as int, t.packet_time);
            assert(accept_times(after) =~= ba.insert(i as int, t.accept_time));
            assert(packet_times(after) =~= bp.insert(i as int, t.packet_time));
            to_multiset_insert(ba, i as int, t.accept_time);
            to_multiset_insert(bp, i as int, t.packet_time);
        }
    }

    /// Removes and returns a quote of lowest accept time.
    pub fn pop(&mut self) -> (r: Option<QuotePacket>)
        requires
            old(self).wf(),
        ensures
            final(self).wf(),
            r is None <==> old(self).quotes().len() == 0,
            r is None ==> final(self).quotes() == old(self).quotes(),
            r matches Some(q) ==> {
                &&& old(self).quotes().contains(q)
                &&& forall|x: QuotePacket| old(self).quotes().contains(x) ==> accept_key(q) <= accept_key(x)
                &&& final(self).quotes() == old(self).quotes().remove(q)
            },
    {
        let ghost before = self.queue@;
        let quote = self.queue.pop();
        match quote {
            Some(q) => {
                proof {
                    let n = before.len() - 1;
                    assert(before.remove(n) =~= self.queue@);
                    to_multiset_remove(before, n);
                    assert(before.contains(before[n]));
                    assert forall|x: QuotePacket| #[trigger] before.to_multiset().contains(x) implies accept_key(q) <= accept_key(x) by {
                        assert(before.contains(x));
                        let k = choose|k: int| 0 <= k < before.len() && before[k] == x;
                        if k < n {
                            assert(accept_key(before[n]) <= accept_key(before[k]));
                        }
                    }
                    let ba = accept_times(before);
                    let bp = packet_times(before);
                    assert(ba.remove(n) =~= accept_times(self.queue@));
                    assert(bp.remove(n) =~= packet_times(self.queue@));
                    to_multiset_remove(ba, n);
                    to_multiset_remove(bp, n);
                }
                self.timestamps.remove(q.packet_time, q.accept_time);
                Some(q)
            },
            None => None,
        }
    }

    /// The highest packet time minus the lowest accept time, in milliseconds,
    /// over the quotes buffered; `None` when the buffer is empty.
    pub fn diameter(&self) -> (r: Option<i64>)
        requires
            self.wf(),
        ensures
            r is None <==> self.quotes().len() == 0,
            r matches Some(d) ==> is_diameter(self.quotes(), d as int),
    {
        let packet_time = self.timestamps.look_packet();
        let accept_time = self.timestamps.look_accept();
        proof {
            let ba = accept_times(self.queue@);
            let bp = packet_times(self.queue@);
            assert(ba.len() == self.queue@.len() && bp.len() == self.queue@.len());
        }
        match (packet_time, accept_time) {
            (Some(p), Some(a)) => {
                proof {
                    let s = self.queue@;
                    let ba = accept_times(s);
                    let bp = packet_times(s);
                    assert(ba.contains(a));
                    let ka = choose|k: int| 0 <= k < ba.len() && ba[k] == a;
                    assert(s.contains(s[ka]));
                    assert(bp.contains(p));
                    let kp = choose|k: int| 0 <= k < bp.len() && bp[k] == p;
                    assert(s.contains(s[kp]));
                    assert forall|q: QuotePacket| self.quotes().contains(q) implies a.millis <= accept_key(q)
                        && packet_key(q) <= p.millis by {
                        assert(s.contains(q));
                        let k = choose|k: int| 0 <= k < s.len() && s[k] == q;
                        assert(ba[k] == q.accept_time);
                        assert(ba.contains(q.accept_time));
                        assert(bp[k] == q.packet_time);
                        assert(bp.contains(q.packet_time));
                        assert(self.timestamps.accepts().contains(q.accept_time));
                        assert(self.timestamps.packets().contains(q.packet_time));
                    }
                    assert(self.quotes().contains(s[ka]));
                    assert(self.quotes().contains(s[kp]));
                    assert(is_least_accept(self.quotes(), a.millis as int));
                    assert(is_greatest_packet(self.quotes(), p.millis as int));
                }
                Some(p.millis as i64 - a.millis as i64)
            },
            _ => None,
        }
    }

    /// Whether the quote of lowest accept time may be released: the buffer
    /// is not empty and its diameter exceeds `accept_gap` milliseconds or is
    /// negative.
    pub fn check_invariant(&self, accept_gap: i64) -> (r: bool)
        requires
            self.wf(),
        ensures
            r == release_ok(self.quotes(), accept_gap as int),
    {
        match self.diameter() {
            Some(d) => {
                let r = d > accept_gap || d < 0;
                proof {
                    if release_ok(self.quotes(), accept_gap as int) {
                        let d2 = choose|d2: int| is_diameter(self.quotes(), d2) && (d2 > accept_gap || d2 < 0);
                        lemma_diameter_unique(self.quotes(), d as int, d2);
                    }
                }
                r
            },
            None => false,
        }
    }
}

} // verus!

use vstd::prelude::*;
use vstd::multiset::{lemma_multiset_empty_len, Multiset};
use vstd::relations::{sorted_by, total_ordering};
use vstd::seq_lib::{lemma_sorted_unique, to_multiset_remove};
use crate::buffer::{is_diameter, is_greatest_packet, is_least_accept, release_ok, Buffer};
use crate::parser::{content_parser, decodes_to, record_ok};
use crate::quote::{accept_key, accept_keys, packet_key, QuotePacket, TimeOfDay};

verus! {

broadcast use vstd::seq_lib::group_to_multiset_ensures, vstd::multiset::group_multiset_axioms;

/// Accept gap, in milliseconds, that the capture feed is held to.
pub const ACCEPT_GAP: i64 = 3000;

/// `x` is a quote of lowest accept key in `m`.
pub open spec fn is_least_quote(m: Multiset<QuotePacket>, x: QuotePacket) -> bool {
    m.contains(x) && forall|y: QuotePacket| m.contains(y) ==> accept_key(x) <= accept_key(y)
}

/// When `go` holds, one quote of lowest accept key leaves `before` and is
/// returned; otherwise nothing is returned and nothing changes.
pub open spec fn releases(
    before: Multiset<QuotePacket>,
    after: Multiset<QuotePacket>,
    r: Option<QuotePacket>,
    go: bool,
) -> bool {
    if go {
        r matches Some(x) && is_least_quote(before, x) && after == before.remove(x)
    } else {
        r is None && after == before
    }
}

/// What handing the decoded quote `q` to a merge does: in passthrough mode
/// it comes straight back; when reordering it is buffered and the release
/// check runs once.
pub open spec fn admits(
    reorder: bool,
    gap: int,
    before: Multiset<QuotePacket>,
    q: QuotePacket,
    after: Multiset<QuotePacket>,
    r: Option<QuotePacket>,
) -> bool {
    if reorder {
        releases(before.insert(q), after, r, release_ok(before.insert(q), gap))
    } else {
        r == Some(q) && after == before
    }
}

/// The bytes of `s` from offset `k` on.
pub open spec fn tail(s: Seq<u8>, k: int) -> Seq<u8> {
    s.subrange(k, s.len() as int)
}

/// `k` is the first offset of `s` at which a quote record starts.
pub open spec fn first_record(s: Seq<u8>, k: int) -> bool {
    &&& 0 <= k < s.len()
    &&& record_ok(tail(s, k))
    &&& forall|j: int| 0 <= j < k ==> !#[trigger] record_ok(tail(s, j))
}

/// Some offset of `s` starts a quote record.
pub open spec fn holds_record(s: Seq<u8>) -> bool {
    exists|k: int| 0 <= k < s.len() && #[trigger] record_ok(tail(s, k))
}

/// Decodes the first quote record found in a captured packet, trying each
/// byte offset in turn.
pub fn decode_record(data: &[u8], packet_time: TimeOfDay) -> (r: Option<QuotePacket>)
    ensures
        r is Some <==> holds_record(data@),
        r matches Some(q) ==> exists|k: int|
            first_record(data@, k) && decodes_to(q, #[trigger] tail(data@, k), packet_time),
{
    let n = data.len();
    let mut start: usize = 0;
    while start < n
        invariant
            start <= n,
            n == data@.len(),
            forall|j: int| 0 <= j < start ==> !#[trigger] record_ok(tail(data@, j)),
        decreases n - start,
    {
        let slice = &data[start..n];
        assert(slice@ == tail(data@, start as int));
        match content_parser(slice, packet_time) {
            Ok((_rest, quote)) => {
                assert(first_record(data@, start as int));
                return Some(quote);
            },
            Err(_) => {},
        }
        start = start + 1;
    }
    None
}

/// The decisions of the ordered quote stream: what to hand downstream on
/// each pull, given the records that the capture source supplies.
pub struct QuoteMerge {
    reorder: bool,
    accept_gap: i64,
    buffer: Buffer,
}

impl QuoteMerge {
    pub closed spec fn wf(&self) -> bool {
        self.buffer.wf()
    }

    /// The quotes buffered.
    pub closed spec fn quotes(&self) -> Multiset<QuotePacket> {
        self.buffer.quotes()
    }

    pub closed spec fn reorders(&self) -> bool {
        self.reorder
    }

    pub closed spec fn gap(&self) -> int {
        self.accept_gap as int
    }

    /// A merge with an empty buffer; `accept_gap` is in milliseconds.
    pub fn new(reorder: bool, accept_gap: i64) -> (r: Self)
        ensures
            r.wf(),
            r.quotes() =~= Multiset::empty(),
            r.reorders() == reorder,
            r.gap() == accept_gap,
    {
        QuoteMerge { reorder, accept_gap, buffer: Buffer::new() }
    }

    /// The first step of a pull: when reordering and the buffer's lowest
    /// quote is safe to release, it is returned without reading more input.
    pub fn poll(&mut self) -> (r: Option<QuotePacket>)
        requires
            old(self).wf(),
        ensures
            final(self).wf(),
            final(self).reorders() == old(self).reorders(),
            final(self).gap() == old(self).gap(),
            releases(
                old(self).quotes(),
                final(self).quotes(),
                r,
                old(self).reorders() && release_ok(old(self).quotes(), old(self).gap()),
            ),
    {
        if self.reorder && self.buffer.check_invariant(self.accept_gap) {
            self.buffer.pop()
        } else {
            None
        }
    }

    /// Hands a decoded quote to the merge.
    pub fn push_quote(&mut self, quote: QuotePacket) -> (r: Option<QuotePacket>)
        requires
            old(self).wf(),
        ensures
            final(self).wf(),
            final(self).reorders() == old(self).reorders(),
            final(self).gap() == old(self).gap(),
            admits(
                old(self).reorders(),
                old(self).gap(),
                old(self).quotes(),
                quote,
                final(self).quotes(),
                r,
            ),
    {
        if self.reorder {
            self.buffer.insert(quote);
            self.poll()
        } else {
            Some(quote)
        }
    }

    /// Hands a captured packet to the merge: the first quote record found in
    /// it, if any, is decoded and admitted.
    pub fn feed(&mut self, data: &[u8], packet_time: TimeOfDay) -> (r: Option<QuotePacket>)
        requires
            old(self).wf(),
        ensures
            final(self).wf(),
            final(self).reorders() == old(self).reorders(),
            final(self).gap() == old(self).gap(),
            !holds_record(data@) ==> r is None && final(self).quotes() == old(self).quotes(),
            holds_record(data@) ==> exists|k: int, q: QuotePacket|
                first_record(data@, k) && #[trigger] decodes_to(q, tail(data@, k), packet_time)
                    && admits(
                    old(self).reorders(),
                    old(self).gap(),
                    old(self).quotes(),
                    q,
                    final(self).quotes(),
                    r,
                ),
    {
        match decode_record(data, packet_time) {
            Some(quote) => {
                let ghost q = quote;
                let r = self.push_quote(quote);
                assert(exists|k: int| first_record(data@, k) && decodes_to(q, #[trigger] tail(data@, k), packet_time));
                r
            },
            None => None,
        }
    }

    /// A pull once the capture source is exhausted: when reordering, the
    /// buffered quotes leave lowest first, one per pull.
    pub fn finish(&mut self) -> (r: Option<QuotePacket>)
        requires
            old(self).wf(),
        ensures
            final(self).wf(),
            final(self).reorders() == old(self).reorders(),
            final(self).gap() == old(self).gap(),
            releases(
                old(self).quotes(),
                final(self).quotes(),
                r,
                old(self).reorders() && old(self).quotes().len() > 0,
            ),
    {
        if self.reorder {
            self.buffer.pop()
        } else {
            None
        }
    }
}

/// Every quote of `s` has a packet key no lower than its accept key and at
/// most `gap` above it, and packet keys never decrease along `s`.
pub open spec fn bounded_skew(s: Seq<QuotePacket>, gap: int) -> bool {
    &&& forall|i: int|
        0 <= i < s.len() ==> accept_key(#[trigger] s[i]) <= packet_key(s[i]) <= accept_key(s[i])
            + gap
    &&& forall|i: int, j: int|
        0 <= i < j < s.len() ==> packet_key(#[trigger] s[i]) <= packet_key(#[trigger] s[j])
}

/// Ascending order on keys.
pub open spec fn key_leq() -> spec_fn(u32, u32) -> bool {
    |a: u32, b: u32| a <= b
}

proof fn lemma_key_leq_total()
    ensures
        total_ordering(key_leq()),
{
}

/// Quotes that hold the same multiset hold the same multiset of accept keys.
proof fn lemma_keys_multiset(s1: Seq<QuotePacket>, s2: Seq<QuotePacket>)
    requires
        s1.to_multiset() == s2.to_multiset(),
    ensures
        accept_keys(s1).to_multiset() == accept_keys(s2).to_multiset(),
    decreases s1.len(),
{
    if s1.len() == 0 {
        assert(s1.to_multiset().len() == 0);
        assert(s2.to_multiset().len() == s2.len());
        assert(accept_keys(s1) =~= accept_keys(s2));
    } else {
        let n = s1.len() - 1;
        let x = s1[n];
        assert(s1.contains(x));
        assert(s2.to_multiset().contains(x));
        assert(s2.contains(x));
        let k = choose|k: int| 0 <= k < s2.len() && s2[k] == x;
        to_multiset_remove(s1, n);
        to_multiset_remove(s2, k);
        lemma_keys_multiset(s1.remove(n), s2.remove(k));
        let k1 = accept_keys(s1);
        let k2 = accept_keys(s2);
        assert(accept_keys(s1.remove(n)) =~= k1.remove(n));
        assert(accept_keys(s2.remove(k)) =~= k2.remove(k));
        to_multiset_remove(k1, n);
        to_multiset_remove(k2, k);
        assert(k1.contains(k1[n]));
        assert(k2.contains(k2[k]));
        assert(k1.to_multiset() =~= k1.to_multiset().remove(k1[n]).insert(k1[n]));
        assert(k2.to_multiset() =~= k2.to_multiset().remove(k2[k]).insert(k2[k]));
    }
}

/// The order kept by a merge run under bounded skew: `out` is sorted, no
/// quote of it lies above one still buffered in `m`, and none lies at or
/// above one of the quotes of `input` from `i` on.
pub open spec fn run_ordered(input: Seq<QuotePacket>, i: int, m: Multiset<QuotePacket>, out: Seq<QuotePacket>) -> bool {
    &&& forall|a: int, b: int| 0 <= a < b < out.len() ==> accept_key(out[a]) <= accept_key(out[b])
    &&& forall|a: int, q: QuotePacket|
        0 <= a < out.len() && m.contains(q) ==> accept_key(out[a]) <= accept_key(q)
    &&& forall|a: int, j: int|
        0 <= a < out.len() && i <= j < input.len() ==> accept_key(#[trigger] out[a]) < accept_key(#[trigger] input[j])
}

/// A quote released by the check keeps a run ordered: its key is at least
/// every key already handed out, and under bounded skew every quote still to
/// be read has a higher key.
proof fn lemma_release_sound(
    input: Seq<QuotePacket>,
    i: int,
    gap: int,
    m: Multiset<QuotePacket>,
    out_before: Seq<QuotePacket>,
    out: Seq<QuotePacket>,
)
    requires
        0 <= i <= input.len(),
        out_before.to_multiset().add(m) == input.subrange(0, i).to_multiset(),
        release_ok(m, gap),
        out.len() == out_before.len() + 1,
        out.drop_last() == out_before,
        is_least_quote(m, out.last()),
        bounded_skew(input, gap) ==> run_ordered(input, i, m, out_before),
    ensures
        out.to_multiset().add(m.remove(out.last())) == input.subrange(0, i).to_multiset(),
        bounded_skew(input, gap) ==> run_ordered(input, i, m.remove(out.last()), out),
{
    let x = out.last();
    assert(out =~= out_before.push(x));
    assert(out.to_multiset().add(m.remove(x)) =~= out_before.to_multiset().add(m));
    if bounded_skew(input, gap) {
        let pre = input.subrange(0, i);
        assert forall|y: QuotePacket| m.contains(y) implies exists|k: int| 0 <= k < i && input[k] == y by {
            assert(pre.to_multiset().contains(y));
            assert(pre.contains(y));
            let k = choose|k: int| 0 <= k < pre.len() && pre[k] == y;
            assert(input[k] == pre[k]);
        }
        let d = choose|d: int| is_diameter(m, d) && (d > gap || d < 0);
        let (a, p) = choose|a: int, p: int| is_least_accept(m, a) && is_greatest_packet(m, p) && d == p - a;
        let qa = choose|q: QuotePacket| m.contains(q) && accept_key(q) == a;
        let qp = choose|q: QuotePacket| m.contains(q) && packet_key(q) == p;
        assert(accept_key(x) == a);
        let kx = choose|k: int| 0 <= k < i && input[k] == x;
        assert(accept_key(input[kx]) <= packet_key(input[kx]));
        assert(packet_key(x) <= p);
        assert(d > gap);
        let kp = choose|k: int| 0 <= k < i && input[k] == qp;
        assert forall|j: int| i <= j < input.len() implies accept_key(x) < accept_key(#[trigger] input[j]) by {
            assert(packet_key(input[kp]) <= packet_key(input[j]));
            assert(packet_key(input[j]) <= accept_key(input[j]) + gap);
        }
        lemma_pop_least_ordered(input, i, m, out_before, out);
    }
}

/// Appending the lowest buffered quote keeps a run ordered, given that the
/// quotes still to be read lie above it.
proof fn lemma_pop_least_ordered(
    input: Seq<QuotePacket>,
    i: int,
    m: Multiset<QuotePacket>,
    out_before: Seq<QuotePacket>,
    out: Seq<QuotePacket>,
)
    requires
        out.len() == out_before.len() + 1,
        out.drop_last() == out_before,
        is_least_quote(m, out.last()),
        run_ordered(input, i, m, out_before),
        forall|j: int| i <= j < input.len() ==> accept_key(out.last()) < accept_key(#[trigger] input[j]),
    ensures
        run_ordered(input, i, m.remove(out.last()), out),
{
    let x = out.last();
    let rest = m.remove(x);
    assert forall|q: QuotePacket| rest.contains(q) implies m.contains(q) by {}
    assert forall|a1: int, b1: int| 0 <= a1 < b1 < out.len() implies accept_key(out[a1]) <= accept_key(out[b1]) by {
        if b1 < out.len() - 1 {
            assert(out[a1] == out_before[a1] && out[b1] == out_before[b1]);
        } else {
            assert(out[a1] == out_before[a1]);
        }
    }
    assert forall|a1: int, q: QuotePacket| 0 <= a1 < out.len() && rest.contains(q) implies accept_key(out[a1]) <= accept_key(q) by {
        if a1 < out.len() - 1 {
            assert(out[a1] == out_before[a1]);
        }
    }
    assert forall|a1: int, j: int| 0 <= a1 < out.len() && i <= j < input.len() implies accept_key(#[trigger] out[a1]) < accept_key(#[trigger] input[j]) by {
        if a1 < out.len() - 1 {
            assert(out[a1] == out_before[a1]);
        }
    }
}

/// Runs `quotes`, taken as decoded in capture order, through a merge pulled
/// to exhaustion, and returns what it hands downstream.
///
/// Passthrough hands the quotes back as they came. Reordering hands each
/// quote back exactly once, the ones still buffered at the end included;
/// and when the feed keeps to a bounded skew of `accept_gap` milliseconds,
/// the accept keys come out as the input's accept keys sorted ascending.
pub fn order_quotes(quotes: Vec<QuotePacket>, reorder: bool, accept_gap: i64) -> (out: Vec<QuotePacket>)
    ensures
        !reorder ==> out@ == quotes@,
        out@.to_multiset() == quotes@.to_multiset(),
        reorder && bounded_skew(quotes@, accept_gap as int) ==> accept_keys(out@) == accept_keys(
            quotes@,
        ).sort_by(key_leq()),
{
    let ghost input = quotes@;
    let ghost n = input.len();
    let ghost gap = accept_gap as int;
    let ghost skew = bounded_skew(input, gap);
    let mut pending = quotes;
    let mut merge = QuoteMerge::new(reorder, accept_gap);
    let mut out: Vec<QuotePacket> = Vec::new();
    let ghost mut i: int = 0;
    while pending.len() > 0
        invariant
            0 <= i <= n,
            n == input.len(),
            pending@ == input.subrange(i, n as int),
            merge.wf(),
            merge.reorders() == reorder,
            merge.gap() == gap,
            gap == accept_gap as int,
            skew == bounded_skew(input, gap),
            out@.to_multiset().add(merge.quotes()) == input.subrange(0, i).to_multiset(),
            !reorder ==> out@ == input.subrange(0, i) && merge.quotes().len() == 0,
            reorder && skew ==> run_ordered(input, i, merge.quotes(), out@),
        decreases pending.len(),
    {
        let quote = pending.remove(0);
        let ghost q = quote;
        let ghost before = merge.quotes();
        let ghost out_before = out@;
        assert(q == input[i]);
        match merge.push_quote(quote) {
            Some(x) => {
                out.push(x);
            },
            None => {},
        }
        proof {
            assert(input.subrange(0, i + 1) =~= input.subrange(0, i).push(q));
            assert(pending@ =~= input.subrange(i + 1, n as int));
            if reorder {
                let m = before.insert(q);
                assert(out_before.to_multiset().add(m) =~= out_before.to_multiset().add(before).insert(q));
                if skew {
                    assert(run_ordered(input, i + 1, m, out_before)) by {
                        assert forall|a: int, y: QuotePacket| 0 <= a < out_before.len() && m.contains(y) implies accept_key(out_before[a]) <= accept_key(y) by {
                            if y == q {
                                assert(accept_key(out_before[a]) < accept_key(input[i]));
                            } else {
                                assert(before.contains(y));
                            }
                        }
                    }
                }
                if release_ok(m, gap) {
                    assert(out@.drop_last() =~= out_before);
                    lemma_release_sound(input, i + 1, gap, m, out_before, out@);
                }
                assert(out@.to_multiset().add(merge.quotes()) =~= input.subrange(0, i + 1).to_multiset());
            } else {
                assert(out@ =~= input.subrange(0, i + 1));
            }
            i = i + 1;
        }
        loop
            invariant
                0 <= i <= n,
                n == input.len(),
                merge.wf(),
                merge.reorders() == reorder,
                merge.gap() == gap,
                gap == accept_gap as int,
                skew == bounded_skew(input, gap),
                out@.to_multiset().add(merge.quotes()) == input.subrange(0, i).to_multiset(),
                !reorder ==> out@ == input.subrange(0, i) && merge.quotes().len() == 0,
                reorder && skew ==> run_ordered(input, i, merge.quotes(), out@),
            decreases merge.quotes().len(),
        {
            let ghost before = merge.quotes();
            let ghost out_before = out@;
            match merge.poll() {
                Some(x) => {
                    out.push(x);
                    proof {
                        assert(out@.drop_last() =~= out_before);
                        lemma_release_sound(input, i, gap, before, out_before, out@);
                    }
                },
                None => break,
            }
        }
    }
    proof {
        assert(input.subrange(0, n as int) =~= input);
    }
    loop
        invariant
            n == input.len(),
            merge.wf(),
            merge.reorders() == reorder,
            skew == bounded_skew(input, gap),
            out@.to_multiset().add(merge.quotes()) == input.to_multiset(),
            !reorder ==> out@ == input && merge.quotes().len() == 0,
            reorder && skew ==> run_ordered(input, n as int, merge.quotes(), out@),
        ensures
            merge.quotes().len() == 0,
            out@.to_multiset().add(merge.quotes()) == input.to_multiset(),
            !reorder ==> out@ == input,
            reorder && skew ==> run_ordered(input, n as int, merge.quotes(), out@),
        decreases merge.quotes().len(),
    {
        let ghost before = merge.quotes();
        let ghost out_before = out@;
        match merge.finish() {
            Some(x) => {
                out.push(x);
                proof {
                    assert(out@.drop_last() =~= out_before);
                    assert(out@ =~= out_before.push(x));
                    assert(out@.to_multiset().add(merge.quotes()) =~= out_before.to_multiset().add(before));
                    if reorder && skew {
                        lemma_pop_least_ordered(input, n as int, before, out_before, out@);
                    }
                }
            },
            None => break,
        }
    }
    proof {
        lemma_multiset_empty_len(merge.quotes());
        assert(out@.to_multiset().add(merge.quotes()) =~= out@.to_multiset());
        if reorder && skew {
            let ko = accept_keys(out@);
            let ki = accept_keys(input);
            lemma_key_leq_total();
            lemma_keys_multiset(out@, input);
            ki.lemma_sort_by_ensures(key_leq());
            assert(sorted_by(ko, key_leq()));
            lemma_sorted_unique(ko, ki.sort_by(key_leq()), key_leq());
        }
    }
    out
}

} // verus!

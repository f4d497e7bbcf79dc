//! The UDP dispatcher's subscriber directory: registration, per-quote
//! fan-out selection, keepalive observation, and eviction.
//!
//! The directory tracks, per subscriber, the sequence of quotes routed
//! to it since its registration. The directory invariant says that
//! this sequence is exactly the dispatcher's quote history since the
//! registration point, filtered by the subscriber's ticker set — so
//! per-subscriber delivery order equals generation order, and one
//! processed quote is routed to a subscriber at most once.

use vstd::prelude::*;

use crate::net::SocketAddress;
use crate::protocol::StreamRequest;
use crate::quote::{QuoteModel, StockQuote};
use crate::text::str_eq;

verus! {

/// Commands sent to the UDP dispatcher.
#[derive(Debug)]
pub enum UdpCommand {
    /// Add a new client to receive filtered quotes.
    AddClient(StreamRequest),
    /// Shutdown the dispatcher and terminate all client workers.
    Shutdown,
}

/// One registered client.
pub struct Subscriber {
    /// Process-unique, monotonically increasing identifier.
    pub id: u64,
    /// The tickers this client asked for.
    pub tickers: Vec<String>,
    /// Where this client receives datagrams.
    pub udp_addr: SocketAddress,
    /// Monotonic milliseconds of the last keepalive observed.
    pub last_ping_ms: u64,
    /// The keepalive window.
    pub timeout_ms: u64,
    /// History index at which this subscriber was registered.
    pub started_at: Ghost<nat>,
    /// The quotes routed to this subscriber, in order.
    pub delivered: Ghost<Seq<QuoteModel>>,
}

/// `t` occurs in the ticker list `ts`.
pub open spec fn ticker_listed(ts: Seq<Seq<char>>, t: Seq<char>) -> bool {
    exists|i: int| 0 <= i < ts.len() && ts[i] == t
}

/// The quotes a subscriber wants.
pub open spec fn sub_pred(s: Subscriber) -> spec_fn(QuoteModel) -> bool {
    |q: QuoteModel| ticker_listed(s.tickers.deep_view(), q.ticker)
}

/// A subscriber whose keepalive window has passed.
pub open spec fn expired(s: Subscriber, now_ms: u64) -> bool {
    now_ms > s.last_ping_ms + s.timeout_ms
}

/// A subscriber with one more quote routed to it when the ticker
/// matches, unchanged otherwise.
pub open spec fn route_quote(s: Subscriber, q: QuoteModel) -> Subscriber {
    if ticker_listed(s.tickers.deep_view(), q.ticker) {
        Subscriber { delivered: Ghost(s.delivered@.push(q)), ..s }
    } else {
        s
    }
}

/// The ids of the subscribers whose ticker set holds `t`, in
/// directory order.
pub open spec fn matching_ids(subs: Seq<Subscriber>, t: Seq<char>) -> Seq<u64>
    decreases subs.len(),
{
    if subs.len() == 0 {
        Seq::empty()
    } else {
        matching_ids(subs.drop_last(), t) + (if ticker_listed(
            subs.last().tickers.deep_view(),
            t,
        ) {
            seq![subs.last().id]
        } else {
            Seq::empty()
        })
    }
}

/// First directory index of a subscriber at `a`, or the length.
pub open spec fn find_by_addr(subs: Seq<Subscriber>, a: SocketAddress, from: int) -> int
    decreases subs.len() - from,
{
    if from < 0 || from >= subs.len() {
        subs.len() as int
    } else if subs[from].udp_addr == a {
        from
    } else {
        find_by_addr(subs, a, from + 1)
    }
}

pub proof fn lemma_find_by_addr(subs: Seq<Subscriber>, a: SocketAddress, from: int)
    requires
        0 <= from <= subs.len(),
    ensures
        from <= find_by_addr(subs, a, from) <= subs.len(),
        find_by_addr(subs, a, from) < subs.len() ==> subs[find_by_addr(subs, a, from)].udp_addr
            == a,
        forall|j: int| from <= j < find_by_addr(subs, a, from) ==> subs[j].udp_addr != a,
    decreases subs.len() - from,
{
    if from < subs.len() && subs[from].udp_addr != a {
        lemma_find_by_addr(subs, a, from + 1);
    }
}

/// The four keepalive bytes.
pub open spec fn ping_payload() -> Seq<u8> {
    seq![80u8, 73u8, 78u8, 71u8]
}

/// The subscriber directory. Only the dispatcher task touches it.
pub struct Dispatcher {
    pub subscribers: Vec<Subscriber>,
    pub next_id: u64,
    pub keepalive_timeout_ms: u64,
    /// Every quote processed for fan-out so far, in order.
    pub history: Ghost<Seq<QuoteModel>>,
}

impl Dispatcher {
    /// The directory invariant: fresh unique ids; per-subscriber, the
    /// routed quotes are exactly the history since registration,
    /// filtered by the subscriber's tickers; one shared keepalive
    /// window.
    pub open spec fn wf(self) -> bool {
        &&& forall|i: int|
            0 <= i < self.subscribers@.len() ==> (#[trigger] self.subscribers@[i]).id
                < self.next_id
        &&& forall|i: int, j: int|
            0 <= i < j < self.subscribers@.len() ==> self.subscribers@[i].id
                != self.subscribers@[j].id
        &&& forall|i: int|
            0 <= i < self.subscribers@.len() ==> (#[trigger] self.subscribers@[i]).started_at@
                <= self.history@.len()
        &&& forall|i: int|
            0 <= i < self.subscribers@.len() ==> (#[trigger] self.subscribers@[i]).delivered@
                == self.history@.skip(self.subscribers@[i].started_at@ as int).filter(
                sub_pred(self.subscribers@[i]),
            )
        &&& forall|i: int|
            0 <= i < self.subscribers@.len() ==> (#[trigger] self.subscribers@[i]).timeout_ms
                == self.keepalive_timeout_ms
    }

    /// An empty directory.
    pub fn new(keepalive_timeout_ms: u64) -> (r: Dispatcher)
        ensures
            r.wf(),
            r.subscribers@.len() == 0,
            r.next_id == 0,
            r.keepalive_timeout_ms == keepalive_timeout_ms,
            r.history@ == Seq::<QuoteModel>::empty(),
    {
        Dispatcher {
            subscribers: Vec::new(),
            next_id: 0,
            keepalive_timeout_ms,
            history: Ghost(Seq::empty()),
        }
    }

    /// Registers a client: the next id is assigned and the subscriber
    /// enters the directory with a full keepalive window from `now_ms`.
    pub fn register(&mut self, request: StreamRequest, now_ms: u64) -> (id: u64)
        requires
            old(self).wf(),
            old(self).next_id < u64::MAX,
        ensures
            final(self).wf(),
            id == old(self).next_id,
            final(self).next_id == old(self).next_id + 1,
            final(self).keepalive_timeout_ms == old(self).keepalive_timeout_ms,
            final(self).history@ == old(self).history@,
            final(self).subscribers@.len() == old(self).subscribers@.len() + 1,
            forall|i: int|
                0 <= i < old(self).subscribers@.len() ==> final(self).subscribers@[i] == old(
                    self,
                ).subscribers@[i],
            final(self).subscribers@.last() == (Subscriber {
                id,
                tickers: request.tickers,
                udp_addr: request.udp_addr,
                last_ping_ms: now_ms,
                timeout_ms: old(self).keepalive_timeout_ms,
                started_at: Ghost(old(self).history@.len()),
                delivered: Ghost(Seq::empty()),
            }),
    {
        let id = self.next_id;
        let sub = Subscriber {
            id,
            tickers: request.tickers,
            udp_addr: request.udp_addr,
            last_ping_ms: now_ms,
            timeout_ms: self.keepalive_timeout_ms,
            started_at: Ghost(self.history@.len()),
            delivered: Ghost(Seq::empty()),
        };
        self.subscribers.push(sub);
        self.next_id = id + 1;
        proof {
            let subs = self.subscribers@;
            assert forall|i: int|
                0 <= i < subs.len() implies (#[trigger] subs[i]).delivered@ == self.history@.skip(
                subs[i].started_at@ as int,
            ).filter(sub_pred(subs[i])) by {
                if i == subs.len() - 1 {
                    assert(self.history@.skip(self.history@.len() as int)
                        =~= Seq::<QuoteModel>::empty());
                    assert(Seq::<QuoteModel>::empty().filter(sub_pred(subs[i]))
                        =~= Seq::<QuoteModel>::empty()) by {
                        reveal(Seq::filter);
                    }
                }
            }
        }
        id
    }

    /// Processes one quote for fan-out: returns, in directory order,
    /// the ids of the subscribers whose ticker set holds the quote's
    /// ticker — each at most once — and records the routing.
    pub fn deliver(&mut self, q: &StockQuote) -> (targets: Vec<u64>)
        requires
            old(self).wf(),
        ensures
            final(self).wf(),
            final(self).next_id == old(self).next_id,
            final(self).keepalive_timeout_ms == old(self).keepalive_timeout_ms,
            final(self).history@ == old(self).history@.push(q@),
            final(self).subscribers@ == old(self).subscribers@.map(
                |_i: int, s: Subscriber| route_quote(s, q@),
            ),
            targets@ == matching_ids(old(self).subscribers@, q@.ticker),
    {
        let ghost subs0 = self.subscribers@;
        let mut targets: Vec<u64> = Vec::new();
        let n = self.subscribers.len();
        let mut k: usize = 0;
        while k < n
            invariant
                n == subs0.len(),
                k <= n,
                self.next_id == old(self).next_id,
                self.keepalive_timeout_ms == old(self).keepalive_timeout_ms,
                self.history@ == old(self).history@,
                self.subscribers@ =~= subs0.skip(k as int) + subs0.take(k as int).map(
                    |_i: int, s: Subscriber| route_quote(s, q@),
                ),
                targets@ == matching_ids(subs0.take(k as int), q@.ticker),
            decreases n - k,
        {
            let mut s = self.subscribers.remove(0);
            proof {
                assert(s == subs0[k as int]);
            }
            if ticker_in_list(&s.tickers, &q.ticker) {
                targets.push(s.id);
                proof {
                    s.delivered@ = s.delivered@.push(q@);
                }
            }
            proof {
                assert(s == route_quote(subs0[k as int], q@));
            }
            self.subscribers.push(s);
            proof {
                assert(subs0.take(k + 1).drop_last() =~= subs0.take(k as int));
                assert(subs0.take(k + 1).last() == subs0[k as int]);
                assert(matching_ids(subs0.take(k + 1), q@.ticker) =~= targets@);
                assert(self.subscribers@ =~= subs0.skip(k + 1) + subs0.take(k + 1).map(
                    |_i: int, s2: Subscriber| route_quote(s2, q@),
                ));
            }
            k = k + 1;
        }
        self.history = Ghost(self.history@.push(q@));
        proof {
            assert(subs0.take(n as int) =~= subs0);
            assert(subs0.skip(n as int) =~= Seq::<Subscriber>::empty());
            assert(self.subscribers@ =~= subs0.map(|_i: int, s: Subscriber| route_quote(s, q@)));
            assert forall|i: int|
                0 <= i < self.subscribers@.len() implies (#[trigger] self.subscribers@[i]).delivered@
                == self.history@.skip(self.subscribers@[i].started_at@ as int).filter(
                sub_pred(self.subscribers@[i]),
            ) by {
                let s0 = subs0[i];
                let s1 = self.subscribers@[i];
                assert(s1 == route_quote(s0, q@));
                lemma_filter_push(
                    old(self).history@,
                    s0.started_at@ as int,
                    q@,
                    sub_pred(s0),
                );
                assert(sub_pred(s1) == sub_pred(s0));
            }
        }
        targets
    }
}

impl Dispatcher {
    /// Observes one datagram on the keepalive socket: a payload of
    /// exactly `PING` from a known subscriber's endpoint refreshes the
    /// first such subscriber's window; anything else changes nothing.
    pub fn observe_ping(&mut self, from: &SocketAddress, payload: &[u8], now_ms: u64)
        requires
            old(self).wf(),
        ensures
            final(self).wf(),
            final(self).next_id == old(self).next_id,
            final(self).keepalive_timeout_ms == old(self).keepalive_timeout_ms,
            final(self).history@ == old(self).history@,
            ({
                let idx = find_by_addr(old(self).subscribers@, *from, 0);
                if payload@ == ping_payload() && idx < old(self).subscribers@.len() {
                    final(self).subscribers@ == old(self).subscribers@.update(
                        idx,
                        Subscriber { last_ping_ms: now_ms, ..old(self).subscribers@[idx] },
                    )
                } else {
                    final(self).subscribers@ == old(self).subscribers@
                }
            }),
    {
        let is_ping = payload.len() == 4 && payload[0] == 80 && payload[1] == 73 && payload[2]
            == 78 && payload[3] == 71;
        proof {
            if is_ping {
                assert(payload@ =~= ping_payload());
            } else {
                assert(payload@ != ping_payload());
            }
        }
        if !is_ping {
            return ;
        }
        let ghost subs0 = self.subscribers@;
        let n = self.subscribers.len();
        let mut i: usize = 0;
        while i < n
            invariant
                old(self).wf(),
                subs0 == old(self).subscribers@,
                payload@ == ping_payload(),
                n == self.subscribers@.len(),
                i <= n,
                self.subscribers@ == subs0,
                self.next_id == old(self).next_id,
                self.keepalive_timeout_ms == old(self).keepalive_timeout_ms,
                self.history@ == old(self).history@,
                forall|j: int| 0 <= j < i ==> subs0[j].udp_addr != *from,
            decreases n - i,
        {
            if self.subscribers[i].udp_addr == *from {
                proof {
                    lemma_find_by_addr(subs0, *from, 0);
                    lemma_find_by_addr_prefix(subs0, *from, i as int);
                }
                let mut s = self.subscribers.remove(i);
                s.last_ping_ms = now_ms;
                self.subscribers.insert(i, s);
                proof {
                    assert(self.subscribers@ =~= subs0.update(
                        i as int,
                        Subscriber { last_ping_ms: now_ms, ..subs0[i as int] },
                    ));
                    assert(sub_pred(self.subscribers@[i as int]) == sub_pred(subs0[i as int]));
                }
                return ;
            }
            i = i + 1;
        }
        proof {
            lemma_find_by_addr(subs0, *from, 0);
            lemma_find_by_addr_prefix(subs0, *from, n as int);
        }
    }

    /// Evicts every subscriber whose keepalive window has passed at
    /// `now_ms`, returning their ids in directory order; exactly the
    /// live subscribers remain, in order.
    pub fn evict_expired(&mut self, now_ms: u64) -> (evicted: Vec<u64>)
        requires
            old(self).wf(),
        ensures
            final(self).wf(),
            final(self).next_id == old(self).next_id,
            final(self).keepalive_timeout_ms == old(self).keepalive_timeout_ms,
            final(self).history@ == old(self).history@,
            final(self).subscribers@ == old(self).subscribers@.filter(
                |s: Subscriber| !expired(s, now_ms),
            ),
            evicted@ == expired_ids(old(self).subscribers@, now_ms),
            forall|j: int|
                0 <= j < final(self).subscribers@.len() ==> !expired(
                    #[trigger] final(self).subscribers@[j],
                    now_ms,
                ),
    {
        let ghost subs0 = self.subscribers@;
        let mut evicted: Vec<u64> = Vec::new();
        let mut i: usize = 0;
        let ghost mut k: int = 0;
        while i < self.subscribers.len()
            invariant
                0 <= k <= subs0.len(),
                self.next_id == old(self).next_id,
                self.keepalive_timeout_ms == old(self).keepalive_timeout_ms,
                self.history@ == old(self).history@,
                self.subscribers@ =~= subs0.take(k).filter(|s: Subscriber| !expired(s, now_ms))
                    + subs0.skip(k),
                i == subs0.take(k).filter(|s: Subscriber| !expired(s, now_ms)).len(),
                evicted@ == expired_ids(subs0.take(k), now_ms),
            decreases subs0.len() - k,
        {
            proof {
                reveal(Seq::filter);
                assert(subs0.skip(k).len() > 0);
                assert(self.subscribers@[i as int] == subs0[k]);
                assert(subs0.take(k + 1).drop_last() =~= subs0.take(k));
                assert(subs0.take(k + 1).last() == subs0[k]);
            }
            let last_ping = self.subscribers[i].last_ping_ms;
            let timeout = self.subscribers[i].timeout_ms;
            let is_expired = now_ms > last_ping && now_ms - last_ping > timeout;
            proof {
                assert(is_expired == expired(subs0[k], now_ms));
            }
            if is_expired {
                let s = self.subscribers.remove(i);
                evicted.push(s.id);
                proof {
                    assert(self.subscribers@ =~= subs0.take(k + 1).filter(
                        |s2: Subscriber| !expired(s2, now_ms),
                    ) + subs0.skip(k + 1));
                    assert(evicted@ =~= expired_ids(subs0.take(k + 1), now_ms));
                }
            } else {
                i = i + 1;
                proof {
                    assert(self.subscribers@ =~= subs0.take(k + 1).filter(
                        |s2: Subscriber| !expired(s2, now_ms),
                    ) + subs0.skip(k + 1));
                    assert(evicted@ =~= expired_ids(subs0.take(k + 1), now_ms));
                }
            }
            proof {
                k = k + 1;
            }
        }
        proof {
            assert(subs0.take(subs0.len() as int) =~= subs0);
            assert(subs0.skip(subs0.len() as int) =~= Seq::<Subscriber>::empty());
            assert(self.subscribers@ =~= subs0.filter(|s: Subscriber| !expired(s, now_ms)));
            lemma_filter_keeps_wf(subs0, *old(self), *self, |s: Subscriber| !expired(s, now_ms));
        }
        evicted
    }

    /// Removes the subscriber with `id`, if present; used when a
    /// subscriber's queue has failed or its worker has terminated.
    pub fn remove_subscriber(&mut self, id: u64) -> (found: bool)
        requires
            old(self).wf(),
        ensures
            final(self).wf(),
            final(self).next_id == old(self).next_id,
            final(self).keepalive_timeout_ms == old(self).keepalive_timeout_ms,
            final(self).history@ == old(self).history@,
            final(self).subscribers@ == old(self).subscribers@.filter(
                |s: Subscriber| s.id != id,
            ),
            found == exists|i: int|
                0 <= i < old(self).subscribers@.len() && (#[trigger] old(
                    self,
                ).subscribers@[i]).id == id,
    {
        let ghost subs0 = self.subscribers@;
        let mut found = false;
        let mut i: usize = 0;
        let ghost mut k: int = 0;
        while i < self.subscribers.len()
            invariant
                0 <= k <= subs0.len(),
                self.next_id == old(self).next_id,
                self.keepalive_timeout_ms == old(self).keepalive_timeout_ms,
                self.history@ == old(self).history@,
                self.subscribers@ =~= subs0.take(k).filter(|s: Subscriber| s.id != id)
                    + subs0.skip(k),
                i == subs0.take(k).filter(|s: Subscriber| s.id != id).len(),
                found == exists|j: int| 0 <= j < k && (#[trigger] subs0[j]).id == id,
            decreases subs0.len() - k,
        {
            proof {
                reveal(Seq::filter);
                assert(subs0.skip(k).len() > 0);
                assert(self.subscribers@[i as int] == subs0[k]);
                assert(subs0.take(k + 1).drop_last() =~= subs0.take(k));
                assert(subs0.take(k + 1).last() == subs0[k]);
            }
            if self.subscribers[i].id == id {
                let _s = self.subscribers.remove(i);
                found = true;
                proof {
                    assert(self.subscribers@ =~= subs0.take(k + 1).filter(
                        |s2: Subscriber| s2.id != id,
                    ) + subs0.skip(k + 1));
                }
            } else {
                i = i + 1;
                proof {
                    assert(self.subscribers@ =~= subs0.take(k + 1).filter(
                        |s2: Subscriber| s2.id != id,
                    ) + subs0.skip(k + 1));
                }
            }
            proof {
                k = k + 1;
            }
        }
        proof {
            assert(subs0.take(subs0.len() as int) =~= subs0);
            assert(subs0.skip(subs0.len() as int) =~= Seq::<Subscriber>::empty());
            assert(self.subscribers@ =~= subs0.filter(|s: Subscriber| s.id != id));
            lemma_filter_keeps_wf(subs0, *old(self), *self, |s: Subscriber| s.id != id);
        }
        found
    }

    /// Empties the directory for shutdown, returning every id in
    /// directory order.
    pub fn shutdown(&mut self) -> (ids: Vec<u64>)
        requires
            old(self).wf(),
        ensures
            final(self).wf(),
            final(self).subscribers@.len() == 0,
            final(self).next_id == old(self).next_id,
            final(self).keepalive_timeout_ms == old(self).keepalive_timeout_ms,
            final(self).history@ == old(self).history@,
            ids@.len() == old(self).subscribers@.len(),
            forall|i: int|
                0 <= i < ids@.len() ==> ids@[i] == (#[trigger] old(self).subscribers@[i]).id,
    {
        let ghost subs0 = self.subscribers@;
        let mut ids: Vec<u64> = Vec::new();
        while self.subscribers.len() > 0
            invariant
                ids@.len() <= subs0.len(),
                self.subscribers@ =~= subs0.skip(ids@.len() as int),
                self.next_id == old(self).next_id,
                self.keepalive_timeout_ms == old(self).keepalive_timeout_ms,
                self.history@ == old(self).history@,
                forall|j: int| 0 <= j < ids@.len() ==> ids@[j] == (#[trigger] subs0[j]).id,
            decreases self.subscribers@.len(),
        {
            let ghost i = ids@.len() as int;
            let s = self.subscribers.remove(0);
            proof {
                assert(s == subs0[i]);
            }
            ids.push(s.id);
            proof {
                assert(self.subscribers@ =~= subs0.skip(i + 1));
            }
        }
        ids
    }
}

/// The ids of the expired subscribers, in directory order.
pub open spec fn expired_ids(subs: Seq<Subscriber>, now_ms: u64) -> Seq<u64>
    decreases subs.len(),
{
    if subs.len() == 0 {
        Seq::empty()
    } else {
        expired_ids(subs.drop_last(), now_ms) + (if expired(subs.last(), now_ms) {
            seq![subs.last().id]
        } else {
            Seq::empty()
        })
    }
}

pub proof fn lemma_find_by_addr_prefix(subs: Seq<Subscriber>, a: SocketAddress, upto: int)
    requires
        0 <= upto <= subs.len(),
        forall|j: int| 0 <= j < upto ==> subs[j].udp_addr != a,
    ensures
        find_by_addr(subs, a, 0) >= upto,
{
    lemma_find_by_addr_skip(subs, a, 0, upto);
}

pub proof fn lemma_find_by_addr_skip(subs: Seq<Subscriber>, a: SocketAddress, from: int, upto: int)
    requires
        0 <= from <= upto <= subs.len(),
        forall|j: int| from <= j < upto ==> subs[j].udp_addr != a,
    ensures
        find_by_addr(subs, a, from) >= upto,
    decreases upto - from,
{
    lemma_find_by_addr(subs, a, from);
    if from < upto {
        lemma_find_by_addr_skip(subs, a, from + 1, upto);
    }
}

/// A directory that keeps a sub-sequence of its subscribers keeps its
/// invariant.
pub proof fn lemma_filter_keeps_wf(
    subs0: Seq<Subscriber>,
    d0: Dispatcher,
    d1: Dispatcher,
    keep: spec_fn(Subscriber) -> bool,
)
    requires
        d0.wf(),
        d0.subscribers@ == subs0,
        d1.subscribers@ == subs0.filter(keep),
        d1.next_id == d0.next_id,
        d1.keepalive_timeout_ms == d0.keepalive_timeout_ms,
        d1.history@ == d0.history@,
    ensures
        d1.wf(),
{
    lemma_filter_elements(subs0, keep);
    let kept = subs0.filter(keep);
    assert forall|i: int|
        0 <= i < kept.len() implies {
        &&& (#[trigger] kept[i]).id < d1.next_id
        &&& kept[i].started_at@ <= d1.history@.len()
        &&& kept[i].delivered@ == d1.history@.skip(kept[i].started_at@ as int).filter(
            sub_pred(kept[i]),
        )
        &&& kept[i].timeout_ms == d1.keepalive_timeout_ms
    } by {
        assert(exists|j: int| 0 <= j < subs0.len() && subs0[j] == kept[i]);
        let j = choose|j: int| 0 <= j < subs0.len() && subs0[j] == kept[i];
        assert(subs0[j].id < d0.next_id);
    }
    assert forall|i: int, j: int|
        0 <= i < j < kept.len() implies kept[i].id != kept[j].id by {
        lemma_filter_index_map(subs0, keep, i, j);
        let (a, b) = choose|a: int, b: int|
            0 <= a < b < subs0.len() && subs0[a] == kept[i] && subs0[b] == kept[j];
        assert(subs0[a].id != subs0[b].id);
    }
}

/// Every element of a filtered sequence comes from the original.
pub proof fn lemma_filter_elements(subs: Seq<Subscriber>, keep: spec_fn(Subscriber) -> bool)
    ensures
        forall|i: int|
            0 <= i < subs.filter(keep).len() ==> exists|j: int|
                0 <= j < subs.len() && subs[j] == #[trigger] subs.filter(keep)[i],
    decreases subs.len(),
{
    reveal(Seq::filter);
    if subs.len() > 0 {
        lemma_filter_elements(subs.drop_last(), keep);
        assert forall|i: int|
            0 <= i < subs.filter(keep).len() implies exists|j: int|
                0 <= j < subs.len() && subs[j] == #[trigger] subs.filter(keep)[i] by {
            let f = subs.filter(keep);
            let fd = subs.drop_last().filter(keep);
            if i < fd.len() {
                assert(f[i] == fd[i]);
                let j = choose|j: int|
                    0 <= j < subs.drop_last().len() && subs.drop_last()[j] == fd[i];
                assert(subs[j] == f[i]);
            } else {
                assert(f[i] == subs.last());
                assert(subs[subs.len() - 1] == f[i]);
            }
        }
    }
}

/// Two distinct positions of a filtered sequence come from two
/// distinct positions of the original, in order.
pub proof fn lemma_filter_index_map(
    subs: Seq<Subscriber>,
    keep: spec_fn(Subscriber) -> bool,
    i: int,
    j: int,
)
    requires
        0 <= i < j < subs.filter(keep).len(),
    ensures
        exists|a: int, b: int|
            0 <= a < b < subs.len() && subs[a] == subs.filter(keep)[i] && subs[b] == subs.filter(
                keep,
            )[j],
    decreases subs.len(),
{
    reveal(Seq::filter);
    let f = subs.filter(keep);
    let fd = subs.drop_last().filter(keep);
    if j < fd.len() {
        lemma_filter_index_map(subs.drop_last(), keep, i, j);
        let (a, b) = choose|a: int, b: int|
            0 <= a < b < subs.drop_last().len() && subs.drop_last()[a] == fd[i]
                && subs.drop_last()[b] == fd[j];
        assert(subs[a] == f[i] && subs[b] == f[j]);
    } else {
        assert(keep(subs.last()));
        assert(f[j] == subs.last());
        assert(i < fd.len());
        lemma_filter_element_index(subs.drop_last(), keep, i);
        let a = choose|a: int|
            0 <= a < subs.drop_last().len() && subs.drop_last()[a] == fd[i];
        assert(subs[a] == f[i]);
        assert(subs[subs.len() - 1] == f[j]);
    }
}

/// Each position of a filtered sequence has a source position.
pub proof fn lemma_filter_element_index(
    subs: Seq<Subscriber>,
    keep: spec_fn(Subscriber) -> bool,
    i: int,
)
    requires
        0 <= i < subs.filter(keep).len(),
    ensures
        exists|a: int| 0 <= a < subs.len() && subs[a] == subs.filter(keep)[i],
    decreases subs.len(),
{
    reveal(Seq::filter);
    let f = subs.filter(keep);
    let fd = subs.drop_last().filter(keep);
    if subs.len() > 0 {
        if i < fd.len() {
            lemma_filter_element_index(subs.drop_last(), keep, i);
            let a = choose|a: int|
                0 <= a < subs.drop_last().len() && subs.drop_last()[a] == fd[i];
            assert(subs[a] == f[i]);
        } else {
            assert(subs[subs.len() - 1] == f[i]);
        }
    }
}

/// Whether `t` occurs in `list`.
pub fn ticker_in_list(list: &Vec<String>, t: &str) -> (r: bool)
    ensures
        r == ticker_listed(list.deep_view(), t@),
{
    let n = list.len();
    let mut i: usize = 0;
    while i < n
        invariant
            n == list@.len(),
            i <= n,
            forall|j: int| 0 <= j < i ==> list.deep_view()[j] != t@,
        decreases n - i,
    {
        if str_eq(list[i].as_str(), t) {
            proof {
                assert(list.deep_view()[i as int] == t@);
            }
            return true;
        }
        i = i + 1;
    }
    false
}

/// Filtering a history extended by one quote appends the quote when
/// the predicate admits it.
pub proof fn lemma_filter_push(
    h: Seq<QuoteModel>,
    start: int,
    q: QuoteModel,
    pred: spec_fn(QuoteModel) -> bool,
)
    requires
        0 <= start <= h.len(),
    ensures
        h.push(q).skip(start).filter(pred) == (if pred(q) {
            h.skip(start).filter(pred).push(q)
        } else {
            h.skip(start).filter(pred)
        }),
{
    reveal(Seq::filter);
    assert(h.push(q).skip(start) =~= h.skip(start).push(q));
    let t = h.skip(start);
    assert(t.push(q).drop_last() =~= t);
    assert(t.push(q).last() == q);
    if pred(q) {
        assert(t.push(q).filter(pred) =~= t.filter(pred).push(q));
    } else {
        assert(t.push(q).filter(pred) =~= t.filter(pred));
    }
}

/// Every id in a fan-out list belongs to some subscriber in the
/// directory slice.
pub proof fn lemma_matching_ids_sources(subs: Seq<Subscriber>, t: Seq<char>)
    ensures
        forall|i: int|
            0 <= i < matching_ids(subs, t).len() ==> exists|j: int|
                0 <= j < subs.len() && subs[j].id == #[trigger] matching_ids(subs, t)[i],
    decreases subs.len(),
{
    if subs.len() > 0 {
        lemma_matching_ids_sources(subs.drop_last(), t);
        let m = matching_ids(subs, t);
        let md = matching_ids(subs.drop_last(), t);
        assert forall|i: int|
            0 <= i < m.len() implies exists|j: int|
                0 <= j < subs.len() && subs[j].id == #[trigger] m[i] by {
            if i < md.len() {
                assert(m[i] == md[i]);
                let j = choose|j: int|
                    0 <= j < subs.drop_last().len() && subs.drop_last()[j].id == md[i];
                assert(subs[j].id == m[i]);
            } else {
                assert(subs[subs.len() - 1].id == m[i]);
            }
        }
    }
}

/// A quote is routed to each subscriber at most once: with distinct
/// subscriber ids, the fan-out target list for one quote holds no id
/// twice.
pub proof fn lemma_fanout_at_most_once(subs: Seq<Subscriber>, t: Seq<char>)
    requires
        forall|i: int, j: int| 0 <= i < j < subs.len() ==> subs[i].id != subs[j].id,
    ensures
        forall|a: int, b: int|
            0 <= a < b < matching_ids(subs, t).len() ==> matching_ids(subs, t)[a] != matching_ids(
                subs,
                t,
            )[b],
    decreases subs.len(),
{
    if subs.len() > 0 {
        lemma_fanout_at_most_once(subs.drop_last(), t);
        lemma_matching_ids_sources(subs.drop_last(), t);
        let m = matching_ids(subs, t);
        let md = matching_ids(subs.drop_last(), t);
        assert forall|a: int, b: int|
            0 <= a < b < m.len() implies m[a] != m[b] by {
            if b < md.len() {
                assert(m[a] == md[a] && m[b] == md[b]);
            } else {
                assert(m[b] == subs.last().id);
                assert(m[a] == md[a]);
                let j = choose|j: int|
                    0 <= j < subs.drop_last().len() && subs.drop_last()[j].id == md[a];
                assert(subs[j].id == md[a]);
                assert(subs[j].id != subs[subs.len() - 1].id);
            }
        }
    }
}

/// Filtering twice is filtering by the conjunction.
pub proof fn lemma_filter_compose<A>(s: Seq<A>, p1: spec_fn(A) -> bool, p2: spec_fn(A) -> bool)
    ensures
        s.filter(p1).filter(p2) == s.filter(|x: A| p1(x) && p2(x)),
    decreases s.len(),
{
    reveal(Seq::filter);
    if s.len() > 0 {
        lemma_filter_compose(s.drop_last(), p1, p2);
        let f1 = s.filter(p1);
        if p1(s.last()) {
            assert(f1.drop_last() =~= s.drop_last().filter(p1));
            assert(f1.last() == s.last());
        } else {
            assert(f1 =~= s.drop_last().filter(p1));
        }
        assert(s.filter(p1).filter(p2) =~= s.filter(|x: A| p1(x) && p2(x)));
    } else {
        assert(s.filter(p1).filter(p2) =~= s.filter(|x: A| p1(x) && p2(x)));
    }
}

/// Two pointwise-equal predicates filter alike.
pub proof fn lemma_filter_equiv<A>(s: Seq<A>, p1: spec_fn(A) -> bool, p2: spec_fn(A) -> bool)
    requires
        forall|x: A| #[trigger] p1(x) == #[trigger] p2(x),
    ensures
        s.filter(p1) == s.filter(p2),
    decreases s.len(),
{
    reveal(Seq::filter);
    if s.len() > 0 {
        lemma_filter_equiv(s.drop_last(), p1, p2);
        assert(s.filter(p1) =~= s.filter(p2));
    } else {
        assert(s.filter(p1) =~= s.filter(p2));
    }
}

/// Per-subscriber delivery order equals generation order: what a
/// subscriber has been routed is exactly the dispatcher's history
/// since its registration, filtered by its ticker set.
pub proof fn lemma_subscriber_receives_filtered_history(d: Dispatcher, i: int)
    requires
        d.wf(),
        0 <= i < d.subscribers@.len(),
    ensures
        d.subscribers@[i].delivered@ == d.history@.skip(
            d.subscribers@[i].started_at@ as int,
        ).filter(sub_pred(d.subscribers@[i])),
{
}

/// Per-ticker delivery order equals per-ticker generation order: for
/// a ticker the subscriber asked for, the quotes it was routed with
/// that ticker are exactly the quotes generated with that ticker
/// since its registration, in generation order.
pub proof fn lemma_per_ticker_order(d: Dispatcher, i: int, t: Seq<char>)
    requires
        d.wf(),
        0 <= i < d.subscribers@.len(),
        ticker_listed(d.subscribers@[i].tickers.deep_view(), t),
    ensures
        d.subscribers@[i].delivered@.filter(|q: QuoteModel| q.ticker == t) == d.history@.skip(
            d.subscribers@[i].started_at@ as int,
        ).filter(|q: QuoteModel| q.ticker == t),
{
    let s = d.subscribers@[i];
    let h = d.history@.skip(s.started_at@ as int);
    let same_t = |q: QuoteModel| q.ticker == t;
    lemma_filter_compose(h, sub_pred(s), same_t);
    lemma_filter_equiv(h, |q: QuoteModel| sub_pred(s)(q) && same_t(q), same_t);
}

} // verus!

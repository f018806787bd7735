//! The server's table of subscribers: which address listens to which tickers,
//! and when it last showed that it is still there.
//!
//! Times are readings of a monotonic clock in nanoseconds, taken by the caller.
use vstd::prelude::*;
use crate::text::views;
use crate::tickers::{dedup_strings, lemma_dedup, dedup};
use crate::protocol::quote::StockQuote;
use crate::addr::ClientAddr;

verus! {

/// How long a subscriber stays registered after its last sign of life, in
/// nanoseconds (twenty seconds).
pub const STATE_TIMEOUT_NANOS: u64 = 20_000_000_000;

/// What a subscriber listens to, and when it last showed that it is there.
#[derive(Debug)]
pub struct Subscription {
    /// The tickers, each once.
    pub ticker: Vec<String>,
    /// The clock reading of the last sign of life.
    pub last_ping: u64,
}

/// A subscription as values of the specification: its set of tickers and its
/// last sign of life.
pub open spec fn sub_view(s: Subscription) -> (Set<Seq<char>>, u64) {
    (views(s.ticker@).to_set(), s.last_ping)
}

/// How much time has passed from `then` to `now` (none if `now` is earlier).
pub open spec fn elapsed(then: u64, now: u64) -> nat {
    if now >= then {
        (now - then) as nat
    } else {
        0
    }
}

/// Whether a subscriber last seen at `last_ping` is still registered at `now`.
pub open spec fn is_fresh(last_ping: u64, now: u64) -> bool {
    elapsed(last_ping, now) < STATE_TIMEOUT_NANOS
}

/// The subscribers of `m` that are still registered at `now`.
pub open spec fn fresh_part(m: Map<ClientAddr, (Set<Seq<char>>, u64)>, now: u64) -> Map<
    ClientAddr,
    (Set<Seq<char>>, u64),
> {
    Map::new(|a: ClientAddr| m.contains_key(a) && is_fresh(m[a].1, now), |a: ClientAddr| m[a])
}

/// `m` after a sign of life of `a` at `now`: a registered subscriber keeps its
/// tickers and is last seen at `now`; others are ignored.
pub open spec fn pinged(m: Map<ClientAddr, (Set<Seq<char>>, u64)>, a: ClientAddr, now: u64) -> Map<
    ClientAddr,
    (Set<Seq<char>>, u64),
> {
    if m.contains_key(a) {
        m.insert(a, (m[a].0, now))
    } else {
        m
    }
}

/// The subscribers of `m` that listen to `ticker`.
pub open spec fn listeners(m: Map<ClientAddr, (Set<Seq<char>>, u64)>, ticker: Seq<char>) -> Set<
    ClientAddr,
> {
    Set::new(|a: ClientAddr| m.contains_key(a) && m[a].0.contains(ticker))
}

/// The map that a list of entries describes, later entries winning.
pub open spec fn map_of(es: Seq<(ClientAddr, Subscription)>) -> Map<ClientAddr, (Set<Seq<char>>, u64)>
    decreases es.len(),
{
    if es.len() == 0 {
        Map::empty()
    } else {
        map_of(es.drop_last()).insert(es.last().0, sub_view(es.last().1))
    }
}

/// No address has two entries.
pub open spec fn keys_unique(es: Seq<(ClientAddr, Subscription)>) -> bool {
    forall|i: int, j: int| 0 <= i < es.len() && 0 <= j < es.len() && i != j ==> es[i].0 != es[j].0
}

/// The entries of a list with unique addresses are exactly its map.
proof fn lemma_map_of(es: Seq<(ClientAddr, Subscription)>)
    requires
        keys_unique(es),
    ensures
        forall|k: ClientAddr|
            #![trigger map_of(es).contains_key(k)]
            map_of(es).contains_key(k) <==> exists|i: int| 0 <= i < es.len() && (#[trigger] es[i]).0 == k,
        forall|i: int| 0 <= i < es.len() ==> map_of(es)[(#[trigger] es[i]).0] == sub_view(es[i].1),
    decreases es.len(),
{
    if es.len() > 0 {
        let init = es.drop_last();
        assert(keys_unique(init)) by {
            assert forall|i: int, j: int|
                0 <= i < init.len() && 0 <= j < init.len() && i != j implies init[i].0 != init[j].0 by {
                assert(init[i] == es[i] && init[j] == es[j]);
            }
        }
        lemma_map_of(init);
        let last = es.len() - 1;
        assert forall|k: ClientAddr|
            #![trigger map_of(es).contains_key(k)]
            map_of(es).contains_key(k) <==> exists|i: int| 0 <= i < es.len() && (#[trigger] es[i]).0 == k by {
            if map_of(es).contains_key(k) && k != es[last].0 {
                assert(map_of(init).contains_key(k));
                let i = choose|i: int| 0 <= i < init.len() && (#[trigger] init[i]).0 == k;
                assert(es[i] == init[i]);
            }
            if exists|i: int| 0 <= i < es.len() && (#[trigger] es[i]).0 == k {
                let i = choose|i: int| 0 <= i < es.len() && (#[trigger] es[i]).0 == k;
                if i < last {
                    assert(init[i] == es[i]);
                }
            }
        }
        assert forall|i: int| 0 <= i < es.len() implies map_of(es)[(#[trigger] es[i]).0] == sub_view(es[i].1) by {
            if i < last {
                assert(init[i] == es[i]);
                assert(es[i].0 != es[last].0);
            }
        }
    }
}

/// The table of subscribers.
#[derive(Debug)]
pub struct Registry {
    inner: Vec<(ClientAddr, Subscription)>,
}

impl View for Registry {
    type V = Map<ClientAddr, (Set<Seq<char>>, u64)>;

    closed spec fn view(&self) -> Map<ClientAddr, (Set<Seq<char>>, u64)> {
        map_of(self.inner@)
    }
}

impl Registry {
    /// Each address has one entry, and each subscription lists a ticker once.
    pub closed spec fn wf(&self) -> bool {
        &&& keys_unique(self.inner@)
        &&& forall|i: int| 0 <= i < self.inner@.len() ==> views((#[trigger] self.inner@[i]).1.ticker@).no_duplicates()
    }

    /// An empty table.
    pub fn new() -> (r: Self)
        ensures
            r.wf(),
            r@ == Map::<ClientAddr, (Set<Seq<char>>, u64)>::empty(),
    {
        Registry { inner: Vec::new() }
    }

    /// The position of the entry of `addr`, if it has one.
    fn position(&self, addr: ClientAddr) -> (r: Option<usize>)
        ensures
            match r {
                Some(i) => i < self.inner@.len() && self.inner@[i as int].0 == addr,
                None => forall|i: int| 0 <= i < self.inner@.len() ==> (#[trigger] self.inner@[i]).0 != addr,
            },
    {
        let n = self.inner.len();
        for i in 0..n
            invariant
                n == self.inner@.len(),
                forall|k: int| 0 <= k < i ==> (#[trigger] self.inner@[k]).0 != addr,
        {
            if self.inner[i].0 == addr {
                return Some(i);
            }
        }
        None
    }

    /// Subscribes `addr` to `tickers` as of `now`, replacing what it had.
    pub fn register(&mut self, addr: ClientAddr, tickers: Vec<String>, now: u64)
        requires
            old(self).wf(),
        ensures
            final(self).wf(),
            final(self)@ == old(self)@.insert(addr, (views(tickers@).to_set(), now)),
    {
        let ghost given = views(tickers@);
        let ticker = dedup_strings(tickers);
        proof {
            lemma_dedup(given);
        }
        let sub = Subscription { ticker, last_ping: now };
        let ghost old_es = self.inner@;
        proof {
            lemma_map_of(old_es);
        }
        match self.position(addr) {
            Some(i) => {
                self.inner.set(i, (addr, sub));
                proof {
                    let es = self.inner@;
                    assert(es == old_es.update(i as int, es[i as int]));
                    assert(keys_unique(es)) by {
                        assert forall|a: int, b: int|
                            0 <= a < es.len() && 0 <= b < es.len() && a != b implies es[a].0 != es[b].0 by {
                            if a != i && b != i {
                                assert(es[a] == old_es[a] && es[b] == old_es[b]);
                            } else if a == i {
                                assert(es[b] == old_es[b]);
                            } else {
                                assert(es[a] == old_es[a]);
                            }
                        }
                    }
                    lemma_map_of(es);
                    let want = map_of(old_es).insert(addr, (given.to_set(), now));
                    assert forall|k: ClientAddr| #[trigger] map_of(es).contains_key(k) <==> want.contains_key(k) by {
                        if map_of(es).contains_key(k) {
                            let j = choose|j: int| 0 <= j < es.len() && (#[trigger] es[j]).0 == k;
                            if j != i {
                                assert(old_es[j] == es[j]);
                            }
                        }
                        if want.contains_key(k) && k != addr {
                            let j = choose|j: int| 0 <= j < old_es.len() && (#[trigger] old_es[j]).0 == k;
                            assert(es[j] == old_es[j]);
                        }
                    }
                    assert forall|k: ClientAddr| #[trigger] map_of(es).contains_key(k) implies map_of(es)[k] == want[k] by {
                        let j = choose|j: int| 0 <= j < es.len() && (#[trigger] es[j]).0 == k;
                        if j != i {
                            assert(old_es[j] == es[j]);
                        }
                    }
                    assert(map_of(es) =~= want);
                    assert forall|a: int| 0 <= a < es.len() implies views((#[trigger] es[a]).1.ticker@).no_duplicates() by {
                        if a != i {
                            assert(es[a] == old_es[a]);
                        }
                    }
                }
            },
            None => {
                self.inner.push((addr, sub));
                proof {
                    let es = self.inner@;
                    assert(es.drop_last() =~= old_es);
                    assert(keys_unique(es)) by {
                        assert forall|a: int, b: int|
                            0 <= a < es.len() && 0 <= b < es.len() && a != b implies es[a].0 != es[b].0 by {
                            if a < old_es.len() && b < old_es.len() {
                                assert(es[a] == old_es[a] && es[b] == old_es[b]);
                            } else if a < old_es.len() {
                                assert(es[a] == old_es[a]);
                            } else {
                                assert(es[b] == old_es[b]);
                            }
                        }
                    }
                    assert forall|a: int| 0 <= a < es.len() implies views((#[trigger] es[a]).1.ticker@).no_duplicates() by {
                        if a < old_es.len() {
                            assert(es[a] == old_es[a]);
                        }
                    }
                }
            },
        }
    }

    /// Notes a sign of life of `addr` at `now`, if it is registered.
    pub fn update_ping(&mut self, addr: ClientAddr, now: u64)
        requires
            old(self).wf(),
        ensures
            final(self).wf(),
            final(self)@ == pinged(old(self)@, addr, now),
            forall|b: ClientAddr|
                b != addr ==> (#[trigger] final(self)@.contains_key(b) == old(self)@.contains_key(b)
                    && (old(self)@.contains_key(b) ==> final(self)@[b] == old(self)@[b])),
            final(self)@.contains_key(addr) == old(self)@.contains_key(addr),
            old(self)@.contains_key(addr) ==> final(self)@[addr] == (old(self)@[addr].0, now),
    {
        let ghost before = self@;
        let ghost old_es = self.inner@;
        proof {
            lemma_map_of(old_es);
            law_ping_touches_only_its_subscriber(before, addr, now);
        }
        match self.position(addr) {
            Some(i) => {
                let entry = self.inner.remove(i);
                let (a, mut sub) = entry;
                sub.last_ping = now;
                self.inner.insert(i, (a, sub));
                proof {
                    let es = self.inner@;
                    assert(es == old_es.update(i as int, es[i as int]));
                    assert(es[i as int].1.ticker == old_es[i as int].1.ticker);
                    assert(keys_unique(es)) by {
                        assert forall|x: int, y: int|
                            0 <= x < es.len() && 0 <= y < es.len() && x != y implies es[x].0 != es[y].0 by {
                            assert(es[x].0 == old_es[x].0 && es[y].0 == old_es[y].0);
                        }
                    }
                    lemma_map_of(es);
                    let want = map_of(old_es).insert(addr, (map_of(old_es)[addr].0, now));
                    assert forall|k: ClientAddr| #[trigger] map_of(es).contains_key(k) <==> want.contains_key(k) by {
                        if map_of(es).contains_key(k) {
                            let j = choose|j: int| 0 <= j < es.len() && (#[trigger] es[j]).0 == k;
                            assert(old_es[j].0 == es[j].0);
                        }
                        if want.contains_key(k) && k != addr {
                            let j = choose|j: int| 0 <= j < old_es.len() && (#[trigger] old_es[j]).0 == k;
                            assert(es[j].0 == old_es[j].0);
                        }
                    }
                    assert forall|k: ClientAddr| #[trigger] map_of(es).contains_key(k) implies map_of(es)[k] == want[k] by {
                        let j = choose|j: int| 0 <= j < es.len() && (#[trigger] es[j]).0 == k;
                        if j != i {
                            assert(old_es[j] == es[j]);
                        }
                    }
                    assert(map_of(es) =~= want);
                    assert forall|x: int| 0 <= x < es.len() implies views((#[trigger] es[x]).1.ticker@).no_duplicates() by {
                        assert(es[x].1.ticker == old_es[x].1.ticker);
                    }
                }
            },
            None => {
                proof {
                    assert(!map_of(old_es).contains_key(addr));
                }
            },
        }
    }

    /// Removes `addr` from the table.
    pub fn unregister(&mut self, addr: ClientAddr)
        requires
            old(self).wf(),
        ensures
            final(self).wf(),
            final(self)@ == old(self)@.remove(addr),
    {
        let ghost old_es = self.inner@;
        proof {
            lemma_map_of(old_es);
        }
        match self.position(addr) {
            Some(i) => {
                let _gone = self.inner.remove(i);
                proof {
                    let es = self.inner@;
                    assert(es == old_es.remove(i as int));
                    assert forall|j: int| 0 <= j < es.len() implies #[trigger] es[j] == old_es[if j < i { j } else { j + 1 }] by {}
                    assert(keys_unique(es)) by {
                        assert forall|x: int, y: int|
                            0 <= x < es.len() && 0 <= y < es.len() && x != y implies es[x].0 != es[y].0 by {
                            assert(es[x] == old_es[if x < i { x } else { x + 1 }]);
                            assert(es[y] == old_es[if y < i { y } else { y + 1 }]);
                        }
                    }
                    lemma_map_of(es);
                    let want = map_of(old_es).remove(addr);
                    assert forall|k: ClientAddr| #[trigger] map_of(es).contains_key(k) <==> want.contains_key(k) by {
                        if map_of(es).contains_key(k) {
                            let j = choose|j: int| 0 <= j < es.len() && (#[trigger] es[j]).0 == k;
                            let o = if j < i { j } else { j + 1 };
                            assert(es[j] == old_es[o]);
                            assert(o != i);
                        }
                        if want.contains_key(k) {
                            let o = choose|o: int| 0 <= o < old_es.len() && (#[trigger] old_es[o]).0 == k;
                            assert(o != i);
                            let j = if o < i { o } else { o - 1 };
                            assert(es[j] == old_es[o]);
                        }
                    }
                    assert forall|k: ClientAddr| #[trigger] map_of(es).contains_key(k) implies map_of(es)[k] == want[k] by {
                        let j = choose|j: int| 0 <= j < es.len() && (#[trigger] es[j]).0 == k;
                        let o = if j < i { j } else { j + 1 };
                        assert(es[j] == old_es[o]);
                    }
                    assert(map_of(es) =~= want);
                    assert forall|x: int| 0 <= x < es.len() implies views((#[trigger] es[x]).1.ticker@).no_duplicates() by {
                        assert(es[x] == old_es[if x < i { x } else { x + 1 }]);
                    }
                }
            },
            None => {
                proof {
                    assert(map_of(old_es).remove(addr) =~= map_of(old_es));
                }
            },
        }
    }

    /// Removes every subscriber whose last sign of life is at least
    /// [`STATE_TIMEOUT_NANOS`] before `now`.
    pub fn clear_stale(&mut self, now: u64)
        requires
            old(self).wf(),
        ensures
            final(self).wf(),
            final(self)@ == fresh_part(old(self)@, now),
    {
        let ghost old_es = self.inner@;
        let mut entries: Vec<(ClientAddr, Subscription)> = Vec::new();
        std::mem::swap(&mut entries, &mut self.inner);
        let mut kept: Vec<(ClientAddr, Subscription)> = Vec::new();
        proof {
            lemma_map_of(old_es);
        }
        assert(old_es.take(0) =~= Seq::<(ClientAddr, Subscription)>::empty());
        assert(fresh_part(map_of(old_es.take(0)), now) =~= map_of(kept@));
        for e in it: entries.into_iter()
            invariant
                old_es == it.seq(),
                keys_unique(old_es),
                forall|i: int| 0 <= i < old_es.len() ==> views((#[trigger] old_es[i]).1.ticker@).no_duplicates(),
                keys_unique(kept@),
                forall|i: int| 0 <= i < kept@.len() ==> views((#[trigger] kept@[i]).1.ticker@).no_duplicates(),
                forall|i: int| 0 <= i < kept@.len() ==> exists|j: int| 0 <= j < it.index() && (#[trigger] kept@[i]).0 == old_es[j].0,
                map_of(kept@) == fresh_part(map_of(old_es.take(it.index() as int)), now),
        {
            let ghost i = it.index();
            let ghost pre = old_es.take(i as int);
            assert(old_es.take(i + 1).drop_last() =~= pre);
            assert(old_es.take(i + 1).last() == e);
            assert(keys_unique(pre)) by {
                assert forall|x: int, y: int|
                    0 <= x < pre.len() && 0 <= y < pre.len() && x != y implies pre[x].0 != pre[y].0 by {
                    assert(pre[x] == old_es[x] && pre[y] == old_es[y]);
                }
            }
            proof {
                lemma_map_of(pre);
                assert(!map_of(pre).contains_key(e.0)) by {
                    if map_of(pre).contains_key(e.0) {
                        let j = choose|j: int| 0 <= j < pre.len() && (#[trigger] pre[j]).0 == e.0;
                        assert(pre[j] == old_es[j]);
                    }
                }
            }
            let ghost before = map_of(kept@);
            let last = e.1.last_ping;
            let gap: u64 = if now >= last { now - last } else { 0 };
            if gap < STATE_TIMEOUT_NANOS {
                let ghost old_kept = kept@;
                kept.push(e);
                proof {
                    assert(kept@.drop_last() =~= old_kept);
                    assert(keys_unique(kept@)) by {
                        assert forall|x: int, y: int|
                            0 <= x < kept@.len() && 0 <= y < kept@.len() && x != y implies kept@[x].0 != kept@[y].0 by {
                            if x < old_kept.len() && y < old_kept.len() {
                                assert(kept@[x] == old_kept[x] && kept@[y] == old_kept[y]);
                            } else if x < old_kept.len() {
                                assert(kept@[x] == old_kept[x]);
                                let j = choose|j: int| 0 <= j < i && (#[trigger] old_kept[x]).0 == old_es[j].0;
                                assert(j != i);
                            } else {
                                assert(kept@[y] == old_kept[y]);
                                let j = choose|j: int| 0 <= j < i && (#[trigger] old_kept[y]).0 == old_es[j].0;
                                assert(j != i);
                            }
                        }
                    }
                    assert forall|x: int| 0 <= x < kept@.len() implies views((#[trigger] kept@[x]).1.ticker@).no_duplicates() by {
                        if x < old_kept.len() {
                            assert(kept@[x] == old_kept[x]);
                        }
                    }
                    assert forall|x: int| 0 <= x < kept@.len() implies exists|j: int| 0 <= j < i + 1 && (#[trigger] kept@[x]).0 == old_es[j].0 by {
                        if x < old_kept.len() {
                            assert(kept@[x] == old_kept[x]);
                            let j = choose|j: int| 0 <= j < i && (#[trigger] old_kept[x]).0 == old_es[j].0;
                        } else {
                            assert(kept@[x].0 == old_es[i as int].0);
                        }
                    }
                    assert(map_of(kept@) =~= fresh_part(map_of(old_es.take(i + 1)), now));
                }
            } else {
                proof {
                    assert(map_of(kept@) =~= fresh_part(map_of(old_es.take(i + 1)), now));
                }
            }
        }
        assert(old_es.take(old_es.len() as int) =~= old_es);
        self.inner = kept;
    }

    /// The subscribers that listen to the ticker of `quote`, each once.
    pub fn route(&self, quote: &StockQuote) -> (r: Vec<ClientAddr>)
        requires
            self.wf(),
        ensures
            r@.no_duplicates(),
            r@.to_set() == listeners(self@, quote.ticker@),
    {
        let ghost es = self.inner@;
        proof {
            lemma_map_of(es);
        }
        let mut r: Vec<ClientAddr> = Vec::new();
        let n = self.inner.len();
        for i in 0..n
            invariant
                n == es.len(),
                es == self.inner@,
                keys_unique(es),
                r@.no_duplicates(),
                forall|a: ClientAddr| #[trigger] r@.contains(a) <==> exists|j: int|
                    0 <= j < i && (#[trigger] es[j]).0 == a && views(es[j].1.ticker@).to_set().contains(quote.ticker@),
        {
            let found = contains_ticker(&self.inner[i].1.ticker, &quote.ticker);
            let ghost old_r = r@;
            if found {
                r.push(self.inner[i].0);
                proof {
                    assert(!old_r.contains(es[i as int].0)) by {
                        if old_r.contains(es[i as int].0) {
                            let j = choose|j: int| 0 <= j < i && (#[trigger] es[j]).0 == es[i as int].0 && views(es[j].1.ticker@).to_set().contains(quote.ticker@);
                            assert(j != i);
                        }
                    }
                    assert forall|x: int, y: int| 0 <= x < r@.len() && 0 <= y < r@.len() && x != y implies r@[x] != r@[y] by {
                        if x == old_r.len() {
                            assert(old_r.contains(old_r[y]));
                        } else if y == old_r.len() {
                            assert(old_r.contains(old_r[x]));
                        }
                    }
                    assert forall|a: ClientAddr| #[trigger] r@.contains(a) <==> exists|j: int|
                        0 <= j < i + 1 && (#[trigger] es[j]).0 == a && views(es[j].1.ticker@).to_set().contains(quote.ticker@) by {
                        if r@.contains(a) && a != es[i as int].0 {
                            let x = choose|x: int| 0 <= x < r@.len() && r@[x] == a;
                            assert(old_r[x] == a);
                            assert(old_r.contains(a));
                        }
                        if old_r.contains(a) {
                            let x = choose|x: int| 0 <= x < old_r.len() && old_r[x] == a;
                            assert(r@[x] == a);
                        }
                        if a == es[i as int].0 {
                            assert(r@[old_r.len() as int] == a);
                        }
                    }
                }
            } else {
                proof {
                    assert forall|a: ClientAddr| #[trigger] r@.contains(a) <==> exists|j: int|
                        0 <= j < i + 1 && (#[trigger] es[j]).0 == a && views(es[j].1.ticker@).to_set().contains(quote.ticker@) by {
                        if exists|j: int| 0 <= j < i + 1 && (#[trigger] es[j]).0 == a && views(es[j].1.ticker@).to_set().contains(quote.ticker@) {
                            let j = choose|j: int| 0 <= j < i + 1 && (#[trigger] es[j]).0 == a && views(es[j].1.ticker@).to_set().contains(quote.ticker@);
                            assert(j != i);
                        }
                    }
                }
            }
        }
        proof {
            assert forall|a: ClientAddr| #[trigger] r@.to_set().contains(a) <==> listeners(map_of(es), quote.ticker@).contains(a) by {
                if map_of(es).contains_key(a) {
                    let j = choose|j: int| 0 <= j < es.len() && (#[trigger] es[j]).0 == a;
                    assert(map_of(es)[a] == sub_view(es[j].1));
                }
            }
            assert(r@.to_set() =~= listeners(map_of(es), quote.ticker@));
        }
        r
    }
}

impl Default for Registry {
    /// An empty table.
    fn default() -> (r: Self)
        ensures
            r.wf(),
            r@ == Map::<ClientAddr, (Set<Seq<char>>, u64)>::empty(),
    {
        Registry::new()
    }
}

/// A subscriber that has just registered is sent the quotes of exactly the
/// tickers it registered for.
pub proof fn law_register_then_route(
    m: Map<ClientAddr, (Set<Seq<char>>, u64)>,
    a: ClientAddr,
    tickers: Set<Seq<char>>,
    now: u64,
    ticker: Seq<char>,
)
    ensures
        listeners(m.insert(a, (tickers, now)), ticker).contains(a) == tickers.contains(ticker),
{
}

/// A sign of life of `a` changes nothing but `a`'s last sign of life: every
/// other subscriber stays with the same tickers and time, no subscriber is
/// added or removed, and a registered `a` keeps its tickers and is last seen
/// at `now`.
pub proof fn law_ping_touches_only_its_subscriber(
    m: Map<ClientAddr, (Set<Seq<char>>, u64)>,
    a: ClientAddr,
    now: u64,
)
    ensures
        forall|b: ClientAddr|
            b != a ==> (#[trigger] pinged(m, a, now).contains_key(b) == m.contains_key(b) && (
            m.contains_key(b) ==> pinged(m, a, now)[b] == m[b])),
        pinged(m, a, now).contains_key(a) == m.contains_key(a),
        m.contains_key(a) ==> pinged(m, a, now)[a] == (m[a].0, now),
        pinged(m, a, now).dom() == m.dom(),
{
    assert(pinged(m, a, now).dom() =~= m.dom());
}

/// A clearing keeps every subscriber seen less than the timeout before, with
/// its tickers and time, and removes every other one.
pub proof fn law_clear_stale_keeps_fresh(m: Map<ClientAddr, (Set<Seq<char>>, u64)>, now: u64, b: ClientAddr)
    ensures
        fresh_part(m, now).contains_key(b) == (m.contains_key(b) && elapsed(m[b].1, now)
            < STATE_TIMEOUT_NANOS),
        fresh_part(m, now).contains_key(b) ==> fresh_part(m, now)[b] == m[b],
{
}

/// A sign of life keeps a registered subscriber and its tickers: a clearing
/// at the time of the ping leaves it in the table.
pub proof fn law_ping_keeps_subscriber(m: Map<ClientAddr, (Set<Seq<char>>, u64)>, a: ClientAddr, now: u64)
    requires
        m.contains_key(a),
    ensures
        fresh_part(pinged(m, a, now), now).contains_key(a),
        fresh_part(pinged(m, a, now), now)[a] == (m[a].0, now),
{
}

/// A subscriber silent for at least the timeout is removed by a clearing.
pub proof fn law_silent_subscriber_dropped(m: Map<ClientAddr, (Set<Seq<char>>, u64)>, a: ClientAddr, now: u64)
    requires
        elapsed(m[a].1, now) >= STATE_TIMEOUT_NANOS,
    ensures
        !fresh_part(m, now).contains_key(a),
{
}

/// Clearing twice at the same time removes nothing more than clearing once.
pub proof fn law_clear_stale_idempotent(m: Map<ClientAddr, (Set<Seq<char>>, u64)>, now: u64)
    ensures
        fresh_part(fresh_part(m, now), now) == fresh_part(m, now),
{
    assert(fresh_part(fresh_part(m, now), now) =~= fresh_part(m, now));
}

/// Unregistering an address removes it whatever it was registered with.
pub proof fn law_unregister_after_register(
    m: Map<ClientAddr, (Set<Seq<char>>, u64)>,
    a: ClientAddr,
    entry: (Set<Seq<char>>, u64),
)
    ensures
        m.insert(a, entry).remove(a) == m.remove(a),
{
    assert(m.insert(a, entry).remove(a) =~= m.remove(a));
}

/// Whether `list` holds a string with the view of `t`.
fn contains_ticker(list: &Vec<String>, t: &String) -> (b: bool)
    ensures
        b == views(list@).to_set().contains(t@),
{
    let n = list.len();
    for i in 0..n
        invariant
            n == list.len(),
            forall|k: int| 0 <= k < i ==> #[trigger] views(list@)[k] != t@,
    {
        if list[i] == *t {
            assert(views(list@)[i as int] == t@);
            return true;
        }
    }
    false
}

} // verus!
